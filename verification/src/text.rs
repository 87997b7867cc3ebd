//! The few operations on text that configuration and the control protocol
//! need, stated over sequences of characters.

use vstd::prelude::*;
use vstd::string::*;

verus! {

/// Whether a character has Unicode's `White_Space` property: the tab, the
/// four line and page breaks after it, the space, the next-line control,
/// the no-break space, the Ogham space mark, the eleven spaces from en quad
/// to hair space, the line and the paragraph separator, the narrow no-break
/// space, the medium mathematical space and the ideographic space.
pub open spec fn white_space(c: char) -> bool {
    ||| '\u{9}' <= c <= '\u{d}'
    ||| c == '\u{20}'
    ||| c == '\u{85}'
    ||| c == '\u{a0}'
    ||| c == '\u{1680}'
    ||| '\u{2000}' <= c <= '\u{200a}'
    ||| c == '\u{2028}'
    ||| c == '\u{2029}'
    ||| c == '\u{202f}'
    ||| c == '\u{205f}'
    ||| c == '\u{3000}'
}

/// The lower-case equivalent of a text, by Unicode's `Lowercase` property.
pub uninterp spec fn lowercase(text: Seq<char>) -> Seq<char>;

/// The text that a sequence of bytes decodes to as UTF-8, each ill-formed
/// part standing as one replacement character.
pub uninterp spec fn lossy_text(bytes: Seq<u8>) -> Seq<char>;

/// Calls `char::is_whitespace`. Trusted: the answer is whether the
/// character is one of the 25 that have Unicode's `White_Space` property,
/// as `white_space` lists them.
#[verifier::external_body]
pub(crate) fn is_whitespace(c: char) -> (b: bool)
    ensures
        b == white_space(c),
{
    c.is_whitespace()
}

/// Calls `str::to_lowercase`. Trusted: the result is a function of the
/// text alone, named `lowercase`; nothing more is claimed.
#[verifier::external_body]
pub(crate) fn to_lowercase(text: &str) -> (lower: String)
    ensures
        lower@ == lowercase(text@),
{
    text.to_lowercase()
}

/// Calls `String::from_utf8_lossy`. Trusted: the result is a function of
/// the bytes alone, named `lossy_text`; nothing more is claimed.
#[verifier::external_body]
pub(crate) fn from_utf8_lossy(bytes: &[u8]) -> (text: String)
    ensures
        text@ == lossy_text(bytes@),
{
    String::from_utf8_lossy(bytes).into_owned()
}

/// A text without its leading white space.
pub open spec fn trim_start(text: Seq<char>) -> Seq<char>
    decreases text.len(),
{
    if text.len() > 0 && white_space(text.first()) {
        trim_start(text.drop_first())
    } else {
        text
    }
}

/// A text without its trailing white space.
pub open spec fn trim_end(text: Seq<char>) -> Seq<char>
    decreases text.len(),
{
    if text.len() > 0 && white_space(text.last()) {
        trim_end(text.drop_last())
    } else {
        text
    }
}

/// A text without its leading and trailing white space.
pub open spec fn trimmed(text: Seq<char>) -> Seq<char> {
    trim_end(trim_start(text))
}

/// Leading white space ends where the first other character stands.
pub proof fn lemma_trim_start(text: Seq<char>, from: int)
    requires
        0 <= from <= text.len(),
        forall|j: int| 0 <= j < from ==> white_space(#[trigger] text[j]),
        from < text.len() ==> !white_space(text[from]),
    ensures
        trim_start(text) == text.subrange(from, text.len() as int),
    decreases from,
{
    if from == 0 {
        assert(text.subrange(0, text.len() as int) =~= text);
    } else {
        let rest = text.drop_first();
        assert forall|j: int| 0 <= j < from - 1 implies white_space(#[trigger] rest[j]) by {
            assert(rest[j] == text[j + 1]);
        }
        lemma_trim_start(rest, from - 1);
        assert(rest.subrange(from - 1, rest.len() as int) =~= text.subrange(
            from,
            text.len() as int,
        ));
    }
}

/// Trailing white space begins after the last other character.
pub proof fn lemma_trim_end(text: Seq<char>, to: int)
    requires
        0 <= to <= text.len(),
        forall|j: int| to <= j < text.len() ==> white_space(#[trigger] text[j]),
        0 < to ==> !white_space(text[to - 1]),
    ensures
        trim_end(text) == text.subrange(0, to),
    decreases text.len() - to,
{
    if to == text.len() {
        assert(text.subrange(0, to) =~= text);
    } else {
        let rest = text.drop_last();
        lemma_trim_end(rest, to);
        assert(rest.subrange(0, to) =~= text.subrange(0, to));
    }
}

/// The text without its leading and trailing white space.
pub fn trim(text: &str) -> (inner: &str)
    ensures
        inner@ == trimmed(text@),
{
    let n = text.unicode_len();
    let mut from: usize = 0;
    while from < n && is_whitespace(text.get_char(from))
        invariant
            n == text@.len(),
            from <= n,
            forall|j: int| 0 <= j < from ==> white_space(#[trigger] text@[j]),
        decreases n - from,
    {
        from = from + 1;
    }
    let mut to: usize = n;
    while to > from && is_whitespace(text.get_char(to - 1))
        invariant
            n == text@.len(),
            from <= to <= n,
            forall|j: int| to <= j < n ==> white_space(#[trigger] text@[j]),
        decreases to,
    {
        to = to - 1;
    }
    proof {
        lemma_trim_start(text@, from as int);
        let tail = text@.subrange(from as int, n as int);
        assert forall|j: int| to - from <= j < tail.len() implies white_space(#[trigger] tail[j]) by {
            assert(tail[j] == text@[j + from]);
        }
        if to > from {
            assert(tail[to - from - 1] == text@[to - 1]);
        }
        lemma_trim_end(tail, to - from);
        assert(tail.subrange(0, to - from) =~= text@.subrange(from as int, to as int));
    }
    text.substring_char(from, to)
}

/// Whether two texts are the same characters.
pub fn same_text(a: &str, b: &str) -> (same: bool)
    ensures
        same == (a@ == b@),
{
    a.to_owned() == b.to_owned()
}

/// The views of a sequence of strings.
pub open spec fn texts(strings: Seq<String>) -> Seq<Seq<char>> {
    strings.map_values(|s: String| s@)
}

/// What follows `prefix` in `text`, if `text` begins with it.
pub open spec fn spec_strip_prefix(text: Seq<char>, prefix: Seq<char>) -> Option<Seq<char>> {
    if prefix.is_prefix_of(text) {
        Some(text.skip(prefix.len() as int))
    } else {
        None
    }
}

/// What follows `prefix` in `text`, if `text` begins with it.
pub fn strip_prefix<'a>(text: &'a str, prefix: &str) -> (rest: Option<&'a str>)
    ensures
        match rest {
            Some(rest) => spec_strip_prefix(text@, prefix@) == Some(rest@),
            None => spec_strip_prefix(text@, prefix@) is None,
        },
{
    let n = text.unicode_len();
    let p = prefix.unicode_len();
    if n < p {
        return None;
    }
    if same_text(text.substring_char(0, p), prefix) {
        Some(text.substring_char(p, n))
    } else {
        None
    }
}

/// `c` stands at `i` in `text` and nowhere before.
pub open spec fn is_first_at(text: Seq<char>, c: char, i: int) -> bool {
    &&& 0 <= i < text.len()
    &&& text[i] == c
    &&& forall|j: int| 0 <= j < i ==> #[trigger] text[j] != c
}

/// Where `c` first stands in `text`, if it occurs.
pub open spec fn first_index(text: Seq<char>, c: char) -> Option<int> {
    if exists|i: int| is_first_at(text, c, i) {
        Some(choose|i: int| is_first_at(text, c, i))
    } else {
        None
    }
}

/// Where `c` first stands in `text`, if it occurs.
pub fn find_first(text: &str, c: char) -> (found: Option<usize>)
    ensures
        match found {
            Some(i) => first_index(text@, c) == Some(i as int) && i < text@.len(),
            None => first_index(text@, c) is None,
        },
{
    let n = text.unicode_len();
    let mut i: usize = 0;
    while i < n
        invariant
            n == text@.len(),
            i <= n,
            forall|j: int| 0 <= j < i ==> #[trigger] text@[j] != c,
        decreases n - i,
    {
        if text.get_char(i) == c {
            proof {
                assert(is_first_at(text@, c, i as int));
                let k = choose|k: int| is_first_at(text@, c, k);
                assert(is_first_at(text@, c, k));
                assert(k == i) by {
                    if k < i {
                        assert(text@[k] != c);
                    } else if i < k {
                        assert(text@[i as int] != c);
                    }
                }
            }
            return Some(i);
        }
        i = i + 1;
    }
    proof {
        if exists|k: int| is_first_at(text@, c, k) {
            let k = choose|k: int| is_first_at(text@, c, k);
            assert(text@[k] != c);
        }
    }
    None
}

/// The fields of `text` between occurrences of `separator`: one more field
/// than there are separators, each possibly empty.
pub open spec fn split_fields(text: Seq<char>, separator: char) -> Seq<Seq<char>>
    decreases text.len(),
{
    if text.len() == 0 {
        seq![Seq::empty()]
    } else {
        let before = split_fields(text.drop_last(), separator);
        if text.last() == separator {
            before.push(Seq::empty())
        } else {
            before.drop_last().push(before.last().push(text.last()))
        }
    }
}

/// The fields of a separated list that are more than white space, each
/// without the white space around it.
pub open spec fn list_items(text: Seq<char>, separator: char) -> Seq<Seq<char>> {
    split_fields(text, separator).map_values(|field: Seq<char>| trimmed(field)).filter(
        |item: Seq<char>| item.len() > 0,
    )
}

/// The fields of a separated list that are more than white space, each
/// without the white space around it.
pub fn split_list(text: &str, separator: char) -> (items: Vec<String>)
    ensures
        texts(items@) == list_items(text@, separator),
{
    let n = text.unicode_len();
    let mut items: Vec<String> = Vec::new();
    let mut start: usize = 0;
    let mut i: usize = 0;
    let ghost trim_each = |field: Seq<char>| trimmed(field);
    let ghost keep = |item: Seq<char>| item.len() > 0;
    let ghost mut done: Seq<Seq<char>> = Seq::empty();
    proof {
        assert(text@.subrange(0, 0) =~= Seq::<char>::empty());
        assert(text@.take(0) =~= Seq::<char>::empty());
        assert(done.push(text@.subrange(0, 0)) =~= seq![Seq::<char>::empty()]);
        assert(done.map_values(trim_each) =~= Seq::<Seq<char>>::empty());
        assert(done.map_values(trim_each).filter(keep) =~= Seq::<Seq<char>>::empty()) by {
            reveal(Seq::filter);
        }
        assert(texts(items@) =~= Seq::<Seq<char>>::empty());
    }
    while i < n
        invariant
            n == text@.len(),
            start <= i <= n,
            trim_each == |field: Seq<char>| trimmed(field),
            keep == |item: Seq<char>| item.len() > 0,
            split_fields(text@.take(i as int), separator) == done.push(
                text@.subrange(start as int, i as int),
            ),
            texts(items@) == done.map_values(trim_each).filter(keep),
        decreases n - i,
    {
        proof {
            assert(text@.take(i + 1).drop_last() =~= text@.take(i as int));
            assert(text@.take(i + 1).last() == text@[i as int]);
        }
        if text.get_char(i) == separator {
            let item = trim(text.substring_char(start, i));
            let ghost field = text@.subrange(start as int, i as int);
            proof {
                done.lemma_push_map_commute(trim_each, field);
                done.map_values(trim_each).lemma_filter_push(trimmed(field), keep);
            }
            let ghost before = texts(items@);
            if item.unicode_len() > 0 {
                items.push(item.to_owned());
                assert(texts(items@) =~= before.push(item@));
            }
            proof {
                done = done.push(field);
                assert(text@.subrange(i + 1, i + 1) =~= Seq::<char>::empty());
            }
            start = i + 1;
        } else {
            proof {
                let before = done.push(text@.subrange(start as int, i as int));
                assert(before.drop_last() =~= done);
                assert(text@.subrange(start as int, i as int).push(text@[i as int])
                    =~= text@.subrange(start as int, i + 1));
            }
        }
        i = i + 1;
    }
    let item = trim(text.substring_char(start, n));
    proof {
        let field = text@.subrange(start as int, n as int);
        assert(text@.take(n as int) =~= text@);
        done.lemma_push_map_commute(trim_each, field);
        done.map_values(trim_each).lemma_filter_push(trimmed(field), keep);
    }
    let ghost before = texts(items@);
    if item.unicode_len() > 0 {
        items.push(item.to_owned());
        assert(texts(items@) =~= before.push(item@));
    }
    items
}

/// Whether a character is one of the ten decimal digits.
pub open spec fn is_digit(c: char) -> bool {
    '0' <= c <= '9'
}

/// Whether a text is made of decimal digits only.
pub open spec fn all_digits(text: Seq<char>) -> bool {
    forall|i: int| 0 <= i < text.len() ==> is_digit(#[trigger] text[i])
}

/// The number that a text of decimal digits writes.
pub open spec fn decimal_value(digits: Seq<char>) -> nat
    decreases digits.len(),
{
    if digits.len() == 0 {
        0
    } else {
        (decimal_value(digits.drop_last()) * 10 + (digits.last() as int - '0' as int)) as nat
    }
}

/// The 16-bit number that a text writes in decimal: an optional plus sign
/// and then one or more digits, nothing else, and no more than 65535.
pub open spec fn spec_parse_u16(text: Seq<char>) -> Option<u16> {
    let digits = if text.len() > 0 && text[0] == '+' {
        text.drop_first()
    } else {
        text
    };
    if digits.len() > 0 && all_digits(digits) && decimal_value(digits) <= u16::MAX {
        Some(decimal_value(digits) as u16)
    } else {
        None
    }
}

/// More digits never write a smaller number.
pub proof fn lemma_decimal_value_grows(digits: Seq<char>, k: int)
    requires
        all_digits(digits),
        0 <= k <= digits.len(),
    ensures
        decimal_value(digits.take(k)) <= decimal_value(digits),
    decreases digits.len(),
{
    if k == digits.len() {
        assert(digits.take(k) =~= digits);
    } else {
        let front = digits.drop_last();
        assert(all_digits(front)) by {
            assert forall|i: int| 0 <= i < front.len() implies is_digit(#[trigger] front[i]) by {
                assert(front[i] == digits[i]);
            }
        }
        lemma_decimal_value_grows(front, k);
        assert(front.take(k) =~= digits.take(k));
        assert(is_digit(digits[digits.len() - 1]));
    }
}

/// The 16-bit number that a text writes in decimal, as `u16`'s `FromStr`
/// reads it: an optional plus sign and then one or more digits.
pub fn parse_u16(text: &str) -> (value: Option<u16>)
    ensures
        value == spec_parse_u16(text@),
{
    let n = text.unicode_len();
    let start: usize = if n > 0 && text.get_char(0) == '+' {
        1
    } else {
        0
    };
    if start == n {
        return None;
    }
    let ghost digits = if start == 1 {
        text@.drop_first()
    } else {
        text@
    };
    let mut acc: u32 = 0;
    let mut i: usize = start;
    proof {
        assert(digits.take(0) =~= Seq::<char>::empty());
    }
    while i < n
        invariant
            n == text@.len(),
            start <= i <= n,
            start <= 1,
            digits.len() == n - start,
            digits == if text@.len() > 0 && text@[0] == '+' {
                text@.drop_first()
            } else {
                text@
            },
            forall|j: int| 0 <= j < digits.len() ==> digits[j] == text@[j + start],
            all_digits(digits.take(i - start)),
            acc == decimal_value(digits.take(i - start)),
            acc <= u16::MAX,
        decreases n - i,
    {
        let c = text.get_char(i);
        if !('0' <= c && c <= '9') {
            proof {
                assert(!is_digit(digits[i - start]));
            }
            return None;
        }
        let digit: u32 = c as u32 - '0' as u32;
        proof {
            let next = digits.take(i - start + 1);
            assert(next.drop_last() =~= digits.take(i - start));
            assert(next.last() == c);
            assert(all_digits(next)) by {
                assert forall|j: int| 0 <= j < next.len() implies is_digit(#[trigger] next[j]) by {
                    if j < i - start {
                        assert(digits.take(i - start)[j] == next[j]);
                    }
                }
            }
        }
        acc = acc * 10 + digit;
        if acc > 65535 {
            proof {
                if all_digits(digits) {
                    lemma_decimal_value_grows(digits, i - start + 1);
                }
            }
            return None;
        }
        i = i + 1;
    }
    proof {
        assert(digits.take(n - start) =~= digits);
    }
    Some(acc as u16)
}

} // verus!
