//! Round-robin over an unchanging set of active backends visits them evenly.

use crate::invariants::lemma_flatten_active;
use crate::model::RegistryView;
use crate::types::LoadBalancerMode;
use vstd::arithmetic::div_mod::{
    lemma_div_is_ordered, lemma_div_multiples_vanish, lemma_div_plus_one, lemma_fundamental_div_mod,
    lemma_mod_self_0, lemma_small_mod,
};
use vstd::prelude::*;

verus! {

/// The registry after `n` selections in a row.
pub open spec fn after_selections(s: RegistryView, n: nat) -> RegistryView
    decreases n,
{
    if n == 0 {
        s
    } else {
        after_selections(s, (n - 1) as nat).after_select()
    }
}

/// How many of the first `n` selections in a row pick the active backend at
/// `position` of the flattened active list.
pub open spec fn visits(s: RegistryView, n: nat, position: int) -> nat
    decreases n,
{
    if n == 0 {
        0
    } else {
        visits(s, (n - 1) as nat, position) + if after_selections(
            s,
            (n - 1) as nat,
        ).round_robin_position() == position {
            1nat
        } else {
            0nat
        }
    }
}

/// Selections still to come before round-robin, standing at `at`, reaches
/// `position` among `k` backends.
pub open spec fn steps_until(position: int, at: int, k: int) -> int {
    if at <= position {
        position - at
    } else {
        position + k - at
    }
}

/// Selections in a row leave the groups alone, pick the positions of the
/// flattened active list one after the other, and visit `position` once in
/// every `k` steps.
pub proof fn lemma_round_robin_walk(s: RegistryView, n: nat, position: int)
    requires
        s.mode == LoadBalancerMode::RoundRobin,
        0 <= position < s.flat_active().len(),
    ensures
        after_selections(s, n).groups == s.groups,
        after_selections(s, n).mode == s.mode,
        0 <= after_selections(s, n).round_robin_position() < s.flat_active().len(),
        after_selections(s, n).selection() == Some(
            s.flat_active()[after_selections(s, n).round_robin_position()],
        ),
        s.flat_active().len() * visits(s, n, position) + steps_until(
            position,
            s.round_robin_position(),
            s.flat_active().len() as int,
        ) == n + steps_until(
            position,
            after_selections(s, n).round_robin_position(),
            s.flat_active().len() as int,
        ),
    decreases n,
{
    let k = s.flat_active().len() as int;
    lemma_flatten_active(s.groups);
    assert(s.has_active());
    if n == 0 {
        assert(0 <= s.cursor % (k as nat) < k) by (nonlinear_arith)
            requires
                k > 0,
        ;
        assert(s.flat_active().len() * visits(s, n, position) == 0) by (nonlinear_arith)
            requires
                visits(s, n, position) == 0,
        ;
    } else {
        let m = (n - 1) as nat;
        lemma_round_robin_walk(s, m, position);
        let t = after_selections(s, m);
        let at = t.round_robin_position();
        assert(t.flat_active() == s.flat_active());
        assert(t.has_active());
        let u = t.after_select();
        assert(u.cursor == ((at + 1) % k) as nat);
        if at + 1 == k {
            lemma_mod_self_0(k);
            lemma_small_mod(0, k as nat);
            assert(u.round_robin_position() == 0);
        } else {
            lemma_small_mod((at + 1) as nat, k as nat);
            assert(u.round_robin_position() == at + 1);
        }
        assert(u.flat_active() == s.flat_active());
        let w = visits(s, m, position) as int;
        let v = visits(s, n, position) as int;
        let len = s.flat_active().len();
        assert(v == w + if at == position {
            1int
        } else {
            0int
        });
        assert(len * visits(s, n, position) == len * visits(s, m, position) + if at == position {
            k
        } else {
            0int
        }) by (nonlinear_arith)
            requires
                len == k,
                visits(s, n, position) == visits(s, m, position) + if at == position {
                    1int
                } else {
                    0int
                },
        ;
    }
}

/// Among `n` round-robin selections in a row over `k` active backends, each
/// position of the flattened active list is picked `n / k` times, rounded
/// down or rounded up.
pub proof fn lemma_round_robin_is_fair(s: RegistryView, n: nat, position: int)
    requires
        s.mode == LoadBalancerMode::RoundRobin,
        0 <= position < s.flat_active().len(),
    ensures
        ({
            let k = s.flat_active().len() as int;
            let floor = n as int / k;
            let ceiling = (n + k - 1) / k;
            &&& floor <= ceiling <= floor + 1
            &&& visits(s, n, position) == floor || visits(s, n, position) == ceiling
        }),
{
    let k = s.flat_active().len() as int;
    let w = visits(s, n, position) as int;
    let floor = n as int / k;
    let ceiling = (n + k - 1) / k;
    lemma_round_robin_walk(s, n, position);
    lemma_round_robin_walk(s, 0, position);
    let before = steps_until(position, s.round_robin_position(), k);
    let after = steps_until(position, after_selections(s, n).round_robin_position(), k);
    assert(0 <= before < k && 0 <= after < k);
    assert(k * w == n + after - before);
    // w <= ceiling
    lemma_div_is_ordered(k * w, n + k - 1, k);
    lemma_div_multiples_vanish(w, k);
    assert(w <= ceiling);
    // floor <= w
    lemma_fundamental_div_mod(n as int, k);
    assert(floor <= w) by (nonlinear_arith)
        requires
            k > 0,
            k * w >= n - (k - 1),
            n == k * floor + (n as int % k),
            0 <= n as int % k,
    ;
    // ceiling <= floor + 1
    lemma_div_is_ordered(n + k - 1, k + n, k);
    lemma_div_plus_one(n as int, k);
    lemma_div_is_ordered(n as int, n + k - 1, k);
}

} // verus!
