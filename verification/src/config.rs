//! Start-up configuration: the command line, the label of the dynamic
//! group, and the shape in which backends are handed to the registry.
//!
//! Socket addresses are told apart from other text by the caller, which
//! has the platform's parser; this module decides everything else.

use crate::load_balancer::{batch_view, LoadBalancer};
use crate::text::{
    find_first, first_index, list_items, lowercase, parse_u16, same_text, spec_parse_u16,
    spec_strip_prefix, split_list, strip_prefix, texts, to_lowercase,
};
use crate::types::{Endpoint, LoadBalancerMode, Protocol};
use vstd::prelude::*;
use vstd::string::*;

verus! {

/// Why a piece of configuration was refused.
#[derive(Clone, Copy, Debug, PartialEq, Eq, Structural)]
pub enum BadInput {
    /// The command line has no bind address.
    MissingBindAddress,
    /// The bind address is no socket address.
    InvalidBindAddress,
    /// `mode=` names no selection policy.
    UnknownMode,
    /// `proto=` names no protocol.
    UnknownProtocol,
    /// A `host:port` label has no colon.
    MissingPort,
    /// The port of a `host:port` label is not a 16-bit decimal number.
    InvalidPort,
}

impl LoadBalancerMode {
    /// The policy that a name in lower case stands for.
    pub open spec fn spec_from_lowercase(name: Seq<char>) -> Option<LoadBalancerMode> {
        if name == "round-robin"@ {
            Some(LoadBalancerMode::RoundRobin)
        } else if name == "least-connections"@ {
            Some(LoadBalancerMode::LeastConnections)
        } else {
            None
        }
    }

    /// The policy that a name in lower case stands for.
    pub fn from_lowercase(name: &str) -> (mode: Option<LoadBalancerMode>)
        ensures
            mode == LoadBalancerMode::spec_from_lowercase(name@),
    {
        if same_text(name, "round-robin") {
            Some(LoadBalancerMode::RoundRobin)
        } else if same_text(name, "least-connections") {
            Some(LoadBalancerMode::LeastConnections)
        } else {
            None
        }
    }

    /// The policy that a name stands for, whatever its case.
    pub fn from_name(input: &str) -> (mode: Result<LoadBalancerMode, BadInput>)
        ensures
            mode == match LoadBalancerMode::spec_from_lowercase(lowercase(input@)) {
                Some(mode) => Ok::<LoadBalancerMode, BadInput>(mode),
                None => Err(BadInput::UnknownMode),
            },
    {
        let lower = to_lowercase(input);
        match LoadBalancerMode::from_lowercase(lower.as_str()) {
            Some(mode) => Ok(mode),
            None => Err(BadInput::UnknownMode),
        }
    }
}

impl core::str::FromStr for LoadBalancerMode {
    type Err = String;

    /// The policy that a name stands for, whatever its case; a name that
    /// stands for none is handed back in the message that refuses it.
    fn from_str(input: &str) -> (mode: Result<LoadBalancerMode, String>)
        ensures
            match LoadBalancerMode::spec_from_lowercase(lowercase(input@)) {
                Some(named) => mode == Ok::<LoadBalancerMode, String>(named),
                None => mode is Err && mode->Err_0@ == "Invalid load balancer mode: "@ + input@,
            },
    {
        match LoadBalancerMode::from_name(input) {
            Ok(mode) => Ok(mode),
            Err(_) => Err("Invalid load balancer mode: ".to_owned().concat(input)),
        }
    }
}

impl Protocol {
    /// The protocol that a name in lower case stands for.
    pub open spec fn spec_from_lowercase(name: Seq<char>) -> Option<Protocol> {
        if name == "udp"@ {
            Some(Protocol::UDP)
        } else if name == "tcp"@ {
            Some(Protocol::TCP)
        } else {
            None
        }
    }

    /// The protocol that a name in lower case stands for.
    pub fn from_lowercase(name: &str) -> (protocol: Option<Protocol>)
        ensures
            protocol == Protocol::spec_from_lowercase(name@),
    {
        if same_text(name, "udp") {
            Some(Protocol::UDP)
        } else if same_text(name, "tcp") {
            Some(Protocol::TCP)
        } else {
            None
        }
    }

    /// The protocol that a name stands for, whatever its case.
    pub fn from_name(input: &str) -> (protocol: Result<Protocol, BadInput>)
        ensures
            protocol == match Protocol::spec_from_lowercase(lowercase(input@)) {
                Some(protocol) => Ok::<Protocol, BadInput>(protocol),
                None => Err(BadInput::UnknownProtocol),
            },
    {
        let lower = to_lowercase(input);
        match Protocol::from_lowercase(lower.as_str()) {
            Some(protocol) => Ok(protocol),
            None => Err(BadInput::UnknownProtocol),
        }
    }
}

// ----- the command line -----

/// What the command line asks for.
#[derive(Clone, Debug)]
pub struct Arguments {
    /// Where to listen.
    pub bind_addr: Endpoint,
    /// The static backends, as written, in the order given.
    pub backends: Vec<String>,
    /// The label to resolve periodically, if any.
    pub ring_domain: Option<String>,
    /// The selection policy.
    pub mode: LoadBalancerMode,
    /// The protocol of the listener and of every backend.
    pub proto: Protocol,
    /// The arguments that were passed over and are worth a warning: those
    /// that are no flag and no help switch, and `backends=` with nothing
    /// after it. In the order given.
    pub ignored: Vec<String>,
}

/// What the command line asks for, as plain values.
pub struct ArgumentsView {
    pub bind_addr: Endpoint,
    pub backends: Seq<Seq<char>>,
    pub ring_domain: Option<Seq<char>>,
    pub mode: LoadBalancerMode,
    pub proto: Protocol,
    pub ignored: Seq<Seq<char>>,
}

impl View for Arguments {
    type V = ArgumentsView;

    open spec fn view(&self) -> ArgumentsView {
        ArgumentsView {
            bind_addr: self.bind_addr,
            backends: texts(self.backends@),
            ring_domain: match self.ring_domain {
                Some(label) => Some(label@),
                None => None,
            },
            mode: self.mode,
            proto: self.proto,
            ignored: texts(self.ignored@),
        }
    }
}

/// A command line that names only where to listen: round-robin over
/// streams, with no backends.
pub open spec fn defaults(bind_addr: Endpoint) -> ArgumentsView {
    ArgumentsView {
        bind_addr,
        backends: Seq::empty(),
        ring_domain: None,
        mode: LoadBalancerMode::RoundRobin,
        proto: Protocol::TCP,
        ignored: Seq::empty(),
    }
}

/// Whether an argument is one of the two switches that ask for help.
pub open spec fn is_help_switch(arg: Seq<char>) -> bool {
    arg == "-h"@ || arg == "--help"@
}

/// What one more argument makes of what was asked for so far.
///
/// `backends=` adds the items of a comma-separated list; `ring_domain=`,
/// `mode=` and `proto=` each replace what an earlier one said. The help
/// switches change nothing. Anything else, and `backends=` with nothing
/// after it, is passed over and noted.
pub open spec fn with_argument(asked: ArgumentsView, arg: Seq<char>) -> Result<
    ArgumentsView,
    BadInput,
> {
    if let Some(list) = spec_strip_prefix(arg, "backends="@) {
        if list.len() == 0 {
            Ok(ArgumentsView { ignored: asked.ignored.push(arg), ..asked })
        } else {
            Ok(ArgumentsView { backends: asked.backends + list_items(list, ','), ..asked })
        }
    } else if let Some(label) = spec_strip_prefix(arg, "ring_domain="@) {
        Ok(ArgumentsView { ring_domain: Some(label), ..asked })
    } else if let Some(name) = spec_strip_prefix(arg, "mode="@) {
        match LoadBalancerMode::spec_from_lowercase(lowercase(name)) {
            Some(mode) => Ok(ArgumentsView { mode, ..asked }),
            None => Err(BadInput::UnknownMode),
        }
    } else if let Some(name) = spec_strip_prefix(arg, "proto="@) {
        match Protocol::spec_from_lowercase(lowercase(name)) {
            Some(proto) => Ok(ArgumentsView { proto, ..asked }),
            None => Err(BadInput::UnknownProtocol),
        }
    } else if is_help_switch(arg) {
        Ok(asked)
    } else {
        Ok(ArgumentsView { ignored: asked.ignored.push(arg), ..asked })
    }
}

/// What further arguments make of what was asked for so far, first to
/// last, up to the first that is refused.
pub open spec fn with_arguments(asked: ArgumentsView, args: Seq<Seq<char>>) -> Result<
    ArgumentsView,
    BadInput,
>
    decreases args.len(),
{
    if args.len() == 0 {
        Ok(asked)
    } else {
        match with_argument(asked, args.first()) {
            Ok(next) => with_arguments(next, args.drop_first()),
            Err(refused) => Err(refused),
        }
    }
}

/// What a command line asks for. Its first argument is where to listen,
/// and `bind_addr` is the socket address that it writes, if it writes one;
/// the other arguments are read in order.
///
/// A line without arguments is refused; then a first argument that is no
/// socket address; then the first argument that names an unknown mode or
/// protocol.
pub open spec fn spec_parse_arguments(args: Seq<Seq<char>>, bind_addr: Option<Endpoint>) -> Result<
    ArgumentsView,
    BadInput,
> {
    if args.len() == 0 {
        Err(BadInput::MissingBindAddress)
    } else {
        match bind_addr {
            None => Err(BadInput::InvalidBindAddress),
            Some(bind_addr) => with_arguments(defaults(bind_addr), args.skip(1)),
        }
    }
}

/// Reads one argument after the bind address.
fn read_argument(asked: Arguments, arg: &str) -> (next: Result<Arguments, BadInput>)
    ensures
        match next {
            Ok(next) => with_argument(asked@, arg@) == Ok::<ArgumentsView, BadInput>(next@),
            Err(refused) => with_argument(asked@, arg@) == Err::<ArgumentsView, BadInput>(refused),
        },
{
    let mut asked = asked;
    if let Some(list) = strip_prefix(arg, "backends=") {
        if list.unicode_len() == 0 {
            let ghost before = texts(asked.ignored@);
            asked.ignored.push(arg.to_owned());
            assert(texts(asked.ignored@) =~= before.push(arg@));
            return Ok(asked);
        }
        let mut items = split_list(list, ',');
        let ghost before = texts(asked.backends@);
        let ghost added = texts(items@);
        asked.backends.append(&mut items);
        assert(texts(asked.backends@) =~= before + added);
        Ok(asked)
    } else if let Some(label) = strip_prefix(arg, "ring_domain=") {
        asked.ring_domain = Some(label.to_owned());
        Ok(asked)
    } else if let Some(name) = strip_prefix(arg, "mode=") {
        match LoadBalancerMode::from_name(name) {
            Ok(mode) => {
                asked.mode = mode;
                Ok(asked)
            },
            Err(refused) => Err(refused),
        }
    } else if let Some(name) = strip_prefix(arg, "proto=") {
        match Protocol::from_name(name) {
            Ok(proto) => {
                asked.proto = proto;
                Ok(asked)
            },
            Err(refused) => Err(refused),
        }
    } else if same_text(arg, "-h") || same_text(arg, "--help") {
        Ok(asked)
    } else {
        let ghost before = texts(asked.ignored@);
        asked.ignored.push(arg.to_owned());
        assert(texts(asked.ignored@) =~= before.push(arg@));
        Ok(asked)
    }
}

/// Reads the command line, without the program's name.
///
/// The first argument is the bind address; `bind_addr` is the socket
/// address that the platform's parser read from it, or `None` if it read
/// none. Of the other arguments, `backends=a,b,...` adds to the static
/// backends each item that is more than white space, and `ring_domain=`,
/// `mode=` and `proto=` set what they name; the mode and the protocol are
/// read without regard to case. The help switches change nothing, and what
/// else is passed over is listed as ignored.
///
/// The line is refused if it is empty, else if its first argument is no
/// socket address, else for the first argument that names an unknown mode
/// or protocol.
pub fn parse_arguments(args: &[String], bind_addr: Option<Endpoint>) -> (parsed: Result<
    Arguments,
    BadInput,
>)
    ensures
        match parsed {
            Ok(asked) => spec_parse_arguments(texts(args@), bind_addr) == Ok::<
                ArgumentsView,
                BadInput,
            >(asked@),
            Err(refused) => spec_parse_arguments(texts(args@), bind_addr) == Err::<
                ArgumentsView,
                BadInput,
            >(refused),
        },
{
    if args.len() == 0 {
        return Err(BadInput::MissingBindAddress);
    }
    let bind = match bind_addr {
        Some(bind) => bind,
        None => {
            return Err(BadInput::InvalidBindAddress);
        },
    };
    let ghost all = texts(args@);
    let mut asked = Arguments {
        bind_addr: bind,
        backends: Vec::new(),
        ring_domain: None,
        mode: LoadBalancerMode::RoundRobin,
        proto: Protocol::TCP,
        ignored: Vec::new(),
    };
    assert(asked@.backends =~= Seq::<Seq<char>>::empty());
    assert(asked@.ignored =~= Seq::<Seq<char>>::empty());
    let mut i: usize = 1;
    while i < args.len()
        invariant
            1 <= i <= args.len(),
            all == texts(args@),
            spec_parse_arguments(all, bind_addr) == with_arguments(asked@, all.skip(i as int)),
        decreases args.len() - i,
    {
        proof {
            assert(all.skip(i as int).first() == args@[i as int]@);
            assert(all.skip(i as int).drop_first() =~= all.skip(i + 1));
        }
        match read_argument(asked, args[i].as_str()) {
            Ok(next) => {
                asked = next;
            },
            Err(refused) => {
                return Err(refused);
            },
        }
        i = i + 1;
    }
    Ok(asked)
}

// ----- start-up -----

/// Whether the balancer can start with what it has been given.
#[derive(Clone, Copy, Debug, PartialEq, Eq, Structural)]
pub enum Startup {
    /// Something is configured.
    Ready,
    /// Nothing is configured yet, but a dynamic group is to be resolved and
    /// may yet bring backends.
    AwaitingResolution,
    /// Nothing is configured and nothing ever will be.
    NoBackends,
}

/// The verdict for a registry that is empty or not, with or without a
/// dynamic group to resolve.
pub open spec fn spec_startup(empty: bool, dynamic: bool) -> Startup {
    if !empty {
        Startup::Ready
    } else if dynamic {
        Startup::AwaitingResolution
    } else {
        Startup::NoBackends
    }
}

/// Decides, once the static groups are registered and the dynamic group
/// has been resolved a first time, whether the balancer can start.
///
/// Only a registry with nothing configured and no dynamic group to fall
/// back on is refused.
pub fn check_startup(lb: &LoadBalancer, ring_domain: &Option<String>) -> (verdict: Startup)
    requires
        lb.wf(),
    ensures
        verdict == spec_startup(lb@.groups.len() == 0, ring_domain is Some),
{
    if !lb.is_empty() {
        Startup::Ready
    } else if ring_domain.is_some() {
        Startup::AwaitingResolution
    } else {
        Startup::NoBackends
    }
}

// ----- the dynamic group -----

/// How often the dynamic group is resolved anew, in seconds.
pub const RING_DOMAIN_PERIOD_SECS: u64 = 60;

/// The host and the port that a `host:port` label names: what stands
/// before its first colon, and the number written after it.
pub open spec fn spec_ring_domain_target(label: Seq<char>) -> Result<(Seq<char>, u16), BadInput> {
    match first_index(label, ':') {
        None => Err(BadInput::MissingPort),
        Some(colon) => match spec_parse_u16(label.skip(colon + 1)) {
            Some(port) => Ok((label.take(colon), port)),
            None => Err(BadInput::InvalidPort),
        },
    }
}

/// The host to look up and the port to attach for the label of the dynamic
/// group.
///
/// The label is cut at its first colon. A label without a colon, or whose
/// port is not a decimal number of 16 bits, is refused, and nothing is to
/// be looked up.
pub fn ring_domain_target(ring_domain: &str) -> (target: Result<(String, u16), BadInput>)
    ensures
        match target {
            Ok((host, port)) => spec_ring_domain_target(ring_domain@) == Ok::<
                (Seq<char>, u16),
                BadInput,
            >((host@, port)),
            Err(refused) => spec_ring_domain_target(ring_domain@) == Err::<
                (Seq<char>, u16),
                BadInput,
            >(refused),
        },
{
    match find_first(ring_domain, ':') {
        None => Err(BadInput::MissingPort),
        Some(colon) => {
            let n = ring_domain.unicode_len();
            match parse_u16(ring_domain.substring_char(colon + 1, n)) {
                Some(port) => Ok((ring_domain.substring_char(0, colon).to_owned(), port)),
                None => Err(BadInput::InvalidPort),
            }
        },
    }
}

/// Every address that a lookup returned, with the protocol the balancer
/// was started for as its hint.
pub fn ring_domain_backends(addresses: &Vec<Endpoint>, protocol: Protocol) -> (backends: Vec<
    (Endpoint, Option<Protocol>),
>)
    ensures
        backends@ == addresses@.map_values(|addr: Endpoint| (addr, Some(protocol))),
{
    let mut backends: Vec<(Endpoint, Option<Protocol>)> = Vec::new();
    let mut i: usize = 0;
    while i < addresses.len()
        invariant
            i <= addresses.len(),
            backends@ == addresses@.take(i as int).map_values(
                |addr: Endpoint| (addr, Some(protocol)),
            ),
        decreases addresses.len() - i,
    {
        backends.push((addresses[i], Some(protocol)));
        i = i + 1;
        assert(backends@ =~= addresses@.take(i as int).map_values(
            |addr: Endpoint| (addr, Some(protocol)),
        ));
    }
    assert(addresses@.take(i as int) =~= addresses@);
    backends
}

// ----- the static groups -----

/// Whether one of `groups` carries `label`.
pub open spec fn has_label(
    groups: Seq<(Seq<char>, Seq<(Endpoint, Option<Protocol>)>)>,
    label: Seq<char>,
) -> bool {
    exists|i: int| 0 <= i < groups.len() && (#[trigger] groups[i]).0 == label
}

/// `groups` with `entry` at the end of the group that carries `label`, or
/// in a new last group if none does.
pub open spec fn placed(
    groups: Seq<(Seq<char>, Seq<(Endpoint, Option<Protocol>)>)>,
    label: Seq<char>,
    entry: (Endpoint, Option<Protocol>),
) -> Seq<(Seq<char>, Seq<(Endpoint, Option<Protocol>)>)> {
    if has_label(groups, label) {
        groups.map_values(
            |group: (Seq<char>, Seq<(Endpoint, Option<Protocol>)>)|
                if group.0 == label {
                    (group.0, group.1.push(entry))
                } else {
                    group
                },
        )
    } else {
        groups.push((label, seq![entry]))
    }
}

/// Labelled endpoints gathered into groups: labels in the order they first
/// occur, the endpoints of each label in the order given, each with
/// `protocol` as its hint.
pub open spec fn grouped(entries: Seq<(Seq<char>, Endpoint)>, protocol: Protocol) -> Seq<
    (Seq<char>, Seq<(Endpoint, Option<Protocol>)>),
>
    decreases entries.len(),
{
    if entries.len() == 0 {
        Seq::empty()
    } else {
        placed(
            grouped(entries.drop_last(), protocol),
            entries.last().0,
            (entries.last().1, Some(protocol)),
        )
    }
}

/// Labelled endpoints, as plain values.
pub open spec fn labelled_view(entries: Seq<(String, Endpoint)>) -> Seq<(Seq<char>, Endpoint)> {
    entries.map_values(|entry: (String, Endpoint)| (entry.0@, entry.1))
}

/// No label occurs twice.
pub open spec fn distinct_labels(groups: Seq<(Seq<char>, Seq<(Endpoint, Option<Protocol>)>)>) -> bool {
    forall|i: int, j: int|
        0 <= i < j < groups.len() ==> (#[trigger] groups[i]).0 != (#[trigger] groups[j]).0
}

/// Gathers static backends, each given with the label of its host, into
/// the groups that the registry takes.
///
/// Backends that share a label share a group; groups stand in the order in
/// which their labels first occur, and backends within a group in the order
/// given. Every backend gets `protocol` as its hint.
pub fn group_static_backends(entries: &Vec<(String, Endpoint)>, protocol: Protocol) -> (groups: Vec<
    (String, Vec<(Endpoint, Option<Protocol>)>),
>)
    ensures
        batch_view(groups@) == grouped(labelled_view(entries@), protocol),
        distinct_labels(batch_view(groups@)),
{
    let mut groups: Vec<(String, Vec<(Endpoint, Option<Protocol>)>)> = Vec::new();
    let ghost all = labelled_view(entries@);
    let mut i: usize = 0;
    assert(batch_view(groups@) =~= grouped(all.take(0), protocol));
    while i < entries.len()
        invariant
            i <= entries.len(),
            all == labelled_view(entries@),
            batch_view(groups@) == grouped(all.take(i as int), protocol),
            distinct_labels(batch_view(groups@)),
        decreases entries.len() - i,
    {
        let ghost before = batch_view(groups@);
        let ghost label = entries@[i as int].0@;
        let ghost entry = (entries@[i as int].1, Some(protocol));
        proof {
            assert(all.take(i + 1).drop_last() =~= all.take(i as int));
            assert(all.take(i + 1).last() == (label, entries@[i as int].1));
        }
        let mut j: usize = 0;
        let mut found: Option<usize> = None;
        while j < groups.len()
            invariant_except_break
                found is None,
                forall|k: int| 0 <= k < j ==> (#[trigger] groups@[k]).0@ != label,
            invariant
                j <= groups.len(),
                i < entries.len(),
                label == entries@[i as int].0@,
            ensures
                match found {
                    Some(at) => at < groups.len() && groups@[at as int].0@ == label,
                    None => forall|k: int| 0 <= k < groups.len() ==> (#[trigger] groups@[k]).0@ != label,
                },
            decreases groups.len() - j,
        {
            if groups[j].0 == entries[i].0 {
                found = Some(j);
                break ;
            }
            j = j + 1;
        }
        match found {
            Some(at) => {
                let ghost prior = groups@;
                groups[at].1.push((entries[i].1, Some(protocol)));
                proof {
                    assert(before[at as int].0 == label);
                    assert(has_label(before, label));
                    let after = batch_view(groups@);
                    assert forall|k: int| 0 <= k < after.len() implies after[k] == placed(
                        before,
                        label,
                        entry,
                    )[k] by {
                        if k != at {
                            assert(groups@[k] == prior[k]);
                            if k < at {
                                assert(before[k].0 != before[at as int].0);
                            } else {
                                assert(before[at as int].0 != before[k].0);
                            }
                        }
                    }
                    assert(after =~= placed(before, label, entry));
                    assert forall|a: int, b: int| 0 <= a < b < after.len() implies (
                    #[trigger] after[a]).0 != (#[trigger] after[b]).0 by {
                        assert(after[a].0 == before[a].0);
                        assert(after[b].0 == before[b].0);
                    }
                }
            },
            None => {
                let mut members: Vec<(Endpoint, Option<Protocol>)> = Vec::new();
                members.push((entries[i].1, Some(protocol)));
                groups.push((entries[i].0.clone(), members));
                proof {
                    assert(!has_label(before, label)) by {
                        if has_label(before, label) {
                            let k = choose|k: int|
                                0 <= k < before.len() && (#[trigger] before[k]).0 == label;
                            assert(groups@[k].0@ == label);
                        }
                    }
                    assert(members@ =~= seq![entry]);
                    let after = batch_view(groups@);
                    assert(after =~= placed(before, label, entry));
                    assert forall|a: int, b: int| 0 <= a < b < after.len() implies (
                    #[trigger] after[a]).0 != (#[trigger] after[b]).0 by {
                        if b == before.len() {
                            assert(after[a] == before[a]);
                            assert(groups@[a].0@ != label);
                        } else {
                            assert(before[a].0 != before[b].0);
                        }
                    }
                }
            },
        }
        i = i + 1;
    }
    assert(all.take(i as int) =~= all);
    groups
}

} // verus!
