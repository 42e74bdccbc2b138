//! One worker of the sweep: it walks its stride and keeps what answered.

use vstd::prelude::*;
use crate::partition::{
    assigned_ports, first_port, lemma_stride_ascending, lemma_stride_members, next_port,
    stride_from, strictly_ascending, MAX_PORTS,
};

verus! {

/// The time that one probe may take, in milliseconds.
pub const PROBE_TIMEOUT_MILLIS: u64 = 1000;

/// `found` is what a walk over `ports` with `probe` keeps: in ascending
/// order, the ports for which the probe answered `true`; for every other
/// port of the walk it answered `false`.
pub open spec fn kept_by<P: Fn(u16) -> bool>(probe: P, ports: Seq<u16>, found: Seq<u16>) -> bool {
    &&& strictly_ascending(found)
    &&& forall|port: u16| #[trigger]
        found.contains(port) ==> ports.contains(port) && call_ensures(probe, (port,), true)
    &&& forall|port: u16|
        #[trigger] ports.contains(port) && !found.contains(port) ==> call_ensures(
            probe,
            (port,),
            false,
        )
}

/// What a worker finds on a target whose open ports are `open`: exactly the
/// open ports among its own.
pub open spec fn found_on(open: Set<u16>, ports: Seq<u16>, found: Seq<u16>) -> bool {
    forall|port: u16| found.contains(port) <==> ports.contains(port) && open.contains(port)
}

/// Where the probe answers `true` exactly for the ports in `open`, a walk
/// keeps exactly the open ports among those it visits.
pub proof fn lemma_walk_of_steady_target<P: Fn(u16) -> bool>(
    probe: P,
    open: Set<u16>,
    ports: Seq<u16>,
    found: Seq<u16>,
)
    requires
        forall|port: u16, answer: bool| #[trigger]
            call_ensures(probe, (port,), answer) ==> answer == open.contains(port),
        kept_by(probe, ports, found),
    ensures
        found_on(open, ports, found),
{
}

/// Runs worker `thread_index` of `num_threads`: calls `probe` once on each of
/// the worker's ports, in ascending order, and returns the ports for which it
/// answered `true`, in that order.
///
/// `probe` is whatever tells an open port from a closed one; it may have
/// effects of its own, such as passing a finding on at once. With no workers
/// at all nothing is probed.
pub fn scan<P: Fn(u16) -> bool>(probe: P, thread_index: u16, num_threads: u16) -> (found: Vec<u16>)
    requires
        forall|port: u16|
            assigned_ports(thread_index as int, num_threads as int).contains(port)
                ==> call_requires(probe, (port,)),
    ensures
        kept_by(probe, assigned_ports(thread_index as int, num_threads as int), found@),
{
    let mut found: Vec<u16> = Vec::new();
    if num_threads == 0 {
        return found;
    }
    let ghost all = assigned_ports(thread_index as int, num_threads as int);
    let mut cursor = first_port(thread_index);
    proof {
        lemma_stride_ascending(thread_index + 1, num_threads as int);
        vstd::arithmetic::div_mod::lemma_small_mod(0, num_threads as nat);
    }
    while cursor.is_some()
        invariant
            num_threads > 0,
            all == assigned_ports(thread_index as int, num_threads as int),
            all == stride_from(thread_index + 1, num_threads as int),
            forall|port: u16| all.contains(port) ==> call_requires(probe, (port,)),
            cursor matches Some(p) ==> p > thread_index && (p - (thread_index + 1)) % (
            num_threads as int) == 0,
            strictly_ascending(found@),
            forall|i: int|
                0 <= i < found@.len() ==> (cursor matches Some(p) ==> #[trigger] found@[i] < p),
            forall|port: u16| #[trigger]
                found@.contains(port) ==> all.contains(port) && call_ensures(probe, (port,), true),
            forall|port: u16|
                #[trigger] all.contains(port) && !found@.contains(port) && (cursor matches Some(p)
                    ==> port < p) ==> call_ensures(probe, (port,), false),
        decreases
            match cursor {
                Some(p) => MAX_PORTS - p + 1,
                None => 0,
            },
    {
        let port = cursor.unwrap();
        proof {
            lemma_stride_members(thread_index + 1, num_threads as int, port);
        }
        let ghost before = found@;
        let open = probe(port);
        if open {
            found.push(port);
        }
        cursor = next_port(port, num_threads);
        proof {
            assert forall|q: u16| #[trigger] found@.contains(q) implies all.contains(q)
                && call_ensures(probe, (q,), true) by {
                if !before.contains(q) {
                    let k = choose|k: int| 0 <= k < found@.len() && found@[k] == q;
                    if k < before.len() {
                        assert(before[k] == q);
                    }
                }
            }
            if open {
                assert(found@[before.len() as int] == port);
            }
            assert forall|q: u16|
                #[trigger] all.contains(q) && !found@.contains(q) && (cursor matches Some(p) ==> q
                    < p) implies call_ensures(probe, (q,), false) by {
                lemma_stride_members(thread_index + 1, num_threads as int, q);
                if q < port {
                    if before.contains(q) {
                        let k = choose|k: int| 0 <= k < before.len() && before[k] == q;
                        assert(found@[k] == q);
                    }
                } else if q > port {
                    // q lies at least one stride above port
                    let d = q - port;
                    vstd::arithmetic::div_mod::lemma_sub_mod_noop(
                        q - (thread_index + 1),
                        port - (thread_index + 1),
                        num_threads as int,
                    );
                    vstd::arithmetic::div_mod::lemma_small_mod(0, num_threads as nat);
                    assert(d % (num_threads as int) == 0);
                    if d < num_threads {
                        vstd::arithmetic::div_mod::lemma_small_mod(d as nat, num_threads as nat);
                    }
                }
            }
            if let Some(p) = cursor {
                vstd::arithmetic::div_mod::lemma_mod_add_multiples_vanish(
                    port - (thread_index + 1),
                    num_threads as int,
                );
            }
        }
    }
    found
}

} // verus!
