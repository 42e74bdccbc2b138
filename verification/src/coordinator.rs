//! The sweep as a whole: workers walk their strides, what they find is
//! gathered, and the report lists it in order.

use vstd::prelude::*;
use crate::partition::{assigned_ports, lemma_assigned_iff_owner, owner, strictly_ascending};
use crate::report::{is_report_of, lemma_ascending_unique, OpenPortSet};
use crate::worker::{found_on, kept_by, scan};

verus! {

/// `received` holds what `count` workers pass on when they sweep a target
/// whose open ports are `open`: a port occurs in it exactly if it is open and
/// falls to one of the workers. Nothing is said of the order of arrival, nor
/// of how often a port arrives.
pub open spec fn sweep_delivers(open: Set<u16>, count: int, received: Seq<u16>) -> bool {
    forall|port: u16|
        received.contains(port) <==> open.contains(port) && exists|index: int|
            0 <= index < count && #[trigger] assigned_ports(index, count).contains(port)
}

/// The report of a sweep lists exactly the open ports of the target: with at
/// least one worker, whatever their number and in whatever order their
/// findings arrive, a port stands in the report exactly if it is an open
/// port of the range.
pub proof fn lemma_report_lists_open_ports(
    open: Set<u16>,
    count: int,
    received: Seq<u16>,
    report: Seq<u16>,
)
    requires
        1 <= count,
        sweep_delivers(open, count, received),
        is_report_of(report, received),
    ensures
        forall|port: u16| report.contains(port) <==> 1 <= port && open.contains(port),
{
    assert forall|port: u16| report.contains(port) <==> 1 <= port && open.contains(port) by {
        if 1 <= port {
            let index = owner(port as int, count);
            vstd::arithmetic::div_mod::lemma_mod_bound(port - 1, count);
            lemma_assigned_iff_owner(index, count, port);
            assert(assigned_ports(index, count).contains(port));
        }
        if received.contains(port) {
            let index = choose|index: int|
                0 <= index < count && #[trigger] assigned_ports(index, count).contains(port);
            lemma_assigned_iff_owner(index, count, port);
        }
    }
}

/// Two sweeps of one target yield the same report, in membership and in
/// order, however many workers each of them used and however their findings
/// interleaved.
pub proof fn lemma_report_independent_of_workers(
    open: Set<u16>,
    count_a: int,
    received_a: Seq<u16>,
    report_a: Seq<u16>,
    count_b: int,
    received_b: Seq<u16>,
    report_b: Seq<u16>,
)
    requires
        1 <= count_a,
        1 <= count_b,
        sweep_delivers(open, count_a, received_a),
        sweep_delivers(open, count_b, received_b),
        is_report_of(report_a, received_a),
        is_report_of(report_b, received_b),
    ensures
        report_a == report_b,
{
    lemma_report_lists_open_ports(open, count_a, received_a, report_a);
    lemma_report_lists_open_ports(open, count_b, received_b, report_b);
    lemma_ascending_unique(report_a, report_b);
}

/// The workers' findings add up to what a sweep delivers: where each of the
/// `count` workers found the open ports among its own, and `received` holds
/// what the workers found and nothing else, the sweep has delivered the open
/// ports of the target.
pub proof fn lemma_findings_deliver(
    open: Set<u16>,
    count: int,
    found: Seq<Seq<u16>>,
    received: Seq<u16>,
)
    requires
        found.len() == count,
        forall|index: int|
            0 <= index < count ==> found_on(
                open,
                assigned_ports(index, count),
                #[trigger] found[index],
            ),
        forall|port: u16|
            received.contains(port) <==> exists|index: int|
                0 <= index < count && #[trigger] found[index].contains(port),
    ensures
        sweep_delivers(open, count, received),
{
    assert forall|port: u16|
        received.contains(port) <==> open.contains(port) && exists|index: int|
            0 <= index < count && #[trigger] assigned_ports(index, count).contains(
                port,
            ) by {
        if received.contains(port) {
            let index = choose|index: int|
                0 <= index < count && #[trigger] found[index].contains(port);
            assert(found_on(open, assigned_ports(index, count), found[index]));
            assert(assigned_ports(index, count).contains(port));
        }
        if open.contains(port) && exists|index: int|
            0 <= index < count && #[trigger] assigned_ports(index, count).contains(port) {
            let index = choose|index: int|
                0 <= index < count && #[trigger] assigned_ports(index, count).contains(port);
            assert(found_on(open, assigned_ports(index, count), found[index]));
            assert(found[index].contains(port));
        }
    }
}

/// Sequences that hold nothing twice and share nothing with each other, put
/// end to end, hold nothing twice, and hold what any of them holds.
pub proof fn lemma_flatten_distinct(parts: Seq<Seq<u16>>)
    requires
        forall|i: int| 0 <= i < parts.len() ==> (#[trigger] parts[i]).no_duplicates(),
        forall|i: int, j: int, port: u16|
            0 <= i < j < parts.len() && #[trigger] parts[i].contains(port)
                ==> !#[trigger] parts[j].contains(port),
    ensures
        parts.flatten().no_duplicates(),
        forall|port: u16|
            parts.flatten().contains(port) <==> exists|i: int|
                0 <= i < parts.len() && #[trigger] parts[i].contains(port),
    decreases parts.len(),
{
    if parts.len() > 0 {
        let head = parts.first();
        let tail = parts.drop_first();
        assert forall|i: int| 0 <= i < tail.len() implies (#[trigger] tail[i]).no_duplicates() by {
            assert(tail[i] == parts[i + 1]);
        }
        assert forall|i: int, j: int, port: u16|
            0 <= i < j < tail.len() && #[trigger] tail[i].contains(port)
            implies !#[trigger] tail[j].contains(port) by {
            assert(tail[i] == parts[i + 1]);
            assert(tail[j] == parts[j + 1]);
        }
        lemma_flatten_distinct(tail);
        let rest = tail.flatten();
        assert(parts.flatten() == head + rest);
        assert forall|a: int, b: int| 0 <= a < head.len() && 0 <= b < rest.len() implies head[a]
            != rest[b] by {
            assert(rest.contains(rest[b]));
            let i = choose|i: int| 0 <= i < tail.len() && #[trigger] tail[i].contains(rest[b]);
            assert(tail[i] == parts[i + 1]);
            assert(parts[0].contains(head[a]));
        }
        vstd::seq_lib::lemma_no_dup_in_concat(head, rest);
        assert forall|port: u16|
            parts.flatten().contains(port) <==> exists|i: int|
                0 <= i < parts.len() && #[trigger] parts[i].contains(port) by {
            if parts.flatten().contains(port) {
                let k = choose|k: int| 0 <= k < (head + rest).len() && (head + rest)[k] == port;
                if k < head.len() {
                    assert(head[k] == port);
                    assert(parts[0].contains(port));
                } else {
                    assert(rest[k - head.len()] == port);
                    assert(rest.contains(port));
                    let i = choose|i: int|
                        0 <= i < tail.len() && #[trigger] tail[i].contains(port);
                    assert(tail[i] == parts[i + 1]);
                    assert(parts[i + 1].contains(port));
                }
            }
            if exists|i: int| 0 <= i < parts.len() && #[trigger] parts[i].contains(port) {
                let i = choose|i: int| 0 <= i < parts.len() && #[trigger] parts[i].contains(port);
                if i == 0 {
                    let k = choose|k: int| 0 <= k < head.len() && head[k] == port;
                    assert((head + rest)[k] == port);
                } else {
                    assert(tail[i - 1] == parts[i]);
                    assert(tail[i - 1].contains(port));
                    assert(rest.contains(port));
                    let k = choose|k: int| 0 <= k < rest.len() && rest[k] == port;
                    assert((head + rest)[head.len() + k] == port);
                }
            }
        }
    }
}

/// No port arrives twice: where each of the `count` workers passes on ports
/// of its own stride, each at most once, and the channel hands over what the
/// workers passed on, neither more nor less, in whatever order, the ports
/// that arrive are all different.
pub proof fn lemma_nothing_arrives_twice(count: int, found: Seq<Seq<u16>>, received: Seq<u16>)
    requires
        1 <= count,
        found.len() == count,
        forall|index: int| 0 <= index < count ==> (#[trigger] found[index]).no_duplicates(),
        forall|index: int, port: u16|
            0 <= index < count && #[trigger] found[index].contains(port) ==> assigned_ports(
                index,
                count,
            ).contains(port),
        received.to_multiset() == found.flatten().to_multiset(),
    ensures
        received.no_duplicates(),
        forall|port: u16|
            received.contains(port) <==> exists|index: int|
                0 <= index < count && #[trigger] found[index].contains(port),
{
    assert forall|i: int, j: int, port: u16|
        0 <= i < j < found.len() && #[trigger] found[i].contains(port)
        implies !#[trigger] found[j].contains(port) by {
        lemma_assigned_iff_owner(i, count, port);
        lemma_assigned_iff_owner(j, count, port);
    }
    lemma_flatten_distinct(found);
    let all = found.flatten();
    all.lemma_multiset_has_no_duplicates();
    received.lemma_multiset_has_no_duplicates_conv();
    assert forall|port: u16|
        received.contains(port) <==> exists|index: int|
            0 <= index < count && #[trigger] found[index].contains(port) by {
        vstd::seq_lib::to_multiset_contains(received, port);
        vstd::seq_lib::to_multiset_contains(all, port);
    }
}

/// Sweeps the whole range with `num_threads` workers, one after the other,
/// and reports what they found.
///
/// With at least one worker, every port of the range is probed once, and the
/// report lists exactly the ports for which `probe` answered `true`. With no
/// workers nothing is probed and the report is empty.
pub fn sweep<P: Fn(u16) -> bool>(probe: P, num_threads: u16) -> (report: OpenPortSet)
    requires
        forall|port: u16| 1 <= port ==> call_requires(probe, (port,)),
    ensures
        strictly_ascending(report@),
        forall|port: u16| #[trigger]
            report@.contains(port) ==> 1 <= port && call_ensures(probe, (port,), true),
        num_threads >= 1 ==> forall|port: u16|
            1 <= port && !(#[trigger] report@.contains(port)) ==> call_ensures(
                probe,
                (port,),
                false,
            ),
        num_threads == 0 ==> report@.len() == 0,
{
    let mut received: Vec<u16> = Vec::new();
    let mut index: u16 = 0;
    while index < num_threads
        invariant
            index <= num_threads,
            index == 0 ==> received@.len() == 0,
            forall|port: u16| 1 <= port ==> call_requires(probe, (port,)),
            forall|port: u16| #[trigger]
                received@.contains(port) ==> 1 <= port && call_ensures(probe, (port,), true),
            forall|port: u16|
                1 <= port && 0 <= owner(port as int, num_threads as int) < index && !(
                #[trigger] received@.contains(port)) ==> call_ensures(probe, (port,), false),
        decreases num_threads - index,
    {
        proof {
            assert forall|port: u16|
                assigned_ports(index as int, num_threads as int).contains(
                    port,
                ) implies call_requires(probe, (port,)) by {
                lemma_assigned_iff_owner(index as int, num_threads as int, port);
            }
        }
        let mut found = scan(&probe, index, num_threads);
        let ghost before = received@;
        let ghost kept = found@;
        received.append(&mut found);
        proof {
            assert(received@ == before + kept);
            assert forall|port: u16| #[trigger] received@.contains(port) implies 1 <= port
                && call_ensures(probe, (port,), true) by {
                let k = choose|k: int| 0 <= k < received@.len() && received@[k] == port;
                if k < before.len() {
                    assert(before[k] == port);
                    assert(before.contains(port));
                } else {
                    assert(kept[k - before.len()] == port);
                    assert(kept.contains(port));
                    lemma_assigned_iff_owner(index as int, num_threads as int, port);
                }
            }
            assert forall|port: u16|
                1 <= port && 0 <= owner(port as int, num_threads as int) < index + 1 && !(
                #[trigger] received@.contains(port)) implies call_ensures(
                probe,
                (port,),
                false,
            ) by {
                if before.contains(port) {
                    let k = choose|k: int| 0 <= k < before.len() && before[k] == port;
                    assert(received@[k] == port);
                }
                if kept.contains(port) {
                    let k = choose|k: int| 0 <= k < kept.len() && kept[k] == port;
                    assert(received@[before.len() + k] == port);
                }
                if owner(port as int, num_threads as int) == index {
                    lemma_assigned_iff_owner(index as int, num_threads as int, port);
                }
            }
        }
        index += 1;
    }
    let report = OpenPortSet::collect(&received);
    proof {
        if num_threads >= 1 {
            assert forall|port: u16| 1 <= port implies 0 <= #[trigger] owner(
                port as int,
                num_threads as int,
            ) < num_threads by {
                vstd::arithmetic::div_mod::lemma_mod_bound(port - 1, num_threads as int);
            }
        } else {
            if report@.len() > 0 {
                assert(report@.contains(report@[0]));
            }
        }
    }
    report
}

} // verus!
