//! The report of a sweep: the open ports, each once, from lowest to highest.

use vstd::prelude::*;
use crate::partition::strictly_ascending;

verus! {

/// `report` lists the values that occur in `received`, each once, in
/// ascending order.
pub open spec fn is_report_of(report: Seq<u16>, received: Seq<u16>) -> bool {
    &&& strictly_ascending(report)
    &&& forall|port: u16| report.contains(port) <==> received.contains(port)
}

/// An ascending sequence is determined by the values that occur in it.
pub proof fn lemma_ascending_unique(a: Seq<u16>, b: Seq<u16>)
    requires
        strictly_ascending(a),
        strictly_ascending(b),
        forall|port: u16| a.contains(port) <==> b.contains(port),
    ensures
        a == b,
    decreases a.len(),
{
    if a.len() == 0 {
        if b.len() > 0 {
            assert(b.contains(b[0]));
        }
    } else if b.len() == 0 {
        assert(a.contains(a[0]));
    } else {
        // The last element of each is its greatest, so the two agree on it.
        let x = a.last();
        let y = b.last();
        assert(a.contains(x));
        assert(b.contains(y));
        let i = choose|i: int| 0 <= i < b.len() && b[i] == x;
        let j = choose|j: int| 0 <= j < a.len() && a[j] == y;
        assert(x == y);
        let a0 = a.drop_last();
        let b0 = b.drop_last();
        assert forall|port: u16| a0.contains(port) <==> b0.contains(port) by {
            if a0.contains(port) {
                let k = choose|k: int| 0 <= k < a0.len() && a0[k] == port;
                assert(a[k] == port);
                assert(a.contains(port));
                let m = choose|m: int| 0 <= m < b.len() && b[m] == port;
                assert(b0[m] == port);
            }
            if b0.contains(port) {
                let k = choose|k: int| 0 <= k < b0.len() && b0[k] == port;
                assert(b[k] == port);
                assert(b.contains(port));
                let m = choose|m: int| 0 <= m < a.len() && a[m] == port;
                assert(a0[m] == port);
            }
        }
        lemma_ascending_unique(a0, b0);
        assert(a == a0.push(x));
        assert(b == b0.push(y));
    }
}

/// Two sequences without duplicates that hold the same values are
/// rearrangements of each other.
pub proof fn lemma_same_members_same_multiset(a: Seq<u16>, b: Seq<u16>)
    requires
        a.no_duplicates(),
        b.no_duplicates(),
        forall|port: u16| a.contains(port) <==> b.contains(port),
    ensures
        a.to_multiset() == b.to_multiset(),
{
    a.lemma_multiset_has_no_duplicates();
    b.lemma_multiset_has_no_duplicates();
    assert forall|port: u16| a.to_multiset().count(port) == b.to_multiset().count(port) by {
        vstd::seq_lib::to_multiset_contains(a, port);
        vstd::seq_lib::to_multiset_contains(b, port);
    }
    assert(a.to_multiset() =~= b.to_multiset());
}

/// The open ports that a sweep found, each once, from lowest to highest.
pub struct OpenPortSet {
    ports: Vec<u16>,
}

impl View for OpenPortSet {
    type V = Seq<u16>;

    closed spec fn view(&self) -> Seq<u16> {
        self.ports@
    }
}

impl OpenPortSet {
    #[verifier::type_invariant]
    spec fn ordered(self) -> bool {
        strictly_ascending(self.ports@)
    }

    /// Gathers the ports that arrived from the workers, in whatever order and
    /// however often, into the report: every value that arrived, once, in
    /// ascending order. Where nothing arrived twice, the report is what
    /// arrived, sorted.
    pub fn collect(received: &Vec<u16>) -> (set: OpenPortSet)
        ensures
            is_report_of(set@, received@),
            received@.no_duplicates() ==> set@.to_multiset() == received@.to_multiset(),
    {
        let mut seen: Vec<bool> = Vec::new();
        let mut v: u32 = 0;
        while v < 65536
            invariant
                v <= 65536,
                seen@.len() == v,
                forall|k: int| 0 <= k < v ==> !seen@[k],
            decreases 65536 - v,
        {
            seen.push(false);
            v += 1;
        }
        let mut i: usize = 0;
        while i < received.len()
            invariant
                i <= received@.len(),
                seen@.len() == 65536,
                forall|p: u16| #[trigger]
                    seen@[p as int] <==> exists|j: int| 0 <= j < i && received@[j] == p,
            decreases received@.len() - i,
        {
            let ghost before = seen@;
            let port = received[i];
            seen.set(port as usize, true);
            i += 1;
            proof {
                assert forall|p: u16| #[trigger]
                    seen@[p as int] <==> exists|j: int| 0 <= j < i && received@[j] == p by {
                    if p == port {
                        assert(received@[i - 1] == p);
                    } else {
                        assert(seen@[p as int] == before[p as int]);
                        if before[p as int] {
                            let j = choose|j: int| 0 <= j < i - 1 && received@[j] == p;
                            assert(0 <= j < i && received@[j] == p);
                        }
                    }
                }
            }
        }
        let mut ports: Vec<u16> = Vec::new();
        let mut v: u32 = 0;
        while v < 65536
            invariant
                v <= 65536,
                seen@.len() == 65536,
                strictly_ascending(ports@),
                forall|k: int| 0 <= k < ports@.len() ==> #[trigger] ports@[k] < v,
                forall|p: u16| ports@.contains(p) <==> p < v && seen@[p as int],
            decreases 65536 - v,
        {
            let ghost before = ports@;
            if seen[v as usize] {
                ports.push(v as u16);
            }
            proof {
                assert forall|p: u16| ports@.contains(p) <==> p < v + 1 && seen@[p as int] by {
                    if ports@.contains(p) {
                        let k = choose|k: int| 0 <= k < ports@.len() && ports@[k] == p;
                        if k < before.len() {
                            assert(before[k] == p);
                            assert(before.contains(p));
                        }
                    }
                    if p < v && seen@[p as int] {
                        assert(before.contains(p));
                        let k = choose|k: int| 0 <= k < before.len() && before[k] == p;
                        assert(ports@[k] == p);
                    }
                    if p == v && seen@[p as int] {
                        assert(ports@[before.len() as int] == p);
                    }
                }
            }
            v += 1;
        }
        proof {
            assert forall|port: u16| ports@.contains(port) <==> received@.contains(port) by {
                if received@.contains(port) {
                    let j = choose|j: int| 0 <= j < received@.len() && received@[j] == port;
                    assert(0 <= j < i && received@[j] == port);
                }
            }
            if received@.no_duplicates() {
                lemma_same_members_same_multiset(ports@, received@);
            }
        }
        OpenPortSet { ports }
    }

    /// The ports of the report, from lowest to highest.
    pub fn ports(&self) -> (ports: &Vec<u16>)
        ensures
            ports@ == self@,
            strictly_ascending(ports@),
            ports@.no_duplicates(),
    {
        proof {
            use_type_invariant(self);
        }
        &self.ports
    }

    /// How many ports the report lists.
    pub fn len(&self) -> (n: usize)
        ensures
            n == self@.len(),
    {
        self.ports.len()
    }
}

} // verus!
