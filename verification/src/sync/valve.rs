//! Which of the kept addresses are surrendered first.

use vstd::prelude::*;

use crate::keyed::{lemma_mac_models, KeySet};
use crate::mac::Mac;
use crate::order::{sorted, stamp_le, Ordered, Stamped};
use crate::sync::memory::{Ports, PortsModel};

verus! {

/// When an address was last heard of; at boot, when nothing is remembered.
pub open spec fn stamp_of(ports: PortsModel, m: Mac) -> u64 {
    if ports.contains_key(m) {
        ports[m].1
    } else {
        0
    }
}

/// Whether one address has been silent for longer than another: the smaller
/// stamp, and of two with the same stamp the smaller address.
pub open spec fn more_silent(ports: PortsModel, a: Mac, b: Mac) -> bool {
    stamp_le((stamp_of(ports, a), a), (stamp_of(ports, b), b))
}

/// Whether `shed` is up to `n` of these addresses, the longest-silent first.
pub open spec fn released(cands: Set<Mac>, ports: PortsModel, n: nat, shed: Seq<Mac>) -> bool {
    &&& shed.no_duplicates()
    &&& shed.to_set().subset_of(cands)
    &&& shed.len() == if n < cands.len() {
        n
    } else {
        cands.len()
    }
    &&& forall|i: int, j: int|
        #![trigger shed[i], shed[j]]
        0 <= i < j < shed.len() ==> more_silent(ports, shed[i], shed[j])
    &&& forall|a: Mac, b: Mac|
        #![trigger shed.contains(a), cands.contains(b)]
        shed.contains(a) && cands.contains(b) && !shed.contains(b) ==> more_silent(ports, a, b)
}

/// Up to `n` of these addresses, the longest-silent first.
pub fn longest_silent(cands: &KeySet<Mac>, ports: &Ports, n: u128) -> (r: Vec<Mac>)
    ensures
        released(cands@, ports@, n as nat, r@),
        cands@.finite(),
{
    let list = cands.list();
    let total = cands.len();
    proof {
        lemma_mac_models(list@);
        list@.unique_seq_to_set();
    }
    let mut stamped: Vec<Stamped> = Vec::new();
    let mut i: usize = 0;
    while i < list.len()
        invariant
            i <= list@.len(),
            stamped@.len() == i,
            forall|j: int|
                0 <= j < i ==> #[trigger] stamped@[j] == (stamp_of(ports@, list@[j]), list@[j]),
        decreases list@.len() - i,
    {
        let m = list[i];
        let at: u64 = match ports.get(&m) {
            Some(slot) => slot.1,
            None => 0,
        };
        stamped.push((at, m));
        i += 1;
    }
    let ghost unsorted = stamped@;
    assert(unsorted.no_duplicates()) by {
        assert forall|a: int, b: int|
            0 <= a < unsorted.len() && 0 <= b < unsorted.len() && a != b implies unsorted[a]
            != unsorted[b] by {
            assert(list@[a] != list@[b]);
        }
    }
    let order = sorted(stamped);
    proof {
        assert forall|k: int| 0 <= k < order@.len() implies (#[trigger] order@[k]).0 == stamp_of(
            ports@,
            order@[k].1,
        ) && cands@.contains(order@[k].1) by {
            assert(order@.contains(order@[k]));
            assert(unsorted.contains(order@[k]));
            let j = choose|j: int| 0 <= j < unsorted.len() && unsorted[j] == order@[k];
            assert(list@.to_set().contains(list@[j]));
        }
        assert(order@.no_duplicates());
        assert forall|a: int, b: int|
            0 <= a < order@.len() && 0 <= b < order@.len() && a != b implies order@[a].1
            != order@[b].1 by {
            if order@[a].1 == order@[b].1 {
                assert(order@[a] == order@[b]);
            }
        }
    }
    let mut out: Vec<Mac> = Vec::new();
    let mut k: usize = 0;
    while k < order.len() && (k as u128) < n
        invariant
            k <= order@.len(),
            k <= n,
            out@.len() == k,
            forall|j: int| 0 <= j < k ==> #[trigger] out@[j] == order@[j].1,
        decreases order@.len() - k,
    {
        out.push(order[k].1);
        k += 1;
    }
    proof {
        let shed = out@;
        assert(shed.no_duplicates());
        assert forall|m: Mac| shed.to_set().contains(m) implies cands@.contains(m) by {
            let j = choose|j: int| 0 <= j < shed.len() && shed[j] == m;
            assert(cands@.contains(order@[j].1));
        }
        assert forall|x: int, y: int|
            #![trigger shed[x], shed[y]]
            0 <= x < y < shed.len() implies more_silent(ports@, shed[x], shed[y]) by {
            assert(order@[x].leq(&order@[y]));
        }
        assert forall|a: Mac, b: Mac|
            #![trigger shed.contains(a), cands@.contains(b)]
            shed.contains(a) && cands@.contains(b) && !shed.contains(b) implies more_silent(
            ports@,
            a,
            b,
        ) by {
            let x = choose|x: int| 0 <= x < shed.len() && shed[x] == a;
            assert(list@.to_set().contains(b));
            let j = choose|j: int| 0 <= j < list@.len() && list@[j] == b;
            assert(unsorted.contains(unsorted[j]));
            assert(order@.contains(unsorted[j]));
            let y = choose|y: int| 0 <= y < order@.len() && order@[y] == unsorted[j];
            if y < k {
                assert(shed[y] == b);
            }
            assert(order@[x].leq(&order@[y]));
        }
    }
    out
}

} // verus!
