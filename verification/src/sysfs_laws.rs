//! Which interfaces the walk over `/sys` chooses as uplinks.

use vstd::prelude::*;

use crate::sysfs::{first_holder, first_stand, weighed_all, Found, Stand};
use crate::topology::{bridge_over, lists_in_name_order, LinkModel};
use crate::topology::detect::{carries, label};
use crate::topology::detect_laws::{ends_in, named_apart};
use crate::topology::path_laws::the_first_bridge_over_the_masters;

verus! {

proof fn lemma_holder(links: Map<u32, LinkModel>, fs: Seq<u32>, bridge: u32)
    ensures
        first_holder(links, fs, bridge) is None <==> forall|k: int|
            0 <= k < fs.len() ==> !carries(links, #[trigger] fs[k], bridge),
    decreases fs.len(),
{
    if fs.len() > 0 {
        lemma_holder(links, fs.skip(1), bridge);
        if !carries(links, fs[0], bridge) {
            if forall|k: int|
                0 <= k < fs.skip(1).len() ==> !carries(links, #[trigger] fs.skip(1)[k], bridge) {
                assert forall|k: int| 0 <= k < fs.len() implies !carries(
                    links,
                    #[trigger] fs[k],
                    bridge,
                ) by {
                    if k > 0 {
                        assert(fs[k] == fs.skip(1)[k - 1]);
                    }
                }
            }
            if forall|k: int| 0 <= k < fs.len() ==> !carries(links, #[trigger] fs[k], bridge) {
                assert forall|k: int| 0 <= k < fs.skip(1).len() implies !carries(
                    links,
                    #[trigger] fs.skip(1)[k],
                    bridge,
                ) by {
                    assert(fs.skip(1)[k] == fs[k + 1]);
                }
            }
        }
    }
}

proof fn lemma_stand(taken: Seq<Stand>, pf: u32, bridge: u32)
    ensures
        first_stand(taken, pf, bridge) is None <==> forall|k: int|
            0 <= k < taken.len() ==> !((#[trigger] taken[k]).0 == pf && taken[k].1 == bridge),
    decreases taken.len(),
{
    if taken.len() > 0 {
        lemma_stand(taken.skip(1), pf, bridge);
        let rest = taken.skip(1);
        if !(taken[0].0 == pf && taken[0].1 == bridge) {
            if forall|k: int|
                0 <= k < rest.len() ==> !((#[trigger] rest[k]).0 == pf && rest[k].1 == bridge) {
                assert forall|k: int| 0 <= k < taken.len() implies !((#[trigger] taken[k]).0 == pf
                    && taken[k].1 == bridge) by {
                    if k > 0 {
                        assert(taken[k] == rest[k - 1]);
                    }
                }
            }
            if forall|k: int|
                0 <= k < taken.len() ==> !((#[trigger] taken[k]).0 == pf && taken[k].1 == bridge) {
                assert forall|k: int| 0 <= k < rest.len() implies !((#[trigger] rest[k]).0 == pf
                    && rest[k].1 == bridge) by {
                    assert(rest[k] == taken[k + 1]);
                }
            }
        }
    }
}

/// Whether the interface at this place is chosen when its turn comes.
spec fn chosen_at(links: Map<u32, LinkModel>, order: Seq<u32>, j: int, bridge: u32) -> bool {
    let x = order[j];
    let a = weighed_all(links, order.take(j));
    &&& links[x].numvfs > 0 || links[x].physfn is Some
    &&& bridge_over(links, x) matches Some((b, _)) && b == bridge
    &&& links[x].physfn matches Some(pf) ==> first_holder(links, links[x].pf_netdevs, bridge) is None
        && first_stand(a.taken, pf, bridge) is None
}

/// Whether every pair and every stand comes from an interface that was chosen,
/// and every one that was chosen is there.
spec fn accounted(links: Map<u32, LinkModel>, order: Seq<u32>, d: Found) -> bool {
    &&& forall|n: (Seq<char>, Seq<char>)| #[trigger]
        d.pairs.contains(n) <==> exists|j: int, b: u32|
            0 <= j < order.len() && #[trigger] chosen_at(links, order, j, b) && n == (
                links[order[j]].name,
                label(links, b),
            )
    &&& forall|c: Stand| #[trigger]
        d.taken.contains(c) <==> exists|j: int, b: u32|
            0 <= j < order.len() && #[trigger] chosen_at(links, order, j, b)
                && links[order[j]].physfn == Some(c.0) && c.1 == b && c.2 == links[order[j]].name
}

proof fn lemma_accounted(links: Map<u32, LinkModel>, order: Seq<u32>)
    ensures
        accounted(links, order, weighed_all(links, order)),
    decreases order.len(),
{
    let d = weighed_all(links, order);
    if order.len() > 0 {
        let front = order.drop_last();
        let a = weighed_all(links, front);
        let l = order.len() - 1;
        lemma_accounted(links, front);
        assert(order.take(l) =~= front);
        assert forall|j: int, b: u32| 0 <= j < l implies #[trigger] chosen_at(links, order, j, b)
            == chosen_at(links, front, j, b) by {
            assert(order.take(j) =~= front.take(j));
        }
        assert forall|n: (Seq<char>, Seq<char>)| #[trigger]
            d.pairs.contains(n) <==> exists|j: int, b: u32|
                0 <= j < order.len() && #[trigger] chosen_at(links, order, j, b) && n == (
                    links[order[j]].name,
                    label(links, b),
                ) by {
            if a.pairs.contains(n) {
                let (j, b) = choose|j: int, b: u32|
                    0 <= j < front.len() && #[trigger] chosen_at(links, front, j, b) && n == (
                        links[front[j]].name,
                        label(links, b),
                    );
                assert(chosen_at(links, order, j, b));
                let k = choose|k: int| 0 <= k < a.pairs.len() && a.pairs[k] == n;
                assert(d.pairs[k] == n);
            }
            if d.pairs.contains(n) && !a.pairs.contains(n) {
                let k = choose|k: int| 0 <= k < d.pairs.len() && d.pairs[k] == n;
                if k < a.pairs.len() {
                    assert(a.pairs[k] == n);
                }
                let (b, port) = bridge_over(links, order[l])->0;
                assert(chosen_at(links, order, l, b));
            }
            if exists|j: int, b: u32|
                0 <= j < order.len() && #[trigger] chosen_at(links, order, j, b) && n == (
                    links[order[j]].name,
                    label(links, b),
                ) {
                let (j, b) = choose|j: int, b: u32|
                    0 <= j < order.len() && #[trigger] chosen_at(links, order, j, b) && n == (
                        links[order[j]].name,
                        label(links, b),
                    );
                if j < l {
                    assert(chosen_at(links, front, j, b));
                    assert(front[j] == order[j]);
                } else {
                    assert(d.pairs.last() == n);
                }
            }
        }
        assert forall|c: Stand| #[trigger]
            d.taken.contains(c) <==> exists|j: int, b: u32|
                0 <= j < order.len() && #[trigger] chosen_at(links, order, j, b)
                    && links[order[j]].physfn == Some(c.0) && c.1 == b && c.2
                    == links[order[j]].name by {
            if a.taken.contains(c) {
                let (j, b) = choose|j: int, b: u32|
                    0 <= j < front.len() && #[trigger] chosen_at(links, front, j, b)
                        && links[front[j]].physfn == Some(c.0) && c.1 == b && c.2
                        == links[front[j]].name;
                assert(chosen_at(links, order, j, b));
                let k = choose|k: int| 0 <= k < a.taken.len() && a.taken[k] == c;
                assert(d.taken[k] == c);
            }
            if d.taken.contains(c) && !a.taken.contains(c) {
                let k = choose|k: int| 0 <= k < d.taken.len() && d.taken[k] == c;
                if k < a.taken.len() {
                    assert(a.taken[k] == c);
                }
                let (b, port) = bridge_over(links, order[l])->0;
                assert(chosen_at(links, order, l, b));
            }
            if exists|j: int, b: u32|
                0 <= j < order.len() && #[trigger] chosen_at(links, order, j, b)
                    && links[order[j]].physfn == Some(c.0) && c.1 == b && c.2
                    == links[order[j]].name {
                let (j, b) = choose|j: int, b: u32|
                    0 <= j < order.len() && #[trigger] chosen_at(links, order, j, b)
                        && links[order[j]].physfn == Some(c.0) && c.1 == b && c.2
                        == links[order[j]].name;
                if j < l {
                    assert(chosen_at(links, front, j, b));
                    assert(front[j] == order[j]);
                } else {
                    assert(d.taken.last() == c);
                }
            }
        }
    }
}

/// Which interfaces the walk over `/sys` chooses: a card or a virtual function
/// that ends up in a bridge is the device of a pair with that bridge, unless it
/// is a virtual function and an interface of its own physical function ends up in
/// that very bridge, or a sister that comes first by name was chosen for it.
pub proof fn a_virtual_function_is_declined_for_its_own_bridge_only(
    links: Map<u32, LinkModel>,
    order: Seq<u32>,
    i: int,
    bridge: u32,
)
    requires
        links.dom().finite(),
        named_apart(links),
        lists_in_name_order(order, links, false),
        0 <= i < order.len(),
        ends_in(links, order[i], bridge),
    ensures
        weighed_all(links, order).pairs.contains((links[order[i]].name, links[bridge].name)) <==> {
            &&& links[order[i]].numvfs > 0 || links[order[i]].physfn is Some
            &&& links[order[i]].physfn is Some ==> forall|k: int|
                0 <= k < links[order[i]].pf_netdevs.len() ==> !ends_in(
                    links,
                    #[trigger] links[order[i]].pf_netdevs[k],
                    bridge,
                )
            &&& links[order[i]].physfn is Some ==> forall|j: int|
                #![trigger order[j]]
                0 <= j < i && links[order[j]].physfn == links[order[i]].physfn && ends_in(
                    links,
                    order[j],
                    bridge,
                ) ==> !weighed_all(links, order).pairs.contains(
                    (links[order[j]].name, links[bridge].name),
                )
        },
{
    let x = order[i];
    let d = weighed_all(links, order);
    let head = order.take(i);
    let a = weighed_all(links, head);
    let port = choose|port: u32| #[trigger] bridge_over(links, x) == Some((bridge, port));
    the_first_bridge_over_the_masters(links, x, bridge, port);
    let bname = links[bridge].name;
    lemma_accounted(links, order);
    lemma_accounted(links, head);
    assert(order.contains(x));
    assert forall|j: int, b: u32| 0 <= j < i implies #[trigger] chosen_at(links, order, j, b)
        == chosen_at(links, head, j, b) by {
        assert(order.take(j) =~= head.take(j));
    }
    assert forall|j: int| 0 <= j < order.len() && ends_in(links, #[trigger] order[j], bridge) implies (
    d.pairs.contains((links[order[j]].name, bname)) <==> chosen_at(links, order, j, bridge)) by {
        let n = (links[order[j]].name, bname);
        assert(order.contains(order[j]));
        if d.pairs.contains(n) {
            let (h, b) = choose|h: int, b: u32|
                0 <= h < order.len() && #[trigger] chosen_at(links, order, h, b) && n == (
                    links[order[h]].name,
                    label(links, b),
                );
            assert(order.contains(order[h]));
            assert(order[h] == order[j]);
            assert(h == j);
        }
    }
    if let Some(pf) = links[x].physfn {
        let fs = links[x].pf_netdevs;
        lemma_holder(links, fs, bridge);
        lemma_stand(a.taken, pf, bridge);
        assert forall|k: int| 0 <= k < fs.len() implies carries(links, #[trigger] fs[k], bridge)
            == ends_in(links, fs[k], bridge) by {
            if carries(links, fs[k], bridge) {
                let (b, q) = bridge_over(links, fs[k])->0;
                assert(bridge_over(links, fs[k]) == Some((bridge, q)));
            }
        }
        let alone = forall|j: int|
            #![trigger order[j]]
            0 <= j < i && links[order[j]].physfn == links[x].physfn && ends_in(
                links,
                order[j],
                bridge,
            ) ==> !d.pairs.contains((links[order[j]].name, bname));
        if alone {
            assert forall|k: int| 0 <= k < a.taken.len() implies !((#[trigger] a.taken[k]).0 == pf
                && a.taken[k].1 == bridge) by {
                let c = a.taken[k];
                assert(a.taken.contains(c));
                let (j, b) = choose|j: int, b: u32|
                    0 <= j < head.len() && #[trigger] chosen_at(links, head, j, b)
                        && links[head[j]].physfn == Some(c.0) && c.1 == b && c.2
                        == links[head[j]].name;
                assert(head[j] == order[j]);
                assert(chosen_at(links, order, j, b));
                if c.0 == pf && c.1 == bridge {
                    let (b2, q) = bridge_over(links, order[j])->0;
                    assert(bridge_over(links, order[j]) == Some((bridge, q)));
                    assert(ends_in(links, order[j], bridge));
                }
            }
        }
        if first_stand(a.taken, pf, bridge) is None {
            assert forall|j: int|
                #![trigger order[j]]
                0 <= j < i && links[order[j]].physfn == links[x].physfn && ends_in(
                    links,
                    order[j],
                    bridge,
                ) implies !d.pairs.contains((links[order[j]].name, bname)) by {
                if chosen_at(links, order, j, bridge) {
                    let c: Stand = (pf, bridge, links[order[j]].name);
                    assert(head[j] == order[j]);
                    assert(chosen_at(links, head, j, bridge));
                    assert(a.taken.contains(c));
                    let k = choose|k: int| 0 <= k < a.taken.len() && a.taken[k] == c;
                    assert(a.taken[k].0 == pf && a.taken[k].1 == bridge);
                }
            }
        }
    }
}

} // verus!
