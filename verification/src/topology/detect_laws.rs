//! Which interfaces are chosen as uplinks, and for what reasons one is declined.

use vstd::prelude::*;

use crate::order::name_le;
use crate::topology::{
    bridge_over, carrier, functions_of, lists_in_name_order, may_be_uplink, LinkModel,
};
use crate::topology::detect::{
    clashes, detected, first_clash, first_rival, functions_behind, label, looked_at, rival,
    says_held, says_idle, says_taken, says_through, Claim, Detected,
};
use crate::topology::path_laws::the_first_bridge_over_the_masters;

verus! {

/// Whether no two interfaces have the same name.
pub open spec fn named_apart(links: Map<u32, LinkModel>) -> bool {
    forall|x: u32, y: u32|
        #![trigger links[x], links[y]]
        links.contains_key(x) && links.contains_key(y) && x != y ==> links[x].name != links[y].name
}

/// Whether an interface ends up in this bridge.
pub open spec fn ends_in(links: Map<u32, LinkModel>, x: u32, bridge: u32) -> bool {
    exists|port: u32| #[trigger] bridge_over(links, x) == Some((bridge, port))
}

/// Whether two interfaces have a physical function in common.
pub open spec fn share_a_function(links: Map<u32, LinkModel>, x: u32, y: u32) -> bool {
    exists|f: u32| #[trigger]
        functions_of(links, carrier(links, x)).contains(f) && functions_of(
            links,
            carrier(links, y),
        ).contains(f)
}

/// Every set of indices is finite.
pub proof fn lemma_index_set_finite(s: Set<u32>)
    ensures
        s.finite(),
{
    let all = vstd::set_lib::set_int_range(0, 0x1_0000_0000);
    vstd::set_lib::lemma_int_range(0, 0x1_0000_0000);
    let f = |i: int| i as u32;
    all.lemma_map_finite(f);
    assert forall|x: u32| s.contains(x) implies all.map(f).contains(x) by {
        assert(all.contains(x as int) && f(x as int) == x);
    }
    vstd::set_lib::lemma_set_subset_finite(all.map(f), s);
}

proof fn lemma_lowest_rival(links: Map<u32, LinkModel>, x: u32, bridge: u32, f: u32)
    requires
        rival(links, x, bridge, f),
    ensures
        exists|g: u32| first_rival(links, x, bridge, g),
    decreases f,
{
    if !first_rival(links, x, bridge, f) {
        let g = choose|g: u32| #[trigger] rival(links, x, bridge, g) && g < f;
        lemma_lowest_rival(links, x, bridge, g);
    }
}

proof fn lemma_clash_found(taken: Seq<Claim>, functions: Set<u32>, bridge: u32) -> (k: int)
    requires
        first_clash(taken, functions, bridge) is Some,
    ensures
        0 <= k < taken.len(),
        first_clash(taken, functions, bridge) == Some(taken[k]),
        clashes(taken[k], functions, bridge),
        forall|i: int| 0 <= i < k ==> !clashes(#[trigger] taken[i], functions, bridge),
    decreases taken.len(),
{
    if clashes(taken[0], functions, bridge) {
        0
    } else {
        let k = lemma_clash_found(taken.skip(1), functions, bridge);
        assert forall|i: int| 0 <= i < k + 1 implies !clashes(
            #[trigger] taken[i],
            functions,
            bridge,
        ) by {
            if i > 0 {
                assert(taken[i] == taken.skip(1)[i - 1]);
            }
        }
        k + 1
    }
}

proof fn lemma_clash_none(taken: Seq<Claim>, functions: Set<u32>, bridge: u32)
    requires
        first_clash(taken, functions, bridge) is None,
    ensures
        forall|i: int| 0 <= i < taken.len() ==> !clashes(#[trigger] taken[i], functions, bridge),
    decreases taken.len(),
{
    if taken.len() > 0 {
        lemma_clash_none(taken.skip(1), functions, bridge);
        assert forall|i: int| 0 <= i < taken.len() implies !clashes(
            #[trigger] taken[i],
            functions,
            bridge,
        ) by {
            if i > 0 {
                assert(taken[i] == taken.skip(1)[i - 1]);
            }
        }
    }
}

/// Whether one finding is the beginning of another.
spec fn begins_with(a: Detected, d: Detected) -> bool {
    &&& a.pairs.len() == a.taken.len()
    &&& d.pairs.len() == d.taken.len()
    &&& a.taken.len() <= d.taken.len()
    &&& a.skipped.len() <= d.skipped.len()
    &&& forall|k: int|
        #![trigger d.pairs[k]]
        #![trigger d.taken[k]]
        0 <= k < a.taken.len() ==> d.pairs[k] == a.pairs[k] && d.taken[k] == a.taken[k]
    &&& forall|k: int|
        #![trigger d.skipped[k]]
        0 <= k < a.skipped.len() ==> d.skipped[k] == a.skipped[k]
}

proof fn lemma_begins(links: Map<u32, LinkModel>, order: Seq<u32>, i: int)
    requires
        0 <= i <= order.len(),
    ensures
        begins_with(detected(links, order.take(i)), detected(links, order)),
    decreases order.len(),
{
    if i == order.len() {
        assert(order.take(i) =~= order);
        if i > 0 {
            lemma_begins(links, order.drop_last(), i - 1);
        }
    } else {
        lemma_begins(links, order.drop_last(), i);
        assert(order.drop_last().take(i) =~= order.take(i));
    }
}

proof fn lemma_next(links: Map<u32, LinkModel>, order: Seq<u32>, i: int)
    requires
        0 <= i < order.len(),
    ensures
        detected(links, order.take(i + 1)) == looked_at(
            links,
            detected(links, order.take(i)),
            order[i],
        ),
{
    assert(order.take(i + 1).drop_last() =~= order.take(i));
    assert(order.take(i + 1).last() == order[i]);
}

/// Whether the interface at this place was chosen when its turn came.
spec fn taken_at(links: Map<u32, LinkModel>, order: Seq<u32>, j: int, bridge: u32) -> bool {
    let a = detected(links, order.take(j));
    let x = order[j];
    &&& may_be_uplink(links, x)
    &&& bridge_over(links, x) matches Some((b, _)) && b == bridge
    &&& forall|f: u32| !rival(links, x, bridge, f)
    &&& forall|k: int|
        0 <= k < a.taken.len() ==> !clashes(
            #[trigger] a.taken[k],
            functions_behind(links, x),
            bridge,
        )
}

/// Whether this is what was noted of it.
spec fn stands_for(links: Map<u32, LinkModel>, d: Detected, k: int, x: u32, bridge: u32) -> bool {
    &&& 0 <= k < d.taken.len()
    &&& d.taken[k] == (functions_behind(links, x), bridge, links[x].name)
    &&& d.pairs[k] == (links[x].name, label(links, bridge))
}

proof fn lemma_taken_at(links: Map<u32, LinkModel>, order: Seq<u32>, j: int, bridge: u32)
    requires
        0 <= j < order.len(),
        taken_at(links, order, j, bridge),
    ensures
        stands_for(
            links,
            detected(links, order),
            detected(links, order.take(j)).taken.len() as int,
            order[j],
            bridge,
        ),
        bridge_over(links, order[j]) matches Some((_, port)) && (port != order[j]
            ==> detected(links, order).skipped.contains(
            says_through(links[order[j]].name, label(links, bridge), label(links, port)),
        )),
{
    let a = detected(links, order.take(j));
    let x = order[j];
    let n = detected(links, order.take(j + 1));
    lemma_next(links, order, j);
    lemma_begins(links, order, j);
    lemma_begins(links, order, j + 1);
    if let Some(c) = first_clash(a.taken, functions_behind(links, x), bridge) {
        let k = lemma_clash_found(a.taken, functions_behind(links, x), bridge);
    }
    assert(n.taken.len() == a.taken.len() + 1);
    assert(stands_for(links, n, a.taken.len() as int, x, bridge));
    let d = detected(links, order);
    assert(d.taken[a.taken.len() as int] == n.taken[a.taken.len() as int]);
    if let Some((_, port)) = bridge_over(links, x) {
        if port != x {
            let k = n.skipped.len() - 1;
            assert(n.skipped[k] == says_through(
                links[x].name,
                label(links, bridge),
                label(links, port),
            ));
            assert(d.skipped[k] == n.skipped[k]);
        }
    }
}

proof fn lemma_source(links: Map<u32, LinkModel>, order: Seq<u32>, k: int) -> (r: (int, u32))
    requires
        0 <= k < detected(links, order).taken.len(),
    ensures
        0 <= r.0 < order.len(),
        taken_at(links, order, r.0, r.1),
        detected(links, order.take(r.0)).taken.len() == k,
        stands_for(links, detected(links, order), k, order[r.0], r.1),
    decreases order.len(),
{
    let front = order.drop_last();
    let x = order.last();
    let a = detected(links, front);
    let d = detected(links, order);
    lemma_begins(links, order, order.len() - 1);
    assert(order.take(order.len() - 1) =~= front);
    if k < a.taken.len() {
        let (j, b) = lemma_source(links, front, k);
        assert(front.take(j) =~= order.take(j));
        assert(front[j] == order[j]);
        assert(d.taken[k] == a.taken[k]);
        (j, b)
    } else {
        let j = order.len() - 1;
        let (b, port) = bridge_over(links, x)->0;
        lemma_clash_none(a.taken, functions_behind(links, x), b);
        assert forall|f: u32| !rival(links, x, b, f) by {
            if rival(links, x, b, f) {
                lemma_lowest_rival(links, x, b, f);
            }
        }
        (j, b)
    }
}

/// Which interfaces are chosen: a candidate in a bridge is the device of a pair
/// with that bridge, unless another function behind it ends up in the same
/// bridge itself, or an interface that comes first by name was chosen for the
/// same bridge and shares a function with it. Whatever happens on another bridge
/// is no reason.
pub proof fn a_candidate_is_declined_for_its_own_bridge_only(
    links: Map<u32, LinkModel>,
    order: Seq<u32>,
    i: int,
    bridge: u32,
)
    requires
        links.dom().finite(),
        named_apart(links),
        lists_in_name_order(order, links, false),
        0 <= i < order.len(),
        ends_in(links, order[i], bridge),
    ensures
        detected(links, order).pairs.contains((links[order[i]].name, links[bridge].name)) <==> {
            &&& {
                ||| links[order[i]].numvfs > 0
                ||| links[order[i]].pf_netdevs.len() > 0
                ||| links[order[i]].filter_below is Some && exists|f: u32|
                    functions_of(links, carrier(links, order[i])).contains(f)
            }
            &&& forall|f: u32| #[trigger]
                functions_of(links, carrier(links, order[i])).contains(f) && f != order[i]
                    ==> !ends_in(links, f, bridge)
            &&& forall|j: int|
                #![trigger order[j]]
                0 <= j < i && ends_in(links, order[j], bridge) && detected(
                    links,
                    order,
                ).pairs.contains((links[order[j]].name, links[bridge].name)) ==> !share_a_function(
                    links,
                    order[j],
                    order[i],
                )
        },
{
    let x = order[i];
    let d = detected(links, order);
    let port = choose|port: u32| #[trigger] bridge_over(links, x) == Some((bridge, port));
    the_first_bridge_over_the_masters(links, x, bridge, port);
    let bname = links[bridge].name;
    let fs = functions_of(links, carrier(links, x));
    assert(fs == functions_behind(links, x));
    let a = detected(links, order.take(i));
    lemma_begins(links, order, i);
    lemma_index_set_finite(fs);
    assert(may_be_uplink(links, x) <==> {
        ||| links[x].numvfs > 0
        ||| links[x].pf_netdevs.len() > 0
        ||| links[x].filter_below is Some && exists|f: u32| fs.contains(f)
    }) by {
        if forall|f: u32| !fs.contains(f) {
            assert(fs =~= Set::empty());
        }
        if fs.len() == 0 {
            assert(fs =~= Set::empty());
            assert forall|f: u32| !fs.contains(f) by {}
        }
    }
    let free = forall|f: u32| #[trigger] fs.contains(f) && f != x ==> !ends_in(links, f, bridge);
    assert(free <==> forall|f: u32| !rival(links, x, bridge, f)) by {
        if free {
            assert forall|f: u32| !rival(links, x, bridge, f) by {
                if rival(links, x, bridge, f) {
                    let (b, q) = bridge_over(links, f)->0;
                    assert(bridge_over(links, f) == Some((bridge, q)));
                    assert(ends_in(links, f, bridge));
                }
            }
        }
        if forall|f: u32| !rival(links, x, bridge, f) {
            assert forall|f: u32| #[trigger] fs.contains(f) && f != x implies !ends_in(
                links,
                f,
                bridge,
            ) by {
                assert(!rival(links, x, bridge, f));
            }
        }
    }
    let alone = forall|j: int|
        #![trigger order[j]]
        0 <= j < i && ends_in(links, order[j], bridge) && d.pairs.contains(
            (links[order[j]].name, bname),
        ) ==> !share_a_function(links, order[j], x);
    let unclaimed = forall|k: int|
        0 <= k < a.taken.len() ==> !clashes(#[trigger] a.taken[k], fs, bridge);
    if alone {
        assert forall|k: int| 0 <= k < a.taken.len() implies !clashes(
            #[trigger] a.taken[k],
            fs,
            bridge,
        ) by {
            let (j, b) = lemma_source(links, order.take(i), k);
            assert(order.take(i)[j] == order[j]);
            assert(d.pairs[k] == a.pairs[k]);
            if clashes(a.taken[k], fs, bridge) {
                let (_, q) = bridge_over(links, order[j])->0;
                assert(bridge_over(links, order[j]) == Some((bridge, q)));
                assert(ends_in(links, order[j], bridge));
                assert(d.pairs.contains((links[order[j]].name, bname)));
                let f = choose|f: u32| #[trigger] a.taken[k].0.contains(f) && fs.contains(f);
                assert(functions_of(links, carrier(links, order[j])).contains(f));
                assert(share_a_function(links, order[j], x));
            }
        }
    }
    if unclaimed {
        assert forall|j: int|
            #![trigger order[j]]
            0 <= j < i && ends_in(links, order[j], bridge) && d.pairs.contains(
                (links[order[j]].name, bname),
            ) implies !share_a_function(links, order[j], x) by {
            let k = choose|k: int| 0 <= k < d.pairs.len() && d.pairs[k] == (
                links[order[j]].name,
                bname,
            );
            let (j2, b) = lemma_source(links, order, k);
            assert(order.contains(order[j]) && order.contains(order[j2]));
            assert(order[j2] == order[j]);
            assert(j2 == j);
            let q = choose|q: u32| #[trigger] bridge_over(links, order[j]) == Some((bridge, q));
            assert(b == bridge);
            lemma_begins(links, order.take(i), j + 1);
            assert(order.take(i).take(j + 1) =~= order.take(j + 1));
            assert(order.take(i).take(j) =~= order.take(j));
            assert(order.take(i)[j] == order[j]);
            lemma_taken_at(links, order.take(i), j, bridge);
            assert(!clashes(a.taken[k], fs, bridge));
            if share_a_function(links, order[j], x) {
                let f = choose|f: u32| #[trigger]
                    functions_of(links, carrier(links, order[j])).contains(f) && functions_of(
                        links,
                        carrier(links, x),
                    ).contains(f);
                assert(a.taken[k].0.contains(f) && fs.contains(f));
            }
        }
    }
    assert(alone <==> unclaimed);
    if may_be_uplink(links, x) && free && unclaimed {
        assert(taken_at(links, order, i, bridge));
        lemma_taken_at(links, order, i, bridge);
        assert(d.pairs[a.taken.len() as int] == (links[x].name, bname));
    }
    if d.pairs.contains((links[x].name, bname)) {
        lemma_begins(links, order, order.len() as int);
        let k = choose|k: int| 0 <= k < d.pairs.len() && d.pairs[k] == (links[x].name, bname);
        let (j, b) = lemma_source(links, order, k);
        assert(order.contains(order[j]) && order.contains(x));
        assert(order[j] == x);
        assert(j == i);
    }
}

/// Every pair that is found is of an interface and the bridge that it ends up
/// in, each interface is in one pair at most, and they come in name order.
pub proof fn pairs_are_of_an_interface_and_its_bridge(
    links: Map<u32, LinkModel>,
    order: Seq<u32>,
    k: int,
)
    requires
        links.dom().finite(),
        named_apart(links),
        lists_in_name_order(order, links, false),
        0 <= k < detected(links, order).pairs.len(),
    ensures
        exists|x: u32, bridge: u32| #[trigger]
            ends_in(links, x, bridge) && links.contains_key(x) && links.contains_key(bridge)
                && links[bridge].is_bridge && detected(links, order).pairs[k] == (
                links[x].name,
                links[bridge].name,
            ),
        forall|l: int|
            #![trigger detected(links, order).pairs[l]]
            k < l < detected(links, order).pairs.len() ==> name_le(
                detected(links, order).pairs[k].0,
                detected(links, order).pairs[l].0,
            ) && detected(links, order).pairs[k].0 != detected(links, order).pairs[l].0,
{
    let d = detected(links, order);
    lemma_begins(links, order, order.len() as int);
    let (j, b) = lemma_source(links, order, k);
    let x = order[j];
    let (_, port) = bridge_over(links, x)->0;
    assert(bridge_over(links, x) == Some((b, port)));
    the_first_bridge_over_the_masters(links, x, b, port);
    assert(order.contains(x));
    assert(ends_in(links, x, b));
    assert forall|l: int| #![trigger d.pairs[l]] k < l < d.pairs.len() implies name_le(
        d.pairs[k].0,
        d.pairs[l].0,
    ) && d.pairs[k].0 != d.pairs[l].0 by {
        let (j2, b2) = lemma_source(links, order, l);
        assert(order.contains(order[j2]));
        if j2 <= j {
            lemma_begins(links, order.take(j), j2);
            assert(order.take(j).take(j2) =~= order.take(j2));
        }
        assert(j < j2);
        assert(order[j] != order[j2]);
    }
}

/// What is said to a person of a card that is declined: where a function behind
/// it holds the bridge already, which one, the lowest-numbered of them; and of
/// one that hands out virtual functions and ends up in no bridge, that it does
/// not.
pub proof fn the_reason_is_said(links: Map<u32, LinkModel>, order: Seq<u32>, i: int, f: u32)
    requires
        links.dom().finite(),
        lists_in_name_order(order, links, false),
        0 <= i < order.len(),
        links[order[i]].numvfs > 0 || links[order[i]].pf_netdevs.len() > 0,
    ensures
        bridge_over(links, order[i]) is None && links[order[i]].numvfs > 0 ==> detected(
            links,
            order,
        ).skipped.contains(says_idle(links[order[i]].name, links[order[i]].numvfs)),
        forall|bridge: u32|
            ends_in(links, order[i], bridge) && #[trigger] ends_in(links, f, bridge)
                && functions_of(links, carrier(links, order[i])).contains(f) && f != order[i] && (
            forall|g: u32| #[trigger]
                functions_of(links, carrier(links, order[i])).contains(g) && g != order[i]
                    && ends_in(links, g, bridge) ==> f <= g) ==> detected(
                links,
                order,
            ).skipped.contains(
                says_held(links[order[i]].name, label(links, f), links[bridge].name),
            ),
{
    let x = order[i];
    let d = detected(links, order);
    let a = detected(links, order.take(i));
    let n = detected(links, order.take(i + 1));
    lemma_next(links, order, i);
    lemma_begins(links, order, i + 1);
    if bridge_over(links, x) is None && links[x].numvfs > 0 {
        let k = n.skipped.len() - 1;
        assert(n.skipped[k] == says_idle(links[x].name, links[x].numvfs));
        assert(d.skipped[k] == n.skipped[k]);
    }
    let fs = functions_of(links, carrier(links, x));
    assert forall|bridge: u32|
        ends_in(links, x, bridge) && #[trigger] ends_in(links, f, bridge) && fs.contains(f) && f
            != x && (forall|g: u32| #[trigger]
            fs.contains(g) && g != x && ends_in(links, g, bridge) ==> f
                <= g) implies d.skipped.contains(
        says_held(links[x].name, label(links, f), links[bridge].name),
    ) by {
        let port = choose|port: u32| #[trigger] bridge_over(links, x) == Some((bridge, port));
        the_first_bridge_over_the_masters(links, x, bridge, port);
        assert(rival(links, x, bridge, f));
        assert forall|g: u32| #[trigger] rival(links, x, bridge, g) implies f <= g by {
            let (b, q) = bridge_over(links, g)->0;
            assert(bridge_over(links, g) == Some((bridge, q)));
            assert(ends_in(links, g, bridge));
            assert(fs.contains(g));
        }
        assert(first_rival(links, x, bridge, f));
        let h = choose|h: u32| first_rival(links, x, bridge, h);
        assert(h == f);
        let k = n.skipped.len() - 1;
        assert(n.skipped[k] == says_held(links[x].name, label(links, f), links[bridge].name));
        assert(d.skipped[k] == n.skipped[k]);
    }
}

/// Of a candidate that no function stands in for, but that shares a function
/// with an uplink chosen for the same bridge, the first such uplink is named.
pub proof fn the_uplink_that_came_first_is_named(
    links: Map<u32, LinkModel>,
    order: Seq<u32>,
    i: int,
    j: int,
    bridge: u32,
)
    requires
        links.dom().finite(),
        named_apart(links),
        lists_in_name_order(order, links, false),
        0 <= j < i < order.len(),
        links[order[i]].numvfs > 0 || links[order[i]].pf_netdevs.len() > 0,
        ends_in(links, order[i], bridge),
        forall|f: u32| #[trigger]
            functions_of(links, carrier(links, order[i])).contains(f) && f != order[i] ==> !ends_in(
                links,
                f,
                bridge,
            ),
        detected(links, order).pairs.contains((links[order[j]].name, links[bridge].name)),
        share_a_function(links, order[j], order[i]),
        forall|h: int|
            #![trigger order[h]]
            0 <= h < j && detected(links, order).pairs.contains(
                (links[order[h]].name, links[bridge].name),
            ) ==> !share_a_function(links, order[h], order[i]),
    ensures
        detected(links, order).skipped.contains(
            says_taken(links[order[i]].name, links[order[j]].name, links[bridge].name),
        ),
{
    let x = order[i];
    let d = detected(links, order);
    let a = detected(links, order.take(i));
    let n = detected(links, order.take(i + 1));
    let fs = functions_behind(links, x);
    let port = choose|port: u32| #[trigger] bridge_over(links, x) == Some((bridge, port));
    the_first_bridge_over_the_masters(links, x, bridge, port);
    lemma_next(links, order, i);
    lemma_begins(links, order, i);
    lemma_begins(links, order, i + 1);
    assert(order.contains(x) && order.contains(order[j]));
    let c = choose|c: int|
        0 <= c < d.pairs.len() && d.pairs[c] == (links[order[j]].name, links[bridge].name);
    let (jc, bc) = lemma_source(links, order, c);
    assert(order.contains(order[jc]));
    assert(order[jc] == order[j]);
    let (_, pc) = bridge_over(links, order[j])->0;
    the_first_bridge_over_the_masters(links, order[j], bc, pc);
    assert(bc == bridge);
    assert(order.take(i).take(j) =~= order.take(j));
    assert(order.take(i)[j] == order[j]);
    assert(taken_at(links, order.take(i), j, bridge));
    lemma_taken_at(links, order.take(i), j, bridge);
    let f = choose|f: u32| #[trigger]
        functions_of(links, carrier(links, order[j])).contains(f) && functions_of(
            links,
            carrier(links, x),
        ).contains(f);
    assert(a.taken[c].0.contains(f) && fs.contains(f));
    assert(clashes(a.taken[c], fs, bridge));
    assert forall|g: u32| !rival(links, x, bridge, g) by {
        if rival(links, x, bridge, g) {
            let (b, q) = bridge_over(links, g)->0;
            assert(bridge_over(links, g) == Some((bridge, q)));
            assert(ends_in(links, g, bridge));
            assert(functions_of(links, carrier(links, x)).contains(g));
        }
    }
    assert(!exists|g: u32| first_rival(links, x, bridge, g));
    if first_clash(a.taken, fs, bridge) is None {
        lemma_clash_none(a.taken, fs, bridge);
    }
    let k = lemma_clash_found(a.taken, fs, bridge);
    let (jk, bk) = lemma_source(links, order.take(i), k);
    assert(order.take(i)[jk] == order[jk]);
    assert(order.take(i).take(jk) =~= order.take(jk));
    assert(d.pairs[k] == a.pairs[k]);
    let g = choose|g: u32| #[trigger] a.taken[k].0.contains(g) && fs.contains(g);
    assert(functions_of(links, carrier(links, order[jk])).contains(g));
    assert(share_a_function(links, order[jk], x));
    assert(d.pairs.contains((links[order[jk]].name, links[bridge].name)));
    assert(jk >= j);
    if jk > j {
        lemma_begins(links, order.take(jk), j + 1);
        assert(order.take(jk).take(j + 1) =~= order.take(j + 1));
        lemma_begins(links, order.take(j + 1), j);
        assert(order.take(j + 1).take(j) =~= order.take(j));
        assert(order.take(j + 1)[j] == order[j]);
        assert(taken_at(links, order.take(j + 1), j, bridge));
        lemma_taken_at(links, order.take(j + 1), j, bridge);
        assert(false);
    }
    let last = n.skipped.len() - 1;
    assert(n.skipped[last] == says_taken(links[x].name, links[order[j]].name, links[bridge].name));
    assert(d.skipped[last] == n.skipped[last]);
}

/// Of an uplink that reaches its bridge through another interface it is said
/// through which.
pub proof fn the_way_into_the_bridge_is_said(
    links: Map<u32, LinkModel>,
    order: Seq<u32>,
    i: int,
    bridge: u32,
    port: u32,
)
    requires
        links.dom().finite(),
        named_apart(links),
        lists_in_name_order(order, links, false),
        0 <= i < order.len(),
        bridge_over(links, order[i]) == Some((bridge, port)),
        port != order[i],
        detected(links, order).pairs.contains((links[order[i]].name, links[bridge].name)),
    ensures
        detected(links, order).skipped.contains(
            says_through(links[order[i]].name, links[bridge].name, links[port].name),
        ),
{
    let d = detected(links, order);
    let x = order[i];
    the_first_bridge_over_the_masters(links, x, bridge, port);
    lemma_begins(links, order, order.len() as int);
    let k = choose|k: int|
        0 <= k < d.pairs.len() && d.pairs[k] == (links[x].name, links[bridge].name);
    let (j, b) = lemma_source(links, order, k);
    assert(order.contains(order[j]) && order.contains(x));
    assert(order[j] == x);
    assert(j == i);
    lemma_taken_at(links, order, i, b);
}

} // verus!
