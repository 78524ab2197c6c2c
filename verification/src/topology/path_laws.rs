//! What the walks over the host find, told as paths from interface to interface.

use vstd::prelude::*;

use crate::graph::{flooded, lemma_reaches_self, lemma_reaches_step, reaches, reaches_in, Edges};
use crate::topology::{
    above, anatomy_of, bridge_from, bridge_over, carrier, carrier_from, edges, functions_of,
    learn_kind, lemma_unseen, stacked_on, subtree, Learn, LinkModel, Way,
};

verus! {

/// Whether `p` goes down from its first interface to its last, each one built
/// on the next.
pub open spec fn leads_down(links: Map<u32, LinkModel>, p: Seq<u32>) -> bool {
    &&& p.len() > 0
    &&& forall|i: int|
        #![trigger p[i]]
        0 <= i < p.len() - 1 ==> links.contains_key(p[i]) && links[p[i]].lowers.contains(p[i + 1])
}

/// Whether `p` goes up from its first interface to its last, each one carrying
/// the next.
pub open spec fn leads_up(links: Map<u32, LinkModel>, p: Seq<u32>) -> bool {
    &&& p.len() > 0
    &&& forall|i: int|
        #![trigger p[i]]
        0 <= i < p.len() - 1 ==> links.contains_key(p[i]) && links[p[i]].uppers.contains(p[i + 1])
}

/// Whether `p` goes from an interface to a member of it, and on to a member of
/// that one. A card, or a virtual function of one, is not opened up.
pub open spec fn leads_in(links: Map<u32, LinkModel>, p: Seq<u32>) -> bool {
    &&& p.len() > 0
    &&& forall|i: int|
        #![trigger p[i]]
        0 <= i < p.len() - 1 ==> {
            &&& links.contains_key(p[i])
            &&& links[p[i]].slaves.contains(p[i + 1])
            &&& links[p[i]].pf_netdevs.len() == 0
            &&& links[p[i]].numvfs == 0
        }
}

/// Whether each of `p` is enslaved to the next, and none but the first is a
/// bridge.
pub open spec fn leads_to_masters(links: Map<u32, LinkModel>, p: Seq<u32>) -> bool {
    &&& p.len() > 0
    &&& forall|i: int|
        #![trigger p[i]]
        0 <= i < p.len() - 1 ==> {
            &&& links.contains_key(p[i])
            &&& links[p[i]].master == Some(p[i + 1])
            &&& !(links.contains_key(p[i + 1]) && links[p[i + 1]].is_bridge)
        }
}

/// Whether each of `p` hands its filter entries down to the next.
pub open spec fn hands_down(links: Map<u32, LinkModel>, p: Seq<u32>) -> bool {
    &&& p.len() > 0
    &&& forall|i: int|
        #![trigger p[i]]
        0 <= i < p.len() - 1 ==> links.contains_key(p[i]) && links[p[i]].filter_below == Some(
            p[i + 1],
        )
}

/// Whether a path along some edges leads from `a` to `b`.
spec fn walks(e: Edges, p: Seq<u32>) -> bool {
    p.len() > 0 && forall|i: int|
        #![trigger p[i]]
        0 <= i < p.len() - 1 ==> e(p[i]).contains(p[i + 1])
}

proof fn lemma_walk_found(e: Edges, a: u32, b: u32, n: nat) -> (p: Seq<u32>)
    requires
        reaches_in(e, a, b, n),
    ensures
        walks(e, p),
        p[0] == a,
        p.last() == b,
    decreases n,
{
    if n == 0 {
        seq![a]
    } else {
        let m = choose|m: u32|
            reaches_in(e, a, m, (n - 1) as nat) && #[trigger] e(m).contains(b);
        let q = lemma_walk_found(e, a, m, (n - 1) as nat);
        let p = q.push(b);
        assert forall|i: int| #![trigger p[i]] 0 <= i < p.len() - 1 implies e(p[i]).contains(
            p[i + 1],
        ) by {
            assert(p[i] == q[i]);
            if i < q.len() - 1 {
                assert(p[i + 1] == q[i + 1]);
            }
        }
        p
    }
}

proof fn lemma_walk_reaches(e: Edges, p: Seq<u32>)
    requires
        walks(e, p),
    ensures
        reaches(e, p[0], p.last()),
    decreases p.len(),
{
    if p.len() == 1 {
        lemma_reaches_self(e, p[0]);
    } else {
        let q = p.drop_last();
        assert forall|i: int| #![trigger q[i]] 0 <= i < q.len() - 1 implies e(q[i]).contains(
            q[i + 1],
        ) by {
            assert(q[i] == p[i]);
        }
        lemma_walk_reaches(e, q);
        assert(p[p.len() - 2] == q.last());
        assert(e(p[p.len() - 2]).contains(p[p.len() - 2 + 1]));
        lemma_reaches_step(e, p[0], q.last(), p.last());
    }
}

proof fn lemma_flooded_reaches(e: Edges, root: u32, x: u32)
    ensures
        flooded(e, seq![root]).contains(x) <==> reaches(e, root, x),
{
    assert(seq![root][0] == root);
    assert(seq![root].contains(root));
}

/// At or below an interface is what a path down leads to, and nothing else.
pub proof fn below_is_what_a_path_leads_down_to(links: Map<u32, LinkModel>, root: u32, x: u32)
    ensures
        subtree(links, root).contains(x) <==> exists|p: Seq<u32>| #[trigger]
            leads_down(links, p) && p[0] == root && p.last() == x,
{
    let e = edges(links, Way::Down);
    lemma_flooded_reaches(e, root, x);
    if subtree(links, root).contains(x) {
        let n = choose|n: nat| #[trigger] reaches_in(e, root, x, n);
        let p = lemma_walk_found(e, root, x, n);
        assert(leads_down(links, p));
    }
    if exists|p: Seq<u32>| #[trigger] leads_down(links, p) && p[0] == root && p.last() == x {
        let p = choose|p: Seq<u32>| #[trigger]
            leads_down(links, p) && p[0] == root && p.last() == x;
        assert(walks(e, p));
        lemma_walk_reaches(e, p);
    }
}

/// Stacked on an interface is what a path up leads to, and nothing else.
pub proof fn above_is_what_a_path_leads_up_to(links: Map<u32, LinkModel>, root: u32, x: u32)
    ensures
        above(links, root).contains(x) <==> exists|p: Seq<u32>| #[trigger]
            leads_up(links, p) && p[0] == root && p.last() == x,
{
    let e = edges(links, Way::Up);
    lemma_flooded_reaches(e, root, x);
    if above(links, root).contains(x) {
        let n = choose|n: nat| #[trigger] reaches_in(e, root, x, n);
        let p = lemma_walk_found(e, root, x, n);
        assert(leads_up(links, p));
    }
    if exists|p: Seq<u32>| #[trigger] leads_up(links, p) && p[0] == root && p.last() == x {
        let p = choose|p: Seq<u32>| #[trigger] leads_up(links, p) && p[0] == root && p.last() == x;
        assert(walks(e, p));
        lemma_walk_reaches(e, p);
    }
}

/// The physical functions behind an interface are those of the cards that its
/// members lead to: a virtual function stands for those it names, a card that
/// hands out virtual functions for itself.
pub proof fn functions_are_those_of_the_members(links: Map<u32, LinkModel>, dev: u32, f: u32)
    ensures
        functions_of(links, dev).contains(f) <==> exists|p: Seq<u32>| #[trigger]
            leads_in(links, p) && p[0] == dev && links.contains_key(p.last()) && (
            links[p.last()].pf_netdevs.contains(f) || (links[p.last()].pf_netdevs.len() == 0
                && links[p.last()].numvfs > 0 && f == p.last())),
{
    let e = edges(links, Way::Members);
    if functions_of(links, dev).contains(f) {
        let x = choose|x: u32|
            flooded(e, seq![dev]).contains(x) && #[trigger] crate::topology::own_function(
                links,
                x,
                f,
            );
        lemma_flooded_reaches(e, dev, x);
        let n = choose|n: nat| #[trigger] reaches_in(e, dev, x, n);
        let p = lemma_walk_found(e, dev, x, n);
        assert(leads_in(links, p));
    }
    if exists|p: Seq<u32>| #[trigger]
        leads_in(links, p) && p[0] == dev && links.contains_key(p.last()) && (
        links[p.last()].pf_netdevs.contains(f) || (links[p.last()].pf_netdevs.len() == 0
            && links[p.last()].numvfs > 0 && f == p.last())) {
        let p = choose|p: Seq<u32>| #[trigger]
            leads_in(links, p) && p[0] == dev && links.contains_key(p.last()) && (
            links[p.last()].pf_netdevs.contains(f) || (links[p.last()].pf_netdevs.len() == 0
                && links[p.last()].numvfs > 0 && f == p.last()));
        assert(walks(e, p));
        lemma_walk_reaches(e, p);
        lemma_flooded_reaches(e, dev, p.last());
        assert(crate::topology::own_function(links, p.last(), f));
    }
}

/// Whether an interface is enslaved to another one that is no bridge.
spec fn one_master_up(links: Map<u32, LinkModel>, x: u32, y: u32) -> bool {
    &&& links.contains_key(x)
    &&& links[x].master == Some(y)
    &&& !(links.contains_key(y) && links[y].is_bridge)
}

proof fn lemma_masters_step(links: Map<u32, LinkModel>, p: Seq<u32>, i: int)
    requires
        leads_to_masters(links, p),
        0 <= i < p.len() - 1,
    ensures
        one_master_up(links, p[i], p[i + 1]),
{
}

proof fn lemma_masters_from_steps(links: Map<u32, LinkModel>, p: Seq<u32>)
    requires
        p.len() > 0,
        forall|i: int, j: int|
            #![trigger p[i], p[j]]
            0 <= i && j == i + 1 && j < p.len() ==> one_master_up(links, p[i], p[j]),
    ensures
        leads_to_masters(links, p),
{
    assert forall|i: int| #![trigger p[i]] 0 <= i < p.len() - 1 implies one_master_up(
        links,
        p[i],
        p[i + 1],
    ) by {
        let j = i + 1;
        assert(one_master_up(links, p[i], p[j]));
    }
}

/// What a path leads past twice can be left out.
proof fn lemma_masters_cut(links: Map<u32, LinkModel>, p: Seq<u32>, i: int, j: int)
    requires
        leads_to_masters(links, p),
        0 <= i < j < p.len(),
        p[i] == p[j],
    ensures
        leads_to_masters(links, p.take(i) + p.skip(j)),
{
    let q = p.take(i) + p.skip(j);
    assert forall|a: int, b: int|
        #![trigger q[a], q[b]]
        0 <= a && b == a + 1 && b < q.len() implies one_master_up(links, q[a], q[b]) by {
        if b <= i {
            lemma_masters_step(links, p, a);
        } else {
            lemma_masters_step(links, p, a - i + j);
        }
    }
    lemma_masters_from_steps(links, q);
}

proof fn lemma_masters_shortened(links: Map<u32, LinkModel>, p: Seq<u32>) -> (q: Seq<u32>)
    requires
        leads_to_masters(links, p),
    ensures
        leads_to_masters(links, q),
        q.no_duplicates(),
        q[0] == p[0],
        q.last() == p.last(),
    decreases p.len(),
{
    if p.no_duplicates() {
        p
    } else {
        let (a, b) = choose|a: int, b: int|
            0 <= a < p.len() && 0 <= b < p.len() && a != b && p[a] == p[b];
        let (i, j) = if a < b {
            (a, b)
        } else {
            (b, a)
        };
        let q = p.take(i) + p.skip(j);
        lemma_masters_cut(links, p, i, j);
        lemma_masters_shortened(links, q)
    }
}

proof fn lemma_bridge_found(links: Map<u32, LinkModel>, cur: u32, seen: Set<u32>) -> (p: Seq<u32>)
    requires
        links.dom().finite(),
        bridge_from(links, cur, seen) is Some,
    ensures
        leads_to_masters(links, p),
        p[0] == cur,
        bridge_from(links, cur, seen) matches Some((bridge, port)) && p.last() == port
            && links.contains_key(port) && links[port].master == Some(bridge)
            && links.contains_key(bridge) && links[bridge].is_bridge,
    decreases links.dom().difference(seen).len(),
{
    let m = links[cur].master->0;
    if links.contains_key(m) && links[m].is_bridge {
        seq![cur]
    } else {
        lemma_unseen(links, seen, cur);
        let q = lemma_bridge_found(links, m, seen.insert(cur));
        let p = seq![cur] + q;
        assert forall|k: int| #![trigger p[k]] 0 <= k < p.len() - 1 implies {
            &&& links.contains_key(p[k])
            &&& links[p[k]].master == Some(p[k + 1])
            &&& !(links.contains_key(p[k + 1]) && links[p[k + 1]].is_bridge)
        } by {
            if k > 0 {
                assert(p[k] == q[k - 1]);
                assert(p[k + 1] == q[k - 1 + 1]);
            } else {
                assert(p[1] == q[0]);
            }
        }
        p
    }
}

proof fn lemma_bridge_met(
    links: Map<u32, LinkModel>,
    p: Seq<u32>,
    bridge: u32,
    seen: Set<u32>,
)
    requires
        links.dom().finite(),
        leads_to_masters(links, p),
        p.no_duplicates(),
        forall|i: int| 0 <= i < p.len() ==> !seen.contains(#[trigger] p[i]),
        links.contains_key(p.last()),
        links[p.last()].master == Some(bridge),
        links.contains_key(bridge),
        links[bridge].is_bridge,
    ensures
        bridge_from(links, p[0], seen) == Some((bridge, p.last())),
    decreases p.len(),
{
    let cur = p[0];
    if p.len() > 1 {
        lemma_unseen(links, seen, cur);
        let q = p.skip(1);
        assert forall|k: int| #![trigger q[k]] 0 <= k < q.len() - 1 implies {
            &&& links.contains_key(q[k])
            &&& links[q[k]].master == Some(q[k + 1])
            &&& !(links.contains_key(q[k + 1]) && links[q[k + 1]].is_bridge)
        } by {
            assert(q[k] == p[k + 1]);
            assert(q[k + 1] == p[k + 1 + 1]);
        }
        assert(q[0] == p[1]);
        assert forall|i: int| 0 <= i < q.len() implies !seen.insert(cur).contains(
            #[trigger] q[i],
        ) by {
            assert(q[i] == p[i + 1]);
        }
        lemma_bridge_met(links, q, bridge, seen.insert(cur));
    }
}

/// An interface ends up in the first bridge that its masters lead to, through
/// the one that is enslaved to that bridge; in none where they lead to none.
pub proof fn the_first_bridge_over_the_masters(
    links: Map<u32, LinkModel>,
    dev: u32,
    bridge: u32,
    port: u32,
)
    requires
        links.dom().finite(),
    ensures
        bridge_over(links, dev) == Some((bridge, port)) <==> {
            &&& links.contains_key(port)
            &&& links[port].master == Some(bridge)
            &&& links.contains_key(bridge)
            &&& links[bridge].is_bridge
            &&& exists|p: Seq<u32>| #[trigger]
                leads_to_masters(links, p) && p[0] == dev && p.last() == port
        },
{
    if bridge_over(links, dev) == Some((bridge, port)) {
        let p = lemma_bridge_found(links, dev, Set::empty());
        assert(leads_to_masters(links, p));
    }
    if links.contains_key(port) && links[port].master == Some(bridge) && links.contains_key(bridge)
        && links[bridge].is_bridge && (exists|p: Seq<u32>| #[trigger]
        leads_to_masters(links, p) && p[0] == dev && p.last() == port) {
        let p = choose|p: Seq<u32>| #[trigger]
            leads_to_masters(links, p) && p[0] == dev && p.last() == port;
        let q = lemma_masters_shortened(links, p);
        lemma_bridge_met(links, q, bridge, Set::empty());
    }
}

proof fn lemma_carrier_found(links: Map<u32, LinkModel>, p: Seq<u32>) -> (q: Seq<u32>)
    requires
        links.dom().finite(),
        hands_down(links, p),
        p.no_duplicates(),
    ensures
        hands_down(links, q),
        q.no_duplicates(),
        q[0] == p[0],
        ({
            let card = carrier_from(links, p.last(), p.drop_last().to_set());
            ||| q.last() == card && !(links.contains_key(card) && links[card].filter_below is Some)
            ||| q.contains(card) && links.contains_key(q.last()) && links[q.last()].filter_below
                == Some(card)
        }),
    decreases links.dom().difference(p.drop_last().to_set()).len(),
{
    let cur = p.last();
    let seen = p.drop_last().to_set();
    assert(!seen.contains(cur)) by {
        if seen.contains(cur) {
            let k = choose|k: int| 0 <= k < p.drop_last().len() && p.drop_last()[k] == cur;
            assert(p[k] == p[p.len() - 1]);
        }
    }
    if links.contains_key(cur) && links[cur].filter_below is Some {
        let next = links[cur].filter_below->0;
        lemma_unseen(links, seen, cur);
        if p.contains(next) {
            assert(seen.insert(cur).contains(next)) by {
                let k = choose|k: int| 0 <= k < p.len() && p[k] == next;
                if k < p.len() - 1 {
                    assert(p.drop_last()[k] == next);
                }
            }
            assert(carrier_from(links, next, seen.insert(cur)) == next);
            p
        } else {
            let w = p.push(next);
            assert forall|i: int| #![trigger w[i]] 0 <= i < w.len() - 1 implies links.contains_key(
                w[i],
            ) && links[w[i]].filter_below == Some(w[i + 1]) by {
                assert(w[i] == p[i]);
                if i < p.len() - 1 {
                    assert(w[i + 1] == p[i + 1]);
                }
            }
            assert(w.drop_last() =~= p);
            assert(p.to_set() =~= seen.insert(cur)) by {
                assert(p =~= p.drop_last().push(cur));
                assert forall|x: u32| p.to_set().contains(x) <==> seen.insert(cur).contains(x) by {
                    if p.contains(x) {
                        let k = choose|k: int| 0 <= k < p.len() && p[k] == x;
                        if k < p.len() - 1 {
                            assert(p.drop_last()[k] == x);
                        }
                    }
                    if seen.contains(x) {
                        let k = choose|k: int|
                            0 <= k < p.drop_last().len() && p.drop_last()[k] == x;
                        assert(p[k] == x);
                    }
                    assert(p[p.len() - 1] == cur);
                }
            }
            lemma_carrier_found(links, w)
        }
    } else {
        p
    }
}

/// What is written through an interface stands in the filter at the end of the
/// way down: that of the interface that hands nothing on, or, should the way go
/// in circles, of the one that it comes back to.
pub proof fn entries_stand_at_the_end_of_the_way_down(links: Map<u32, LinkModel>, dev: u32)
    requires
        links.dom().finite(),
    ensures
        exists|p: Seq<u32>|
            {
                &&& #[trigger] hands_down(links, p)
                &&& p.no_duplicates()
                &&& p[0] == dev
                &&& {
                    ||| p.last() == carrier(links, dev) && !(links.contains_key(p.last())
                        && links[p.last()].filter_below is Some)
                    ||| p.contains(carrier(links, dev)) && links.contains_key(p.last())
                        && links[p.last()].filter_below == Some(carrier(links, dev))
                }
            },
{
    let p = seq![dev];
    assert(p.drop_last().to_set() =~= Set::empty()) by {
        assert(p.drop_last() =~= Seq::empty());
    }
    let q = lemma_carrier_found(links, p);
    assert(hands_down(links, q));
}

/// An interface that hands nothing down holds its own entries.
pub proof fn a_card_holds_its_own_entries(links: Map<u32, LinkModel>, dev: u32)
    requires
        links.dom().finite(),
        links.contains_key(dev) ==> links[dev].filter_below is None,
    ensures
        carrier(links, dev) == dev,
{
}

/// How an uplink hangs under a bridge: through the port at which its masters
/// lead to the bridge, with its entries in the filter at the end of the way
/// down, and with the functions of whatever card that filter belongs to. An
/// interface that does not end up in the bridge has no place under it.
pub proof fn an_uplink_stands_under_its_own_bridge(
    links: Map<u32, LinkModel>,
    dev: u32,
    bridge: u32,
)
    requires
        links.dom().finite(),
    ensures
        anatomy_of(links, dev, bridge) is Some <==> exists|p: Seq<u32>| #[trigger]
            leads_to_masters(links, p) && p[0] == dev && links.contains_key(p.last())
                && links[p.last()].master == Some(bridge) && links.contains_key(bridge)
                && links[bridge].is_bridge,
        anatomy_of(links, dev, bridge) matches Some(a) ==> {
            &&& a.dev == dev
            &&& a.bridge == bridge
            &&& links.contains_key(a.port)
            &&& links[a.port].master == Some(bridge)
            &&& exists|p: Seq<u32>| #[trigger]
                leads_to_masters(links, p) && p[0] == dev && p.last() == a.port
            &&& a.card == carrier(links, dev)
            &&& a.functions == functions_of(links, a.card)
        },
{
    if let Some(a) = anatomy_of(links, dev, bridge) {
        the_first_bridge_over_the_masters(links, dev, bridge, a.port);
        let p = choose|p: Seq<u32>| #[trigger]
            leads_to_masters(links, p) && p[0] == dev && p.last() == a.port;
        assert(leads_to_masters(links, p));
    }
    if exists|p: Seq<u32>| #[trigger]
        leads_to_masters(links, p) && p[0] == dev && links.contains_key(p.last())
            && links[p.last()].master == Some(bridge) && links.contains_key(bridge)
            && links[bridge].is_bridge {
        let p = choose|p: Seq<u32>| #[trigger]
            leads_to_masters(links, p) && p[0] == dev && links.contains_key(p.last())
                && links[p.last()].master == Some(bridge) && links.contains_key(bridge)
                && links[bridge].is_bridge;
        the_first_bridge_over_the_masters(links, dev, bridge, p.last());
    }
}

/// Where a learn is: on the wire when it came in at the uplink's port; behind the
/// bridge when the bridge learnt it elsewhere, or when another bridge did that is
/// stacked on top, on a port that does not lead back down; no business of the
/// uplink otherwise.
pub proof fn a_learn_is_where_its_port_is(
    links: Map<u32, LinkModel>,
    bridge: u32,
    ifindex: u32,
    master: u32,
    port: u32,
)
    ensures
        learn_kind(links, bridge, ifindex, master, port) == Learn::Wire <==> ifindex == port,
        ifindex != port && master == bridge ==> learn_kind(links, bridge, ifindex, master, port)
            == Learn::Behind,
        ifindex != port && master != bridge ==> (learn_kind(links, bridge, ifindex, master, port)
            == Learn::Behind <==> {
            &&& links.contains_key(master)
            &&& links[master].is_bridge
            &&& exists|p: Seq<u32>| #[trigger]
                leads_up(links, p) && p[0] == bridge && p.last() == master
            &&& !exists|p: Seq<u32>| #[trigger]
                leads_up(links, p) && p[0] == bridge && p.last() == ifindex
        }),
{
    above_is_what_a_path_leads_up_to(links, bridge, master);
    above_is_what_a_path_leads_up_to(links, bridge, ifindex);
}

/// The bridges stacked on a bridge are those that a path up leads to, and not
/// the bridge itself.
pub proof fn stacked_bridges_are_above(links: Map<u32, LinkModel>, bridge: u32, x: u32)
    ensures
        stacked_on(links, bridge).contains(x) <==> {
            &&& x != bridge
            &&& links.contains_key(x)
            &&& links[x].is_bridge
            &&& exists|p: Seq<u32>| #[trigger]
                leads_up(links, p) && p[0] == bridge && p.last() == x
        },
{
    above_is_what_a_path_leads_up_to(links, bridge, x);
}

} // verus!
