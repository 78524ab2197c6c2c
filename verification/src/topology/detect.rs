//! Finding out which uplinks a host has.

use vstd::prelude::*;

use crate::order::Ordered;
use crate::text::{digits, push_number, push_text};
use crate::topology::{
    ascending, bridge_over, carrier, functions_of, holds_index, lists_in_name_order, may_be_uplink,
    LinkModel, Topology,
};

verus! {

/// The name of an interface; nothing for an unknown one.
pub open spec fn label(links: Map<u32, LinkModel>, x: u32) -> Seq<char> {
    if links.contains_key(x) {
        links[x].name
    } else {
        Seq::empty()
    }
}

/// Whether `f` itself ends up in `bridge`.
pub open spec fn carries(links: Map<u32, LinkModel>, f: u32, bridge: u32) -> bool {
    bridge_over(links, f) matches Some((b, _)) && b == bridge
}

/// The physical functions behind an uplink.
pub open spec fn functions_behind(links: Map<u32, LinkModel>, x: u32) -> Set<u32> {
    functions_of(links, carrier(links, x))
}

/// Whether `f` is a function behind `x`, other than `x`, that carries `bridge`
/// itself.
pub open spec fn rival(links: Map<u32, LinkModel>, x: u32, bridge: u32, f: u32) -> bool {
    functions_behind(links, x).contains(f) && f != x && carries(links, f, bridge)
}

/// Whether `f` is the lowest-numbered rival of `x`.
pub open spec fn first_rival(links: Map<u32, LinkModel>, x: u32, bridge: u32, f: u32) -> bool {
    &&& rival(links, x, bridge, f)
    &&& forall|g: u32| #[trigger] rival(links, x, bridge, g) ==> f <= g
}

/// An uplink that has been chosen: the functions behind it, its bridge, its name.
pub type Claim = (Set<u32>, u32, Seq<char>);

/// Whether a claim already takes one of `functions` for `bridge`.
pub open spec fn clashes(c: Claim, functions: Set<u32>, bridge: u32) -> bool {
    c.1 == bridge && exists|f: u32| #[trigger] c.0.contains(f) && functions.contains(f)
}

/// The first claim that takes one of `functions` for `bridge`.
pub open spec fn first_clash(taken: Seq<Claim>, functions: Set<u32>, bridge: u32) -> Option<Claim>
    decreases taken.len(),
{
    if taken.len() == 0 {
        None
    } else if clashes(taken[0], functions, bridge) {
        Some(taken[0])
    } else {
        first_clash(taken.skip(1), functions, bridge)
    }
}

/// What has been found out so far: the pairs of an uplink and its bridge by
/// name, the claims behind them, and what there is to say to a person.
pub struct Detected {
    pub pairs: Seq<(Seq<char>, Seq<char>)>,
    pub taken: Seq<Claim>,
    pub skipped: Seq<Seq<char>>,
}

pub open spec fn says_idle(name: Seq<char>, numvfs: u32) -> Seq<char> {
    "skip "@ + name + ": "@ + digits(numvfs as nat) + " VF(s) but does not end up in a bridge"@
}

pub open spec fn says_held(name: Seq<char>, holder: Seq<char>, bridge: Seq<char>) -> Seq<char> {
    "skip "@ + name + ": "@ + holder + " already carries "@ + bridge
}

pub open spec fn says_taken(name: Seq<char>, by: Seq<char>, bridge: Seq<char>) -> Seq<char> {
    "skip "@ + name + ": "@ + by + " of the same function already carries "@ + bridge
        + " - two vports of one eSwitch cannot both claim the same addresses"@
}

pub open spec fn says_through(name: Seq<char>, bridge: Seq<char>, port: Seq<char>) -> Seq<char> {
    name + " reaches "@ + bridge + " through "@ + port
}

/// One more interface looked at. Two vports of one eSwitch must not both claim
/// a bridge's addresses: an interface whose own function carries the bridge
/// already, or whose function another uplink has been chosen for, is declined.
pub open spec fn looked_at(links: Map<u32, LinkModel>, d: Detected, x: u32) -> Detected {
    let name = links[x].name;
    if !may_be_uplink(links, x) {
        d
    } else {
        match bridge_over(links, x) {
            None => if links[x].numvfs > 0 {
                Detected { skipped: d.skipped.push(says_idle(name, links[x].numvfs)), ..d }
            } else {
                d
            },
            Some((bridge, port)) => {
                let fs = functions_behind(links, x);
                let bridge_name = label(links, bridge);
                if exists|f: u32| first_rival(links, x, bridge, f) {
                    let f = choose|f: u32| first_rival(links, x, bridge, f);
                    Detected {
                        skipped: d.skipped.push(says_held(name, label(links, f), bridge_name)),
                        ..d
                    }
                } else {
                    match first_clash(d.taken, fs, bridge) {
                        Some(c) => Detected {
                            skipped: d.skipped.push(says_taken(name, c.2, bridge_name)),
                            ..d
                        },
                        None => Detected {
                            pairs: d.pairs.push((name, bridge_name)),
                            taken: d.taken.push((fs, bridge, name)),
                            skipped: if port != x {
                                d.skipped.push(says_through(name, bridge_name, label(links, port)))
                            } else {
                                d.skipped
                            },
                        },
                    }
                }
            },
        }
    }
}

/// All of `order` looked at, one after the other.
pub open spec fn detected(links: Map<u32, LinkModel>, order: Seq<u32>) -> Detected
    decreases order.len(),
{
    if order.len() == 0 {
        Detected { pairs: Seq::empty(), taken: Seq::empty(), skipped: Seq::empty() }
    } else {
        looked_at(links, detected(links, order.drop_last()), order.last())
    }
}

/// The names in a list of pairs.
pub open spec fn pair_names(v: Seq<(String, String)>) -> Seq<(Seq<char>, Seq<char>)> {
    v.map_values(|p: (String, String)| (p.0@, p.1@))
}

/// The texts in a list.
pub open spec fn texts(v: Seq<String>) -> Seq<Seq<char>> {
    v.map_values(|s: String| s@)
}

spec fn claims(v: Seq<(Vec<u32>, u32, String)>) -> Seq<Claim> {
    v.map_values(|c: (Vec<u32>, u32, String)| (c.0@.to_set(), c.1, c.2@))
}

pub(crate) fn say_idle(name: &String, numvfs: u32) -> (r: String)
    ensures
        r@ == says_idle(name@, numvfs),
{
    let mut s = "skip ".to_owned();
    push_text(&mut s, name);
    push_text(&mut s, ": ");
    push_number(&mut s, numvfs as u64);
    push_text(&mut s, " VF(s) but does not end up in a bridge");
    s
}

pub(crate) fn say_held(name: &String, holder: &String, bridge: &String) -> (r: String)
    ensures
        r@ == says_held(name@, holder@, bridge@),
{
    let mut s = "skip ".to_owned();
    push_text(&mut s, name);
    push_text(&mut s, ": ");
    push_text(&mut s, holder);
    push_text(&mut s, " already carries ");
    push_text(&mut s, bridge);
    s
}

fn say_taken(name: &String, by: &String, bridge: &String) -> (r: String)
    ensures
        r@ == says_taken(name@, by@, bridge@),
{
    let mut s = "skip ".to_owned();
    push_text(&mut s, name);
    push_text(&mut s, ": ");
    push_text(&mut s, by);
    push_text(&mut s, " of the same function already carries ");
    push_text(&mut s, bridge);
    push_text(&mut s, " - two vports of one eSwitch cannot both claim the same addresses");
    s
}

pub(crate) fn say_through(name: &String, bridge: &String, port: &String) -> (r: String)
    ensures
        r@ == says_through(name@, bridge@, port@),
{
    let mut s = name.clone();
    push_text(&mut s, " reaches ");
    push_text(&mut s, bridge);
    push_text(&mut s, " through ");
    push_text(&mut s, port);
    s
}

/// The first of the claims that takes one of `functions` for `bridge`.
fn find_clash(
    taken: &Vec<(Vec<u32>, u32, String)>,
    functions: &Vec<u32>,
    bridge: u32,
) -> (r: Option<String>)
    ensures
        match (r, first_clash(claims(taken@), functions@.to_set(), bridge)) {
            (Some(by), Some(c)) => by@ == c.2,
            (None, None) => true,
            _ => false,
        },
{
    let ghost all = claims(taken@);
    let ghost fs = functions@.to_set();
    let mut i: usize = 0;
    assert(all.skip(0) =~= all);
    while i < taken.len()
        invariant
            i <= taken@.len(),
            all == claims(taken@),
            fs == functions@.to_set(),
            first_clash(all, fs, bridge) == first_clash(all.skip(i as int), fs, bridge),
        decreases taken@.len() - i,
    {
        let ghost c = all[i as int];
        assert(all.skip(i as int)[0] == c);
        assert(all.skip(i as int).skip(1) =~= all.skip(i + 1));
        if taken[i].1 == bridge {
            let theirs = &taken[i].0;
            let mut k: usize = 0;
            let mut shared = false;
            while k < theirs.len()
                invariant
                    k <= theirs@.len(),
                    fs == functions@.to_set(),
                    shared <==> exists|j: int| 0 <= j < k && fs.contains(#[trigger] theirs@[j]),
                decreases theirs@.len() - k,
            {
                if holds_index(functions, theirs[k]) {
                    shared = true;
                }
                k += 1;
            }
            proof {
                assert(c.0 == theirs@.to_set());
                if shared {
                    let j = choose|j: int|
                        0 <= j < theirs@.len() && fs.contains(#[trigger] theirs@[j]);
                    assert(theirs@.contains(theirs@[j]));
                    assert(c.0.contains(theirs@[j]));
                }
                if clashes(c, fs, bridge) {
                    let f = choose|f: u32| #[trigger] c.0.contains(f) && fs.contains(f);
                    let j = choose|j: int| 0 <= j < theirs@.len() && theirs@[j] == f;
                    assert(fs.contains(theirs@[j]));
                }
            }
            if shared {
                return Some(taken[i].2.clone());
            }
        }
        i += 1;
    }
    assert(all.skip(i as int) =~= Seq::empty());
    None
}

impl Topology {
    /// The first of `functions` that is not `x` and carries `bridge` itself.
    fn find_rival(&self, functions: &Vec<u32>, x: u32, bridge: u32) -> (r: Option<u32>)
        requires
            ascending(functions@, functions_behind(self@.links, x)),
        ensures
            match r {
                Some(f) => first_rival(self@.links, x, bridge, f),
                None => forall|f: u32| !first_rival(self@.links, x, bridge, f),
            },
    {
        let ghost links = self@.links;
        let mut i: usize = 0;
        while i < functions.len()
            invariant
                links == self@.links,
                i <= functions@.len(),
                ascending(functions@, functions_behind(links, x)),
                forall|j: int| 0 <= j < i ==> !rival(links, x, bridge, #[trigger] functions@[j]),
            decreases functions@.len() - i,
        {
            let f = functions[i];
            proof {
                assert(functions@.contains(f));
                assert(functions@.to_set().contains(f));
            }
            if f != x {
                if let Some((b, _)) = self.bridge_above(f) {
                    if b == bridge {
                        proof {
                            assert forall|g: u32| #[trigger] rival(
                                links,
                                x,
                                bridge,
                                g,
                            ) implies f <= g by {
                                assert(functions@.to_set().contains(g));
                                let j = choose|j: int|
                                    0 <= j < functions@.len() && functions@[j] == g;
                                if j >= i {
                                    assert(functions@[i as int].leq(&functions@[j]));
                                }
                            }
                        }
                        return Some(f);
                    }
                }
            }
            i += 1;
        }
        proof {
            assert forall|f: u32| !first_rival(links, x, bridge, f) by {
                if rival(links, x, bridge, f) {
                    assert(functions@.to_set().contains(f));
                    let j = choose|j: int| 0 <= j < functions@.len() && functions@[j] == f;
                    assert(!rival(links, x, bridge, functions@[j]));
                }
            }
        }
        None
    }

    /// The name of an interface; nothing for an unknown one.
    fn label_of(&self, x: u32) -> (r: String)
        ensures
            r@ == label(self@.links, x),
    {
        match self.name_of(x) {
            Some(n) => n.clone(),
            None => String::new(),
        }
    }

    /// The pairs this host wants: every interface that could be an uplink and
    /// ends up in a bridge, one pair per bridge and function. The first in
    /// name order wins and the rest are reported.
    pub fn autodetect(&self) -> (r: (Vec<(String, String)>, Vec<String>))
        ensures
            exists|order: Seq<u32>| #[trigger]
                lists_in_name_order(order, self@.links, false) && pair_names(r.0@) == detected(
                    self@.links,
                    order,
                ).pairs && texts(r.1@) == detected(self@.links, order).skipped,
    {
        let ghost links = self@.links;
        let _ = self.len();
        let order = self.in_name_order();
        let mut pairs: Vec<(String, String)> = Vec::new();
        let mut taken: Vec<(Vec<u32>, u32, String)> = Vec::new();
        let mut skipped: Vec<String> = Vec::new();
        let mut i: usize = 0;
        proof {
            assert(order@.take(0) =~= Seq::empty());
            assert(pair_names(pairs@) =~= Seq::empty());
            assert(claims(taken@) =~= Seq::empty());
            assert(texts(skipped@) =~= Seq::empty());
        }
        while i < order.len()
            invariant
                links == self@.links,
                links.dom().finite(),
                forall|x: u32| #[trigger] links.contains_key(x) ==> links[x].index == x,
                i <= order@.len(),
                lists_in_name_order(order@, links, false),
                pair_names(pairs@) == detected(links, order@.take(i as int)).pairs,
                claims(taken@) == detected(links, order@.take(i as int)).taken,
                texts(skipped@) == detected(links, order@.take(i as int)).skipped,
            decreases order@.len() - i,
        {
            let x = order[i];
            let ghost d = detected(links, order@.take(i as int));
            let ghost pairs0 = pairs@;
            let ghost taken0 = taken@;
            let ghost skipped0 = skipped@;
            proof {
                let next = order@.take(i + 1);
                assert(next.drop_last() =~= order@.take(i as int));
                assert(next.last() == x);
                assert(detected(links, next) == looked_at(links, d, x));
                assert(order@.contains(x));
            }
            if let Some(link) = self.at(x) {
                if self.could_be_uplink(link) {
                    match self.bridge_above(x) {
                        None => {
                            if link.numvfs > 0 {
                                let s = say_idle(&link.name, link.numvfs);
                                proof {
                                    assert(texts(skipped0.push(s)) =~= texts(skipped0).push(s@));
                                }
                                skipped.push(s);
                            }
                        },
                        Some((bridge, port)) => {
                            let card = self.filter_carrier(x);
                            let functions = self.physical_functions(card);
                            let bridge_name = self.label_of(bridge);
                            match self.find_rival(&functions, x, bridge) {
                                Some(f) => {
                                    let s = say_held(&link.name, &self.label_of(f), &bridge_name);
                                    proof {
                                        let g = choose|g: u32| first_rival(links, x, bridge, g);
                                        assert(f == g);
                                        assert(texts(skipped0.push(s)) =~= texts(skipped0).push(
                                            s@,
                                        ));
                                    }
                                    skipped.push(s);
                                },
                                None => match find_clash(&taken, &functions, bridge) {
                                    Some(by) => {
                                        let s = say_taken(&link.name, &by, &bridge_name);
                                        proof {
                                            assert(texts(skipped0.push(s)) =~= texts(
                                                skipped0,
                                            ).push(s@));
                                        }
                                        skipped.push(s);
                                    },
                                    None => {
                                        if port != x {
                                            let s = say_through(
                                                &link.name,
                                                &bridge_name,
                                                &self.label_of(port),
                                            );
                                            proof {
                                                assert(texts(skipped0.push(s)) =~= texts(
                                                    skipped0,
                                                ).push(s@));
                                            }
                                            skipped.push(s);
                                        }
                                        let claim = (functions, bridge, link.name.clone());
                                        let pair = (link.name.clone(), bridge_name);
                                        proof {
                                            assert(claims(taken0.push(claim)) =~= claims(
                                                taken0,
                                            ).push((claim.0@.to_set(), claim.1, claim.2@)));
                                            assert(pair_names(pairs0.push(pair)) =~= pair_names(
                                                pairs0,
                                            ).push((pair.0@, pair.1@)));
                                        }
                                        taken.push(claim);
                                        pairs.push(pair);
                                    },
                                },
                            }
                        },
                    }
                }
            }
            i += 1;
        }
        proof {
            assert(order@.take(i as int) =~= order@);
        }
        (pairs, skipped)
    }
}

/// Of the uplinks that are chosen no two share a physical function on one
/// bridge, and none stands in for a function that carries its bridge itself.
pub proof fn one_vport_per_bridge(links: Map<u32, LinkModel>, order: Seq<u32>)
    ensures
        forall|i: int, j: int|
            #![trigger detected(links, order).taken[i], detected(links, order).taken[j]]
            0 <= i < j < detected(links, order).taken.len() ==> !clashes(
                detected(links, order).taken[i],
                detected(links, order).taken[j].0,
                detected(links, order).taken[j].1,
            ),
        detected(links, order).pairs.len() == detected(links, order).taken.len(),
        forall|i: int|
            #![trigger detected(links, order).taken[i]]
            0 <= i < detected(links, order).taken.len() ==> detected(links, order).pairs[i] == (
                detected(links, order).taken[i].2,
                label(links, detected(links, order).taken[i].1),
            ),
    decreases order.len(),
{
    if order.len() > 0 {
        one_vport_per_bridge(links, order.drop_last());
        let d = detected(links, order.drop_last());
        let x = order.last();
        if let Some((bridge, _)) = bridge_over(links, x) {
            if first_clash(d.taken, functions_behind(links, x), bridge) is None {
                lemma_no_clash(d.taken, functions_behind(links, x), bridge);
            }
        }
    }
}

/// Where no first clash is found there is none.
proof fn lemma_no_clash(taken: Seq<Claim>, functions: Set<u32>, bridge: u32)
    requires
        first_clash(taken, functions, bridge) is None,
    ensures
        forall|i: int| 0 <= i < taken.len() ==> !clashes(#[trigger] taken[i], functions, bridge),
    decreases taken.len(),
{
    if taken.len() > 0 {
        lemma_no_clash(taken.skip(1), functions, bridge);
        assert forall|i: int| 0 <= i < taken.len() implies !clashes(
            #[trigger] taken[i],
            functions,
            bridge,
        ) by {
            if i > 0 {
                assert(taken[i] == taken.skip(1)[i - 1]);
            }
        }
    }
}

} // verus!
