//! What autodetection answers of every candidate: it is taken, or it is said why
//! not.

use vstd::prelude::*;

use crate::keyed::lemma_push_contains;
use crate::sysfs::{first_holder, first_stand, says_sister, weighed, weighed_all, Found};
use crate::text::digits;
use crate::topology::{bridge_over, lists_in_name_order, may_be_uplink, LinkModel};
use crate::topology::detect::{
    detected, first_clash, first_rival, functions_behind, label, looked_at, says_held, says_idle,
    says_taken, says_through, Detected,
};
use crate::topology::walk::begins;

verus! {

/// Whether a line says that the interface of this name was declined.
pub open spec fn says_skip(line: Seq<char>, name: Seq<char>) -> bool {
    begins(line, "skip "@ + name + ": "@)
}

/// Whether one of these lines does.
pub open spec fn skip_line(lines: Seq<Seq<char>>, name: Seq<char>) -> bool {
    exists|i: int| 0 <= i < lines.len() && #[trigger] says_skip(lines[i], name)
}

/// How many of these pairs have a device of this name.
pub open spec fn pairs_of(pairs: Seq<(Seq<char>, Seq<char>)>, name: Seq<char>) -> nat
    decreases pairs.len(),
{
    if pairs.len() == 0 {
        0
    } else {
        pairs_of(pairs.drop_last(), name) + if pairs.last().0 == name {
            1nat
        } else {
            0nat
        }
    }
}

/// Whether an interface got its one answer. A candidate in a bridge is the
/// device of one pair, or there is a line that says why not, and never both. One
/// without a bridge is in no pair, and there is a line where it hands out virtual
/// functions: an idle virtual function is no finding. Of anything else nothing is
/// said.
pub open spec fn one_answer(
    links: Map<u32, LinkModel>,
    pairs: Seq<(Seq<char>, Seq<char>)>,
    skipped: Seq<Seq<char>>,
    x: u32,
    candidate: bool,
) -> bool {
    let taken = pairs_of(pairs, links[x].name);
    let told = skip_line(skipped, links[x].name);
    if !candidate {
        taken == 0 && !told
    } else if bridge_over(links, x) is Some {
        (taken == 1 && !told) || (taken == 0 && told)
    } else {
        taken == 0 && told == (links[x].numvfs > 0)
    }
}

/// Whether every interface has a name of its own, and no blank in it: with one,
/// the line about the one could begin like a line about the other.
pub open spec fn well_named(links: Map<u32, LinkModel>) -> bool {
    &&& forall|x: u32, y: u32|
        #![trigger links[x], links[y]]
        links.contains_key(x) && links.contains_key(y) && links[x].name == links[y].name ==> x == y
    &&& forall|x: u32| #[trigger] links.contains_key(x) ==> unspaced(links[x].name)
}

/// Whether there is no blank in a name.
pub open spec fn unspaced(name: Seq<char>) -> bool {
    forall|i: int| 0 <= i < name.len() ==> #[trigger] name[i] != ' '
}

proof fn lemma_skip_text(m: Seq<char>, rest: Seq<char>, n: Seq<char>)
    requires
        unspaced(m),
        unspaced(n),
    ensures
        says_skip("skip "@ + m + ": "@ + rest, n) <==> m == n,
{
    reveal_strlit("skip ");
    reveal_strlit(": ");
    let l = "skip "@ + m + ": "@ + rest;
    let q = "skip "@ + n + ": "@;
    if m == n {
        assert(l.take(q.len() as int) =~= q);
    }
    if begins(l, q) {
        assert forall|i: int| 0 <= i < q.len() implies q[i] == l[i] by {
            assert(l.take(q.len() as int)[i] == l[i]);
        }
        let (a, b) = (m.len() as int, n.len() as int);
        assert(l[5 + a] == ':' && l[6 + a] == ' ');
        assert(q[5 + b] == ':' && q[6 + b] == ' ');
        if a < b {
            if a + 1 < b {
                assert(q[6 + a] == n[a + 1]);
            }
            assert(q[6 + a] == l[6 + a]);
        }
        if b < a {
            if b + 1 < a {
                assert(l[6 + b] == m[b + 1]);
            }
            assert(q[6 + b] == l[6 + b]);
        }
        assert(m =~= n) by {
            assert forall|i: int| 0 <= i < m.len() implies m[i] == n[i] by {
                assert(l[5 + i] == m[i]);
                assert(q[5 + i] == n[i]);
            }
        }
    }
}

proof fn lemma_through_text(m: Seq<char>, bridge: Seq<char>, port: Seq<char>, n: Seq<char>)
    requires
        unspaced(m),
        unspaced(n),
    ensures
        !says_skip(says_through(m, bridge, port), n),
{
    reveal_strlit("skip ");
    reveal_strlit(": ");
    reveal_strlit(" reaches ");
    let l = says_through(m, bridge, port);
    let q = "skip "@ + n + ": "@;
    if begins(l, q) {
        assert forall|i: int| 0 <= i < q.len() implies q[i] == l[i] by {
            assert(l.take(q.len() as int)[i] == l[i]);
        }
        let (a, b) = (m.len() as int, n.len() as int);
        assert(l[a] == ' ');
        assert(q[4] == ' ' && q[0] == 's' && q[1] == 'k' && q[2] == 'i' && q[3] == 'p');
        if a > 4 {
            assert(l[4] == m[4]);
        }
        assert(a == 4);
        assert(l[5] == 'r' && l[6] == 'e' && l[7] == 'a' && l[8] == 'c' && l[9] == 'h' && l[10]
            == 'e' && l[11] == 's' && l[12] == ' ');
        assert(q[5 + b] == ':' && q[6 + b] == ' ');
        if b > 7 {
            assert(q[12] == n[7]);
        }
        assert(q[5 + b] == l[5 + b]);
        assert(q[6 + b] == l[6 + b]);
    }
}

proof fn lemma_skip_push(lines: Seq<Seq<char>>, l: Seq<char>, n: Seq<char>)
    ensures
        skip_line(lines.push(l), n) <==> skip_line(lines, n) || says_skip(l, n),
{
    let all = lines.push(l);
    if skip_line(lines, n) {
        let i = choose|i: int| 0 <= i < lines.len() && #[trigger] says_skip(lines[i], n);
        assert(says_skip(all[i], n));
    }
    if says_skip(l, n) {
        assert(says_skip(all[lines.len() as int], n));
    }
    if skip_line(all, n) {
        let i = choose|i: int| 0 <= i < all.len() && #[trigger] says_skip(all[i], n);
        if i < lines.len() {
            assert(says_skip(lines[i], n));
        }
    }
}

proof fn lemma_pairs_push(
    pairs: Seq<(Seq<char>, Seq<char>)>,
    p: (Seq<char>, Seq<char>),
    n: Seq<char>,
)
    ensures
        pairs_of(pairs.push(p), n) == pairs_of(pairs, n) + if p.0 == n {
            1nat
        } else {
            0nat
        },
{
    assert(pairs.push(p).drop_last() =~= pairs);
}

proof fn lemma_idle(m: Seq<char>, v: u32, n: Seq<char>)
    requires
        unspaced(m),
        unspaced(n),
    ensures
        says_skip(says_idle(m, v), n) <==> m == n,
{
    let rest = digits(v as nat) + " VF(s) but does not end up in a bridge"@;
    lemma_skip_text(m, rest, n);
    assert(says_idle(m, v) =~= "skip "@ + m + ": "@ + rest);
}

proof fn lemma_held(m: Seq<char>, h: Seq<char>, b: Seq<char>, n: Seq<char>)
    requires
        unspaced(m),
        unspaced(n),
    ensures
        says_skip(says_held(m, h, b), n) <==> m == n,
{
    let rest = h + " already carries "@ + b;
    lemma_skip_text(m, rest, n);
    assert(says_held(m, h, b) =~= "skip "@ + m + ": "@ + rest);
}

proof fn lemma_taken(m: Seq<char>, h: Seq<char>, b: Seq<char>, n: Seq<char>)
    requires
        unspaced(m),
        unspaced(n),
    ensures
        says_skip(says_taken(m, h, b), n) <==> m == n,
{
    let rest = h + " of the same function already carries "@ + b
        + " - two vports of one eSwitch cannot both claim the same addresses"@;
    lemma_skip_text(m, rest, n);
    assert(says_taken(m, h, b) =~= "skip "@ + m + ": "@ + rest);
}

proof fn lemma_sister(m: Seq<char>, t: Seq<char>, p: Seq<char>, b: Seq<char>, n: Seq<char>)
    requires
        unspaced(m),
        unspaced(n),
    ensures
        says_skip(says_sister(m, t, p, b), n) <==> m == n,
{
    let rest = t + " of the same "@ + p + " already carries "@ + b
        + " - two vports of one eSwitch cannot both claim the same addresses"@;
    lemma_skip_text(m, rest, n);
    assert(says_sister(m, t, p, b) =~= "skip "@ + m + ": "@ + rest);
}

/// What one more interface changes for the answers about a name: nothing where
/// the name is another's.
proof fn lemma_looked(links: Map<u32, LinkModel>, d: Detected, x: u32, n: Seq<char>)
    requires
        unspaced(n),
        unspaced(links[x].name),
    ensures
        links[x].name != n ==> pairs_of(looked_at(links, d, x).pairs, n) == pairs_of(d.pairs, n)
            && skip_line(looked_at(links, d, x).skipped, n) == skip_line(d.skipped, n),
        links[x].name == n && pairs_of(d.pairs, n) == 0 && !skip_line(d.skipped, n) ==> one_answer(
            links,
            looked_at(links, d, x).pairs,
            looked_at(links, d, x).skipped,
            x,
            may_be_uplink(links, x),
        ),
{
    let name = links[x].name;
    if may_be_uplink(links, x) {
        match bridge_over(links, x) {
            None => {
                let l = says_idle(name, links[x].numvfs);
                lemma_idle(name, links[x].numvfs, n);
                lemma_skip_push(d.skipped, l, n);
            },
            Some((bridge, port)) => {
                let fs = functions_behind(links, x);
                let b = label(links, bridge);
                if exists|f: u32| first_rival(links, x, bridge, f) {
                    let f = choose|f: u32| first_rival(links, x, bridge, f);
                    lemma_held(name, label(links, f), b, n);
                    lemma_skip_push(d.skipped, says_held(name, label(links, f), b), n);
                } else {
                    match first_clash(d.taken, fs, bridge) {
                        Some(c) => {
                            lemma_taken(name, c.2, b, n);
                            lemma_skip_push(d.skipped, says_taken(name, c.2, b), n);
                        },
                        None => {
                            lemma_pairs_push(d.pairs, (name, b), n);
                            lemma_through_text(name, b, label(links, port), n);
                            lemma_skip_push(
                                d.skipped,
                                says_through(name, b, label(links, port)),
                                n,
                            );
                        },
                    }
                }
            },
        }
    }
}

proof fn lemma_answers(links: Map<u32, LinkModel>, order: Seq<u32>, x: u32)
    requires
        well_named(links),
        order.no_duplicates(),
        forall|i: int| 0 <= i < order.len() ==> links.contains_key(#[trigger] order[i]),
        links.contains_key(x),
    ensures
        order.contains(x) ==> one_answer(
            links,
            detected(links, order).pairs,
            detected(links, order).skipped,
            x,
            may_be_uplink(links, x),
        ),
        !order.contains(x) ==> pairs_of(detected(links, order).pairs, links[x].name) == 0
            && !skip_line(detected(links, order).skipped, links[x].name),
    decreases order.len(),
{
    if order.len() > 0 {
        let front = order.drop_last();
        let y = order.last();
        assert(order[order.len() - 1] == y);
        assert forall|i: int| 0 <= i < front.len() implies links.contains_key(
            #[trigger] front[i],
        ) by {
            assert(front[i] == order[i]);
        }
        lemma_answers(links, front, x);
        lemma_order(order, x);
        lemma_looked(links, detected(links, front), y, links[x].name);
        if y != x {
            assert(links[y].name != links[x].name);
        }
    }
}

proof fn lemma_order(order: Seq<u32>, x: u32)
    requires
        order.len() > 0,
        order.no_duplicates(),
    ensures
        order.contains(x) <==> order.drop_last().contains(x) || order.last() == x,
        order.last() == x ==> !order.drop_last().contains(x),
{
    let front = order.drop_last();
    assert(order =~= front.push(order.last()));
    lemma_push_contains(front, order.last());
    if front.contains(order.last()) {
        let i = choose|i: int| 0 <= i < front.len() && front[i] == order.last();
        assert(order[i] == order[order.len() - 1]);
    }
}

/// Every candidate gets one answer: in a bridge it is the device of one pair, or
/// a line says why not, never both; without one it is in no pair, and a line says
/// so where it hands out virtual functions. Nothing is said of any other
/// interface.
pub proof fn every_candidate_is_answered(links: Map<u32, LinkModel>, order: Seq<u32>, x: u32)
    requires
        well_named(links),
        lists_in_name_order(order, links, false),
        links.contains_key(x),
    ensures
        one_answer(
            links,
            detected(links, order).pairs,
            detected(links, order).skipped,
            x,
            may_be_uplink(links, x),
        ),
{
    assert forall|i: int| 0 <= i < order.len() implies links.contains_key(#[trigger] order[i]) by {
        assert(order.contains(order[i]));
    }
    assert(order.contains(x));
    lemma_answers(links, order, x);
}

/// Whether the walk over `/sys` alone takes an interface for a candidate.
pub open spec fn weighs(links: Map<u32, LinkModel>, x: u32) -> bool {
    links[x].numvfs > 0 || links[x].physfn is Some
}

proof fn lemma_weighed(links: Map<u32, LinkModel>, d: Found, x: u32, n: Seq<char>)
    requires
        unspaced(n),
        unspaced(links[x].name),
    ensures
        links[x].name != n ==> pairs_of(weighed(links, d, x).pairs, n) == pairs_of(d.pairs, n)
            && skip_line(weighed(links, d, x).skipped, n) == skip_line(d.skipped, n),
        links[x].name == n && pairs_of(d.pairs, n) == 0 && !skip_line(d.skipped, n) ==> one_answer(
            links,
            weighed(links, d, x).pairs,
            weighed(links, d, x).skipped,
            x,
            weighs(links, x),
        ),
{
    let l = links[x];
    let name = l.name;
    if weighs(links, x) {
        match bridge_over(links, x) {
            None => {
                lemma_idle(name, l.numvfs, n);
                lemma_skip_push(d.skipped, says_idle(name, l.numvfs), n);
            },
            Some((bridge, port)) => {
                let b = label(links, bridge);
                lemma_pairs_push(d.pairs, (name, b), n);
                lemma_through_text(name, b, label(links, port), n);
                lemma_skip_push(d.skipped, says_through(name, b, label(links, port)), n);
                if let Some(pf) = l.physfn {
                    match first_holder(links, l.pf_netdevs, bridge) {
                        Some(h) => {
                            lemma_held(name, label(links, h), b, n);
                            lemma_skip_push(d.skipped, says_held(name, label(links, h), b), n);
                        },
                        None => {
                            if let Some(t) = first_stand(d.taken, pf, bridge) {
                                lemma_sister(name, t, label(links, pf), b, n);
                                lemma_skip_push(
                                    d.skipped,
                                    says_sister(name, t, label(links, pf), b),
                                    n,
                                );
                            }
                        },
                    }
                }
            },
        }
    }
}

proof fn lemma_weighed_answers(links: Map<u32, LinkModel>, order: Seq<u32>, x: u32)
    requires
        well_named(links),
        order.no_duplicates(),
        forall|i: int| 0 <= i < order.len() ==> links.contains_key(#[trigger] order[i]),
        links.contains_key(x),
    ensures
        order.contains(x) ==> one_answer(
            links,
            weighed_all(links, order).pairs,
            weighed_all(links, order).skipped,
            x,
            weighs(links, x),
        ),
        !order.contains(x) ==> pairs_of(weighed_all(links, order).pairs, links[x].name) == 0
            && !skip_line(weighed_all(links, order).skipped, links[x].name),
    decreases order.len(),
{
    if order.len() > 0 {
        let front = order.drop_last();
        let y = order.last();
        assert(order[order.len() - 1] == y);
        assert forall|i: int| 0 <= i < front.len() implies links.contains_key(
            #[trigger] front[i],
        ) by {
            assert(front[i] == order[i]);
        }
        lemma_weighed_answers(links, front, x);
        lemma_order(order, x);
        lemma_weighed(links, weighed_all(links, front), y, links[x].name);
        if y != x {
            assert(links[y].name != links[x].name);
        }
    }
}

/// The same of the walk over `/sys` alone.
pub proof fn every_weighed_candidate_is_answered(
    links: Map<u32, LinkModel>,
    order: Seq<u32>,
    x: u32,
)
    requires
        well_named(links),
        lists_in_name_order(order, links, false),
        links.contains_key(x),
    ensures
        one_answer(
            links,
            weighed_all(links, order).pairs,
            weighed_all(links, order).skipped,
            x,
            weighs(links, x),
        ),
{
    assert forall|i: int| 0 <= i < order.len() implies links.contains_key(#[trigger] order[i]) by {
        assert(order.contains(order[i]));
    }
    assert(order.contains(x));
    lemma_weighed_answers(links, order, x);
}

} // verus!
