//! Walks along directed edges between interface indices.

use vstd::prelude::*;

verus! {

/// Where the edges out of each index lead.
pub type Edges = spec_fn(u32) -> Seq<u32>;

/// Whether `n` edges lead from `a` to `b`.
pub open spec fn reaches_in(e: Edges, a: u32, b: u32, n: nat) -> bool
    decreases n,
{
    if n == 0 {
        a == b
    } else {
        exists|m: u32| reaches_in(e, a, m, (n - 1) as nat) && #[trigger] e(m).contains(b)
    }
}

/// Whether any number of edges, none included, lead from `a` to `b`.
pub open spec fn reaches(e: Edges, a: u32, b: u32) -> bool {
    exists|n: nat| #[trigger] reaches_in(e, a, b, n)
}

/// Everything that can be reached from one of `roots`, the roots included.
pub open spec fn flooded(e: Edges, roots: Seq<u32>) -> Set<u32> {
    Set::new(|x: u32| exists|r: u32| roots.contains(r) && #[trigger] reaches(e, r, x))
}

/// Every index reaches itself.
pub proof fn lemma_reaches_self(e: Edges, a: u32)
    ensures
        reaches(e, a, a),
{
    assert(reaches_in(e, a, a, 0));
}

/// One more edge at the end.
pub proof fn lemma_reaches_step(e: Edges, a: u32, m: u32, b: u32)
    requires
        reaches(e, a, m),
        e(m).contains(b),
    ensures
        reaches(e, a, b),
{
    let n = choose|n: nat| #[trigger] reaches_in(e, a, m, n);
    assert(reaches_in(e, a, m, (n + 1 - 1) as nat));
    assert(reaches_in(e, a, b, n + 1));
}

/// What is closed under the edges and holds `a` holds everything `a` reaches.
pub proof fn lemma_closed(e: Edges, s: Set<u32>, a: u32, b: u32)
    requires
        s.contains(a),
        reaches(e, a, b),
        forall|x: u32, y: u32| s.contains(x) && #[trigger] e(x).contains(y) ==> s.contains(y),
    ensures
        s.contains(b),
{
    let n = choose|n: nat| #[trigger] reaches_in(e, a, b, n);
    lemma_closed_in(e, s, a, b, n);
}

proof fn lemma_closed_in(e: Edges, s: Set<u32>, a: u32, b: u32, n: nat)
    requires
        s.contains(a),
        reaches_in(e, a, b, n),
        forall|x: u32, y: u32| s.contains(x) && #[trigger] e(x).contains(y) ==> s.contains(y),
    ensures
        s.contains(b),
    decreases n,
{
    if n > 0 {
        let m = choose|m: u32|
            reaches_in(e, a, m, (n - 1) as nat) && #[trigger] e(m).contains(b);
        lemma_closed_in(e, s, a, m, (n - 1) as nat);
    }
}

/// Two walks make one.
pub proof fn lemma_reaches_trans(e: Edges, a: u32, b: u32, c: u32)
    requires
        reaches(e, a, b),
        reaches(e, b, c),
    ensures
        reaches(e, a, c),
{
    let s = Set::new(|x: u32| reaches(e, a, x));
    assert forall|x: u32, y: u32|
        s.contains(x) && #[trigger] e(x).contains(y) implies s.contains(y) by {
        lemma_reaches_step(e, a, x, y);
    }
    lemma_closed(e, s, b, c);
}

/// A walk along the edges is a walk against them, turned round.
pub proof fn lemma_reaches_back(e: Edges, back: Edges, a: u32, b: u32)
    requires
        reaches(e, a, b),
        forall|x: u32, y: u32| #[trigger] e(x).contains(y) ==> back(y).contains(x),
    ensures
        reaches(back, b, a),
{
    let s = Set::new(|x: u32| reaches(back, x, a));
    lemma_reaches_self(back, a);
    assert forall|x: u32, y: u32|
        s.contains(x) && #[trigger] e(x).contains(y) implies s.contains(y) by {
        lemma_reaches_self(back, y);
        lemma_reaches_step(back, y, y, x);
        lemma_reaches_trans(back, y, x, a);
    }
    lemma_closed(e, s, a, b);
}

} // verus!
