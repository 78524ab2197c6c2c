//! The orders that lists are put in, and putting them in order.

use vstd::prelude::*;
use vstd::utf8::encode_utf8;

verus! {

/// Byte strings in dictionary order.
pub open spec fn lex_le(a: Seq<u8>, b: Seq<u8>) -> bool
    decreases a.len(),
{
    if a.len() == 0 {
        true
    } else if b.len() == 0 {
        false
    } else if a[0] != b[0] {
        a[0] < b[0]
    } else {
        lex_le(a.skip(1), b.skip(1))
    }
}

/// Of two byte strings one comes first.
pub proof fn lemma_lex_total(a: Seq<u8>, b: Seq<u8>)
    ensures
        lex_le(a, b) || lex_le(b, a),
    decreases a.len(),
{
    if a.len() > 0 && b.len() > 0 && a[0] == b[0] {
        lemma_lex_total(a.skip(1), b.skip(1));
    }
}

/// What comes before something that comes before a third comes before the third.
pub proof fn lemma_lex_trans(a: Seq<u8>, b: Seq<u8>, c: Seq<u8>)
    requires
        lex_le(a, b),
        lex_le(b, c),
    ensures
        lex_le(a, c),
    decreases a.len(),
{
    if a.len() > 0 && b.len() > 0 && c.len() > 0 && a[0] == b[0] && b[0] == c[0] {
        lemma_lex_trans(a.skip(1), b.skip(1), c.skip(1));
    }
}

/// Two byte strings that come before each other are the same.
pub proof fn lemma_lex_same(a: Seq<u8>, b: Seq<u8>)
    requires
        lex_le(a, b),
        lex_le(b, a),
    ensures
        a == b,
    decreases a.len(),
{
    if a.len() > 0 {
        lemma_lex_same(a.skip(1), b.skip(1));
        assert forall|i: int| 0 <= i < a.len() implies a[i] == b[i] by {
            if i > 0 {
                assert(a.skip(1)[i - 1] == b.skip(1)[i - 1]);
            }
        }
    }
    assert(a =~= b);
}

/// Whether `a` comes before `b` in dictionary order, or is the same.
fn bytes_le(a: &[u8], b: &[u8]) -> (r: bool)
    ensures
        r == lex_le(a@, b@),
{
    let mut i: usize = 0;
    assert(a@.skip(0) =~= a@);
    assert(b@.skip(0) =~= b@);
    while i < a.len() && i < b.len()
        invariant
            i <= a@.len(),
            i <= b@.len(),
            lex_le(a@, b@) == lex_le(a@.skip(i as int), b@.skip(i as int)),
        decreases a@.len() - i,
    {
        if a[i] != b[i] {
            return a[i] < b[i];
        }
        assert(a@.skip(i as int).skip(1) =~= a@.skip(i + 1));
        assert(b@.skip(i as int).skip(1) =~= b@.skip(i + 1));
        i += 1;
    }
    i == a.len()
}

/// A type with an order on it.
pub trait Ordered: Sized {
    /// Whether `self` comes before `other`, or level with it.
    spec fn leq(&self, other: &Self) -> bool;

    proof fn total(a: &Self, b: &Self)
        ensures
            a.leq(b) || b.leq(a),
    ;

    proof fn trans(a: &Self, b: &Self, c: &Self)
        requires
            a.leq(b),
            b.leq(c),
        ensures
            a.leq(c),
    ;

    fn comes_first(&self, other: &Self) -> (r: bool)
        ensures
            r == self.leq(other),
    ;
}

impl Ordered for u32 {
    open spec fn leq(&self, other: &Self) -> bool {
        *self <= *other
    }

    proof fn total(a: &Self, b: &Self) {
    }

    proof fn trans(a: &Self, b: &Self, c: &Self) {
    }

    fn comes_first(&self, other: &Self) -> (r: bool) {
        *self <= *other
    }
}

/// Names in the order of their bytes.
pub open spec fn name_le(a: Seq<char>, b: Seq<char>) -> bool {
    lex_le(encode_utf8(a), encode_utf8(b))
}

impl Ordered for String {
    open spec fn leq(&self, other: &Self) -> bool {
        name_le(self@, other@)
    }

    proof fn total(a: &Self, b: &Self) {
        lemma_lex_total(encode_utf8(a@), encode_utf8(b@));
    }

    proof fn trans(a: &Self, b: &Self, c: &Self) {
        lemma_lex_trans(encode_utf8(a@), encode_utf8(b@), encode_utf8(c@));
    }

    fn comes_first(&self, other: &Self) -> (r: bool) {
        bytes_le(self.as_str().as_bytes(), other.as_str().as_bytes())
    }
}

/// An address with the moment it was last heard of.
pub type Stamped = (u64, [u8; 6]);

/// Earlier moments first; at one moment the addresses in the order of their bytes.
pub open spec fn stamp_le(a: Stamped, b: Stamped) -> bool {
    a.0 < b.0 || (a.0 == b.0 && lex_le(a.1@, b.1@))
}

impl Ordered for Stamped {
    open spec fn leq(&self, other: &Self) -> bool {
        stamp_le(*self, *other)
    }

    proof fn total(a: &Self, b: &Self) {
        lemma_lex_total(a.1@, b.1@);
    }

    proof fn trans(a: &Self, b: &Self, c: &Self) {
        if a.0 == b.0 && b.0 == c.0 {
            lemma_lex_trans(a.1@, b.1@, c.1@);
        }
    }

    fn comes_first(&self, other: &Self) -> (r: bool) {
        self.0 < other.0 || (self.0 == other.0 && bytes_le(self.1.as_slice(), other.1.as_slice()))
    }
}

impl Ordered for [u8; 6] {
    open spec fn leq(&self, other: &Self) -> bool {
        lex_le(self@, other@)
    }

    proof fn total(a: &Self, b: &Self) {
        lemma_lex_total(a@, b@);
    }

    proof fn trans(a: &Self, b: &Self, c: &Self) {
        lemma_lex_trans(a@, b@, c@);
    }

    fn comes_first(&self, other: &Self) -> (r: bool) {
        bytes_le(self.as_slice(), other.as_slice())
    }
}

/// Whether a list is in order.
pub open spec fn in_order<T: Ordered>(s: Seq<T>) -> bool {
    forall|i: int, j: int| #![trigger s[i], s[j]] 0 <= i <= j < s.len() ==> s[i].leq(&s[j])
}

/// Whether a list is in order, the last first.
pub open spec fn in_reverse<T: Ordered>(s: Seq<T>) -> bool {
    forall|i: int, j: int| #![trigger s[i], s[j]] 0 <= i <= j < s.len() ==> s[j].leq(&s[i])
}

/// Whether everything in one list may stand before everything in another.
pub open spec fn all_before<T: Ordered>(a: Seq<T>, b: Seq<T>) -> bool {
    forall|i: int, j: int|
        #![trigger a[i], b[j]]
        0 <= i < a.len() && 0 <= j < b.len() ==> a[i].leq(&b[j])
}

/// The same entries the other way round.
fn turned<T: Ordered>(v: Vec<T>) -> (r: Vec<T>)
    requires
        in_reverse(v@),
    ensures
        in_order(r@),
        r@.to_multiset() == v@.to_multiset(),
{
    let ghost given = v@;
    let mut rest = v;
    let mut out: Vec<T> = Vec::new();
    proof {
        broadcast use vstd::seq_lib::group_to_multiset_ensures;

        assert(out@.to_multiset().add(rest@.to_multiset()) =~= given.to_multiset());
    }
    while rest.len() > 0
        invariant
            in_order(out@),
            in_reverse(rest@),
            all_before(out@, rest@),
            out@.to_multiset().add(rest@.to_multiset()) == given.to_multiset(),
        decreases rest@.len(),
    {
        let ghost rest0 = rest@;
        let ghost out0 = out@;
        let x = rest.pop().unwrap();
        out.push(x);
        proof {
            let s = out@;
            let end = rest0.len() - 1;
            assert(rest0[end] == x);
            T::total(&x, &x);
            assert forall|i: int, j: int|
                #![trigger s[i], s[j]]
                0 <= i <= j < s.len() implies s[i].leq(&s[j]) by {
                if j < out0.len() {
                    assert(out0[i].leq(&out0[j]));
                } else if i < out0.len() {
                    assert(out0[i].leq(&rest0[end]));
                }
            }
            assert forall|i: int, j: int|
                #![trigger rest@[i], rest@[j]]
                0 <= i <= j < rest@.len() implies rest@[j].leq(&rest@[i]) by {
                assert(rest0[j].leq(&rest0[i]));
            }
            assert forall|i: int, j: int|
                #![trigger s[i], rest@[j]]
                0 <= i < s.len() && 0 <= j < rest@.len() implies s[i].leq(&rest@[j]) by {
                if i < out0.len() {
                    assert(out0[i].leq(&rest0[j]));
                } else {
                    assert(rest0[end].leq(&rest0[j]));
                }
            }
            assert(rest0 =~= rest@.push(x));
            lemma_moved(out0, rest0, s, rest@, x);
        }
    }
    proof {
        broadcast use vstd::seq_lib::group_to_multiset_ensures;

        assert(rest@ =~= Seq::empty());
        assert(out@.to_multiset() =~= given.to_multiset());
    }
    out
}

/// An entry moved from the end of one list to the end of another.
proof fn lemma_moved<T>(out0: Seq<T>, rest0: Seq<T>, out: Seq<T>, rest: Seq<T>, x: T)
    requires
        out == out0.push(x),
        rest0 == rest.push(x),
    ensures
        out.to_multiset().add(rest.to_multiset()) == out0.to_multiset().add(rest0.to_multiset()),
{
    broadcast use vstd::seq_lib::group_to_multiset_ensures;
    broadcast use vstd::multiset::group_multiset_axioms;

    assert(out.to_multiset() =~= out0.to_multiset().insert(x));
    assert(rest0.to_multiset() =~= rest.to_multiset().insert(x));
    assert(out.to_multiset().add(rest.to_multiset()) =~= out0.to_multiset().add(
        rest0.to_multiset(),
    ));
}

/// The last of a list in order, put behind entries that are all behind both
/// lists.
proof fn lemma_taken<T: Ordered>(
    out0: Seq<T>,
    a0: Seq<T>,
    b: Seq<T>,
    out: Seq<T>,
    a: Seq<T>,
    x: T,
)
    requires
        in_reverse(out0),
        in_order(a0),
        in_order(b),
        all_before(a0, out0),
        all_before(b, out0),
        out == out0.push(x),
        a0 == a.push(x),
        b.len() == 0 || b.last().leq(&x),
    ensures
        in_reverse(out),
        in_order(a),
        all_before(a, out),
        all_before(b, out),
{
    let end = a0.len() - 1;
    assert(a0[end] == x);
    T::total(&x, &x);
    assert forall|i: int, j: int|
        #![trigger out[i], out[j]]
        0 <= i <= j < out.len() implies out[j].leq(&out[i]) by {
        if j < out0.len() {
            assert(out0[j].leq(&out0[i]));
        } else if i < out0.len() {
            assert(a0[end].leq(&out0[i]));
        }
    }
    assert forall|i: int, j: int| #![trigger a[i], a[j]] 0 <= i <= j < a.len() implies a[i].leq(
        &a[j],
    ) by {
        assert(a0[i].leq(&a0[j]));
    }
    assert forall|i: int, j: int|
        #![trigger a[i], out[j]]
        0 <= i < a.len() && 0 <= j < out.len() implies a[i].leq(&out[j]) by {
        if j < out0.len() {
            assert(a0[i].leq(&out0[j]));
        } else {
            assert(a0[i].leq(&a0[end]));
        }
    }
    assert forall|i: int, j: int|
        #![trigger b[i], out[j]]
        0 <= i < b.len() && 0 <= j < out.len() implies b[i].leq(&out[j]) by {
        if j < out0.len() {
            assert(b[i].leq(&out0[j]));
        } else {
            assert(b[i].leq(&b[b.len() - 1]));
            T::trans(&b[i], &b.last(), &x);
        }
    }
}

/// The entries of two lists in order, in order.
fn merged<T: Ordered>(a: Vec<T>, b: Vec<T>) -> (r: Vec<T>)
    requires
        in_order(a@),
        in_order(b@),
    ensures
        in_order(r@),
        r@.to_multiset() == a@.to_multiset().add(b@.to_multiset()),
{
    let ghost given = a@.to_multiset().add(b@.to_multiset());
    let mut a = a;
    let mut b = b;
    let mut out: Vec<T> = Vec::new();
    proof {
        broadcast use vstd::seq_lib::group_to_multiset_ensures;

        assert(out@.to_multiset().add(a@.to_multiset()).add(b@.to_multiset()) =~= given);
    }
    while a.len() > 0 || b.len() > 0
        invariant
            in_order(a@),
            in_order(b@),
            in_reverse(out@),
            all_before(a@, out@),
            all_before(b@, out@),
            out@.to_multiset().add(a@.to_multiset()).add(b@.to_multiset()) == given,
        decreases a@.len() + b@.len(),
    {
        let ghost (a0, b0, out0) = (a@, b@, out@);
        let from_a = b.len() == 0 || (a.len() > 0 && !a[a.len() - 1].comes_first(&b[b.len() - 1]));
        if from_a {
            let x = a.pop().unwrap();
            out.push(x);
            proof {
                assert(a0 =~= a@.push(x));
                if b0.len() > 0 {
                    T::total(&a0.last(), &b0.last());
                }
                lemma_taken(out0, a0, b0, out@, a@, x);
                lemma_moved(out0, a0, out@, a@, x);
            }
        } else {
            let x = b.pop().unwrap();
            out.push(x);
            proof {
                assert(b0 =~= b@.push(x));
                lemma_taken(out0, b0, a0, out@, b@, x);
                lemma_moved(out0, b0, out@, b@, x);
                let (o, p, q) = (out@.to_multiset(), a@.to_multiset(), b@.to_multiset());
                assert(o.add(p).add(q) =~= o.add(q).add(p));
                assert(out0.to_multiset().add(p).add(b0.to_multiset())
                    =~= out0.to_multiset().add(b0.to_multiset()).add(p));
            }
        }
    }
    proof {
        broadcast use vstd::seq_lib::group_to_multiset_ensures;

        assert(a@ =~= Seq::empty());
        assert(b@ =~= Seq::empty());
        assert(out@.to_multiset() =~= given);
    }
    turned(out)
}

/// The same entries, in order: each half is put in order, and the two merged.
fn halved<T: Ordered>(v: Vec<T>) -> (r: Vec<T>)
    ensures
        in_order(r@),
        r@.to_multiset() == v@.to_multiset(),
    decreases v@.len(),
{
    if v.len() < 2 {
        proof {
            if v@.len() == 1 {
                T::total(&v@[0], &v@[0]);
            }
        }
        return v;
    }
    let ghost given = v@;
    let half: usize = v.len() / 2;
    let mut first = v;
    let second = first.split_off(half);
    proof {
        vstd::seq_lib::lemma_multiset_commutative(first@, second@);
        assert(first@ + second@ =~= given);
    }
    merged(halved(first), halved(second))
}

/// The same entries, in order.
pub fn sorted<T: Ordered>(v: Vec<T>) -> (r: Vec<T>)
    ensures
        in_order(r@),
        r@.to_multiset() == v@.to_multiset(),
        r@.len() == v@.len(),
        forall|x: T| #[trigger] r@.contains(x) <==> v@.contains(x),
        v@.no_duplicates() ==> r@.no_duplicates(),
{
    let ghost given = v@;
    let out = halved(v);
    proof {
        broadcast use vstd::seq_lib::group_to_multiset_ensures;

        assert forall|x: T| #[trigger] out@.contains(x) <==> given.contains(x) by {
            assert(out@.contains(x) <==> out@.to_multiset().count(x) > 0);
            assert(given.contains(x) <==> given.to_multiset().count(x) > 0);
        }
        if given.no_duplicates() {
            given.lemma_multiset_has_no_duplicates();
            out@.lemma_multiset_has_no_duplicates_conv();
        }
        assert(out@.len() == out@.to_multiset().len());
        assert(given.len() == given.to_multiset().len());
    }
    out
}

} // verus!
