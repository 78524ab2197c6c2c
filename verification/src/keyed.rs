//! Sets and maps keyed by what a key stands for rather than by how it is held.
//!
//! The keys of this crate are hardware addresses, interface indices and
//! interface names. Each of them has a mathematical value (its *model*); two
//! keys are the same key exactly when their models are equal. The collections
//! here are vectors whose entries never repeat a model, and their views are a
//! `Set` and a `Map` over the models. Addresses, indices and every name that the
//! kernel would give an interface have numbers, no two the same; a hash map
//! remembers where in the vector each number stands, so that such a key is found,
//! put in and taken out without a search. Longer names are compared one by one.

use std::collections::HashMap;

use vstd::prelude::*;

use crate::text::chars_of;

verus! {

/// A key with a mathematical value that decides whether two keys are the same.
pub trait Key: Sized {
    /// What the key stands for.
    type Model;

    /// The value of this key.
    spec fn model(&self) -> Self::Model;

    /// Whether two keys stand for the same thing.
    fn same(&self, other: &Self) -> (r: bool)
        ensures
            r == (self.model() == other.model()),
    ;

    /// A second key that stands for the same thing.
    fn dup(&self) -> (r: Self)
        ensures
            r.model() == self.model(),
    ;

    /// The number of this key, where keys of its kind have one each.
    spec fn number(&self) -> Option<u128>;

    /// Keys that stand for the same thing have the same number, and the other
    /// way round.
    proof fn lemma_number(&self, other: &Self)
        ensures
            self.model() == other.model() ==> self.number() == other.number(),
            self.number() is Some && self.number() == other.number() ==> self.model()
                == other.model(),
    ;

    /// The number of this key, where keys of its kind have one each.
    fn numbered(&self) -> (r: Option<u128>)
        ensures
            r == self.number(),
    ;
}

impl Key for u32 {
    type Model = u32;

    open spec fn model(&self) -> u32 {
        *self
    }

    fn same(&self, other: &Self) -> (r: bool) {
        *self == *other
    }

    fn dup(&self) -> (r: Self) {
        *self
    }

    open spec fn number(&self) -> Option<u128> {
        Some(*self as u128)
    }

    proof fn lemma_number(&self, other: &Self) {
    }

    fn numbered(&self) -> (r: Option<u128>) {
        Some(*self as u128)
    }
}

impl Key for String {
    type Model = Seq<char>;

    open spec fn model(&self) -> Seq<char> {
        self@
    }

    fn same(&self, other: &Self) -> (r: bool) {
        *self == *other
    }

    fn dup(&self) -> (r: Self) {
        self.clone()
    }

    open spec fn number(&self) -> Option<u128> {
        if short_name(self@) {
            Some(name_number(self@) as u128)
        } else {
            None
        }
    }

    proof fn lemma_number(&self, other: &Self) {
        if short_name(self@) && short_name(other@) {
            lemma_name_fits(self@);
            lemma_name_fits(other@);
            if name_number(self@) == name_number(other@) {
                lemma_name_number(self@, other@);
            }
        }
    }

    fn numbered(&self) -> (r: Option<u128>) {
        let cs = chars_of(self);
        if cs.len() > SHORT_NAME {
            return None;
        }
        let mut n: u128 = 1;
        let mut i: usize = 0;
        assert(cs@.take(0) =~= Seq::empty());
        while i < cs.len()
            invariant
                i <= cs@.len() <= SHORT_NAME,
                cs@ == self@,
                n == name_number(cs@.take(i as int)),
                short_name(cs@.take(i as int)),
            decreases cs@.len() - i,
        {
            let c = cs[i] as u32;
            proof {
                let next = cs@.take(i + 1);
                assert(next.drop_last() =~= cs@.take(i as int));
                assert(next.last() == cs@[i as int]);
            }
            if c >= 256 {
                return None;
            }
            proof {
                let next = cs@.take(i + 1);
                assert forall|j: int| 0 <= j < next.len() implies (#[trigger] next[j] as u32)
                    < 256 by {
                    if j < i {
                        assert(cs@.take(i as int)[j] == next[j]);
                    }
                }
                lemma_name_fits(next);
            }
            n = n * 256 + c as u128;
            i += 1;
        }
        assert(cs@.take(i as int) =~= cs@);
        Some(n)
    }
}

/// How long a name may be that has a number. The kernel gives no interface a
/// longer one.
pub const SHORT_NAME: usize = 15;

/// Whether a name has a number: it is short, and each character is one byte.
pub open spec fn short_name(s: Seq<char>) -> bool {
    s.len() <= SHORT_NAME && forall|i: int| 0 <= i < s.len() ==> (#[trigger] s[i] as u32) < 256
}

/// The characters of a name read as one number, behind a one.
pub open spec fn name_number(s: Seq<char>) -> nat
    decreases s.len(),
{
    if s.len() == 0 {
        1
    } else {
        name_number(s.drop_last()) * 256 + (s.last() as u32) as nat
    }
}

/// The largest number of a name of this length, and a little more.
spec fn name_bound(len: nat) -> nat
    decreases len,
{
    if len == 0 {
        2
    } else {
        name_bound((len - 1) as nat) * 256
    }
}

proof fn lemma_name_below(s: Seq<char>)
    requires
        forall|i: int| 0 <= i < s.len() ==> (#[trigger] s[i] as u32) < 256,
    ensures
        1 <= name_number(s) < name_bound(s.len()),
        s.len() > 0 ==> name_number(s) >= 256,
    decreases s.len(),
{
    if s.len() > 0 {
        let front = s.drop_last();
        assert forall|i: int| 0 <= i < front.len() implies (#[trigger] front[i] as u32) < 256 by {
            assert(front[i] == s[i]);
        }
        lemma_name_below(front);
        assert((s[s.len() - 1] as u32) < 256);
    }
}

/// The number of a short name fits.
proof fn lemma_name_fits(s: Seq<char>)
    requires
        short_name(s),
    ensures
        name_number(s) <= u128::MAX,
{
    lemma_name_below(s);
    reveal_with_fuel(name_bound, 17);
    assert(name_bound(15) <= u128::MAX);
    lemma_bound_grows(s.len(), 15);
}

proof fn lemma_bound_grows(a: nat, b: nat)
    requires
        a <= b,
    ensures
        name_bound(a) <= name_bound(b),
        name_bound(b) > 0,
    decreases b,
{
    if a < b {
        lemma_bound_grows(a, (b - 1) as nat);
    } else if b > 0 {
        lemma_bound_grows((a - 1) as nat, (b - 1) as nat);
    }
}

proof fn lemma_char_number(a: char, b: char)
    requires
        a as u32 == b as u32,
    ensures
        a == b,
{
}

/// No two names are the same number.
proof fn lemma_name_number(a: Seq<char>, b: Seq<char>)
    requires
        forall|i: int| 0 <= i < a.len() ==> (#[trigger] a[i] as u32) < 256,
        forall|i: int| 0 <= i < b.len() ==> (#[trigger] b[i] as u32) < 256,
        name_number(a) == name_number(b),
    ensures
        a == b,
    decreases a.len(),
{
    lemma_name_below(a);
    lemma_name_below(b);
    if a.len() > 0 && b.len() > 0 {
        let (fa, fb) = (a.drop_last(), b.drop_last());
        assert forall|i: int| 0 <= i < fa.len() implies (#[trigger] fa[i] as u32) < 256 by {
            assert(fa[i] == a[i]);
        }
        assert forall|i: int| 0 <= i < fb.len() implies (#[trigger] fb[i] as u32) < 256 by {
            assert(fb[i] == b[i]);
        }
        assert((a[a.len() - 1] as u32) < 256);
        assert((b[b.len() - 1] as u32) < 256);
        assert(name_number(fa) == name_number(fb));
        lemma_char_number(a.last(), b.last());
        lemma_name_number(fa, fb);
        assert(a =~= fa.push(a.last()));
        assert(b =~= fb.push(b.last()));
    } else {
        assert(a =~= b);
    }
}

/// The bytes of an address read as one number.
pub open spec fn mac_number(m: [u8; 6]) -> int {
    ((((m[0] * 256 + m[1]) * 256 + m[2]) * 256 + m[3]) * 256 + m[4]) * 256 + m[5]
}

/// No two addresses are the same number.
proof fn lemma_mac_number(a: [u8; 6], b: [u8; 6])
    requires
        mac_number(a) == mac_number(b),
    ensures
        a == b,
{
    let a1 = a[0] * 256 + a[1];
    let a2 = a1 * 256 + a[2];
    let a3 = a2 * 256 + a[3];
    let a4 = a3 * 256 + a[4];
    let b1 = b[0] * 256 + b[1];
    let b2 = b1 * 256 + b[2];
    let b3 = b2 * 256 + b[3];
    let b4 = b3 * 256 + b[4];
    assert(a4 == b4 && a[5] == b[5]);
    assert(a3 == b3 && a[4] == b[4]);
    assert(a2 == b2 && a[3] == b[3]);
    assert(a1 == b1 && a[2] == b[2]);
    assert(a[0] == b[0] && a[1] == b[1]);
    assert(a =~= b);
}

impl Key for [u8; 6] {
    type Model = [u8; 6];

    open spec fn model(&self) -> [u8; 6] {
        *self
    }

    fn same(&self, other: &Self) -> (r: bool) {
        let mut i: usize = 0;
        while i < 6
            invariant
                0 <= i <= 6,
                forall|j: int| 0 <= j < i ==> self[j] == other[j],
            decreases 6 - i,
        {
            if self[i] != other[i] {
                return false;
            }
            i += 1;
        }
        assert(*self =~= *other);
        true
    }

    fn dup(&self) -> (r: Self) {
        *self
    }

    open spec fn number(&self) -> Option<u128> {
        Some(mac_number(*self) as u128)
    }

    proof fn lemma_number(&self, other: &Self) {
        assert(0 <= mac_number(*self) <= u128::MAX);
        assert(0 <= mac_number(*other) <= u128::MAX);
        if mac_number(*self) == mac_number(*other) {
            lemma_mac_number(*self, *other);
        }
    }

    fn numbered(&self) -> (r: Option<u128>) {
        let mut n: u128 = self[0] as u128;
        n = n * 256 + self[1] as u128;
        n = n * 256 + self[2] as u128;
        n = n * 256 + self[3] as u128;
        n = n * 256 + self[4] as u128;
        n = n * 256 + self[5] as u128;
        Some(n)
    }
}

/// The models of a list of keys, in list order.
pub open spec fn models<K: Key>(s: Seq<K>) -> Seq<K::Model> {
    s.map_values(|k: K| k.model())
}

/// The set of a list's models, key by key.
pub proof fn lemma_listed<K: Key>(s: Seq<K>)
    ensures
        forall|i: int| 0 <= i < s.len() ==> models(s).to_set().contains((#[trigger] s[i]).model()),
        forall|m: K::Model| #[trigger]
            models(s).to_set().contains(m) ==> exists|i: int|
                0 <= i < s.len() && (#[trigger] s[i]).model() == m,
{
    assert forall|i: int| 0 <= i < s.len() implies models(s).to_set().contains(
        (#[trigger] s[i]).model(),
    ) by {
        assert(models(s)[i] == s[i].model());
    }
    assert forall|m: K::Model| #[trigger] models(s).to_set().contains(m) implies exists|i: int|
        0 <= i < s.len() && (#[trigger] s[i]).model() == m by {
        let i = choose|i: int| 0 <= i < models(s).len() && models(s)[i] == m;
        assert(s[i].model() == m);
    }
}

/// An address is its own model.
pub proof fn lemma_mac_models(s: Seq<[u8; 6]>)
    ensures
        models(s) == s,
{
    assert(models(s) =~= s);
}

/// An index is its own model.
pub proof fn lemma_index_models(s: Seq<u32>)
    ensures
        models(s) == s,
{
    assert(models(s) =~= s);
}

/// What a list holds after one more entry.
pub proof fn lemma_push_contains<T>(s: Seq<T>, x: T)
    ensures
        forall|y: T| #[trigger] s.push(x).contains(y) <==> s.contains(y) || y == x,
{
    assert forall|y: T| #[trigger] s.push(x).contains(y) <==> s.contains(y) || y == x by {
        if s.contains(y) {
            let i = choose|i: int| 0 <= i < s.len() && s[i] == y;
            assert(s.push(x)[i] == y);
        }
        if y == x {
            assert(s.push(x)[s.len() as int] == y);
        }
        if s.push(x).contains(y) {
            let i = choose|i: int| 0 <= i < s.push(x).len() && s.push(x)[i] == y;
            if i < s.len() {
                assert(s[i] == y);
            }
        }
    }
}

/// The numbers of a list of keys, in list order.
spec fn numbers<K: Key>(s: Seq<K>) -> Seq<Option<u128>> {
    s.map_values(|k: K| k.number())
}

/// Whether every number of a list is noted with its place, and nothing else.
spec fn placed(at: Map<u128, usize>, ns: Seq<Option<u128>>) -> bool {
    &&& forall|i: int|
        0 <= i < ns.len() ==> ((#[trigger] ns[i]) matches Some(n) ==> at.contains_key(n) && at[n]
            == i)
    &&& forall|n: u128| #[trigger]
        at.contains_key(n) ==> at[n] < ns.len() && ns[at[n] as int] == Some(n)
}

/// A list without its entry at `i`, the last one in its place.
spec fn without_at<T>(s: Seq<T>, i: int) -> Seq<T> {
    s.update(i, s.last()).drop_last()
}

/// Such a list holds everything else.
proof fn lemma_without_at<T>(s: Seq<T>, i: int)
    requires
        0 <= i < s.len(),
        s.no_duplicates(),
    ensures
        without_at(s, i).no_duplicates(),
        forall|x: T| #[trigger] without_at(s, i).contains(x) <==> s.contains(x) && x != s[i],
{
    let t = without_at(s, i);
    let end = s.len() - 1;
    assert forall|x: T| #[trigger] t.contains(x) <==> s.contains(x) && x != s[i] by {
        if s.contains(x) && x != s[i] {
            let j = choose|j: int| 0 <= j < s.len() && s[j] == x;
            if j == end {
                assert(t[i] == x);
            } else {
                assert(t[j] == x);
            }
        }
        if t.contains(x) {
            let j = choose|j: int| 0 <= j < t.len() && t[j] == x;
            if j == i {
                assert(s[end] == x);
            } else {
                assert(s[j] == x);
            }
        }
    }
}

/// Notes the place of a new last entry.
fn note_place(at: &mut HashMap<u128, usize>, n: Option<u128>, i: usize, Ghost(ns): Ghost<
    Seq<Option<u128>>,
>)
    requires
        placed(old(at)@, ns),
        i == ns.len(),
        n is Some ==> !ns.contains(n),
    ensures
        placed(final(at)@, ns.push(n)),
{
    broadcast use vstd::std_specs::hash::group_hash_axioms;

    if let Some(x) = n {
        proof {
            if at@.contains_key(x) {
                assert(ns[at@[x] as int] == n);
            }
        }
        let _ = at.insert(x, i);
    }
    proof {
        let all = ns.push(n);
        assert forall|j: int| 0 <= j < all.len() implies ((#[trigger] all[j]) matches Some(x)
            ==> at@.contains_key(x) && at@[x] == j) by {
            if j < ns.len() {
                assert(all[j] == ns[j]);
            }
        }
        assert forall|x: u128| #[trigger] at@.contains_key(x) implies at@[x] < all.len()
            && all[at@[x] as int] == Some(x) by {}
    }
}

/// Forgets the place of an entry that the last one takes.
fn drop_place(
    at: &mut HashMap<u128, usize>,
    n: Option<u128>,
    i: usize,
    last: Option<u128>,
    len: usize,
    Ghost(ns): Ghost<Seq<Option<u128>>>,
)
    requires
        placed(old(at)@, ns),
        len == ns.len(),
        i < len,
        n == ns[i as int],
        last == ns.last(),
    ensures
        placed(final(at)@, without_at(ns, i as int)),
{
    broadcast use vstd::std_specs::hash::group_hash_axioms;

    let ghost before = at@;
    let ghost end = ns.len() - 1;
    if let Some(x) = n {
        let _ = at.remove(&x);
    }
    if i + 1 < len {
        if let Some(x) = last {
            let _ = at.insert(x, i);
        }
    }
    proof {
        let all = without_at(ns, i as int);
        assert(ns[end] == last);
        assert forall|j: int| 0 <= j < all.len() implies ((#[trigger] all[j]) matches Some(x)
            ==> at@.contains_key(x) && at@[x] == j) by {
            if j != i {
                assert(all[j] == ns[j]);
            } else {
                assert(all[j] == ns[end]);
            }
        }
        assert forall|x: u128| #[trigger] at@.contains_key(x) implies at@[x] < all.len()
            && all[at@[x] as int] == Some(x) by {
            assert(before.contains_key(x));
            assert(ns[before[x] as int] == Some(x));
            if before[x] == end && i < end {
                assert(ns[end] == Some(x));
            }
        }
    }
}

/// A set of keys.
pub struct KeySet<K: Key> {
    items: Vec<K>,
    places: HashMap<u128, usize>,
}

impl<K: Key> View for KeySet<K> {
    type V = Set<K::Model>;

    closed spec fn view(&self) -> Set<K::Model> {
        models(self.items@).to_set()
    }
}

impl<K: Key> KeySet<K> {
    #[verifier::type_invariant]
    spec fn inv(self) -> bool {
        models(self.items@).no_duplicates() && placed(self.places@, numbers(self.items@))
    }

    /// The empty set.
    pub fn new() -> (r: Self)
        ensures
            r@ == Set::<K::Model>::empty(),
    {
        let r = KeySet { items: Vec::new(), places: HashMap::new() };
        assert(models(r.items@) =~= Seq::empty());
        assert(r@ =~= Set::empty());
        r
    }

    /// Where `k` stands in the list, if it is there.
    fn position(&self, k: &K) -> (r: Option<usize>)
        ensures
            match r {
                Some(i) => i < self.items@.len() && self.items@[i as int].model() == k.model(),
                None => forall|j: int|
                    0 <= j < self.items@.len() ==> self.items@[j].model() != k.model(),
            },
            r is Some <==> self@.contains(k.model()),
    {
        broadcast use vstd::std_specs::hash::group_hash_axioms;

        if let Some(n) = k.numbered() {
            proof {
                use_type_invariant(self);
                lemma_found(self.items@, self.places@, *k, n);
                assert forall|j: int| 0 <= j < self.items@.len() implies self@.contains(
                    #[trigger] self.items@[j].model(),
                ) by {
                    assert(models(self.items@)[j] == self.items@[j].model());
                }
            }
            return match self.places.get(&n) {
                Some(i) => Some(*i),
                None => None,
            };
        }
        let mut i: usize = 0;
        while i < self.items.len()
            invariant
                0 <= i <= self.items@.len(),
                forall|j: int| 0 <= j < i ==> self.items@[j].model() != k.model(),
            decreases self.items@.len() - i,
        {
            if self.items[i].same(k) {
                assert(models(self.items@)[i as int] == k.model());
                return Some(i);
            }
            i += 1;
        }
        assert(!models(self.items@).contains(k.model()));
        None
    }

    /// Whether `k` is in the set.
    pub fn contains(&self, k: &K) -> (r: bool)
        ensures
            r == self@.contains(k.model()),
    {
        self.position(k).is_some()
    }

    /// Puts `k` in; whether it was new.
    pub fn insert(&mut self, k: K) -> (r: bool)
        ensures
            final(self)@ == old(self)@.insert(k.model()),
            r == !old(self)@.contains(k.model()),
    {
        proof {
            use_type_invariant(&*self);
        }
        if self.position(&k).is_some() {
            assert(self@ =~= old(self)@.insert(k.model()));
            return false;
        }
        let ghost before = self.items@;
        proof {
            assert(models(before.push(k)) =~= models(before).push(k.model()));
            assert(!models(before).contains(k.model()));
            assert(models(before.push(k)).to_set() =~= models(before).to_set().insert(k.model()))
                by {
                assert forall|m: K::Model|
                    models(before.push(k)).contains(m) == (models(before).contains(m) || m
                        == k.model()) by {
                    let s = models(before);
                    if s.contains(m) {
                        let i = choose|i: int| 0 <= i < s.len() && s[i] == m;
                        assert(s.push(k.model())[i] == m);
                    }
                    if m == k.model() {
                        assert(s.push(k.model())[s.len() as int] == m);
                    }
                }
            }
        }
        proof {
            lemma_numbers(before, k);
            assert(numbers(before.push(k)) =~= numbers(before).push(k.number()));
        }
        let mut whole: KeySet<K> = KeySet::new();
        core::mem::swap(self, &mut whole);
        let mut items = whole.items;
        let mut places = whole.places;
        note_place(&mut places, k.numbered(), items.len(), Ghost(numbers(before)));
        items.push(k);
        *self = KeySet { items, places };
        true
    }

    /// Takes `k` out; whether it was there.
    pub fn remove(&mut self, k: &K) -> (r: bool)
        ensures
            final(self)@ == old(self)@.remove(k.model()),
            r == old(self)@.contains(k.model()),
    {
        proof {
            use_type_invariant(&*self);
        }
        match self.position(k) {
            None => {
                assert(self@ =~= old(self)@.remove(k.model()));
                false
            },
            Some(i) => {
                let ghost before = self.items@;
                proof {
                    lemma_remove_model(before, i as int);
                }
                let mut whole: KeySet<K> = KeySet::new();
                core::mem::swap(self, &mut whole);
                let mut items = whole.items;
                let mut places = whole.places;
                let len = items.len();
                let n = items[i].numbered();
                let last = items[len - 1].numbered();
                drop_place(&mut places, n, i, last, len, Ghost(numbers(before)));
                let _ = items.swap_remove(i);
                assert(numbers(items@) =~= without_at(numbers(before), i as int));
                *self = KeySet { items, places };
                true
            },
        }
    }

    /// How many keys there are.
    pub fn len(&self) -> (r: usize)
        ensures
            r == self@.len(),
            self@.finite(),
    {
        proof {
            use_type_invariant(self);
            models(self.items@).unique_seq_to_set();
        }
        self.items.len()
    }

    /// Whether there are none.
    pub fn is_empty(&self) -> (r: bool)
        ensures
            r == (self@ == Set::<K::Model>::empty()),
    {
        proof {
            if self.items@.len() == 0 {
                assert(self@ =~= Set::empty());
            } else {
                assert(models(self.items@).contains(models(self.items@)[0]));
                assert(self@.contains(self.items@[0].model()));
            }
        }
        self.items.len() == 0
    }

    /// Puts every key of a list in.
    pub fn extend_list(&mut self, v: &Vec<K>)
        ensures
            final(self)@ == old(self)@.union(models(v@).to_set()),
    {
        let ghost before = self@;
        let mut i: usize = 0;
        proof {
            assert(models(v@).take(0).to_set() =~= Set::empty());
            assert(self@ =~= before.union(models(v@).take(0).to_set()));
        }
        while i < v.len()
            invariant
                i <= v@.len(),
                self@ == before.union(models(v@).take(i as int).to_set()),
            decreases v@.len() - i,
        {
            let ghost mid = self@;
            let _ = self.insert(v[i].dup());
            proof {
                let ms = models(v@);
                assert(ms.take(i + 1) =~= ms.take(i as int).push(ms[i as int]));
                lemma_push_contains(ms.take(i as int), ms[i as int]);
                assert(self@ =~= before.union(ms.take(i + 1).to_set()));
            }
            i += 1;
        }
        assert(models(v@).take(i as int) =~= models(v@));
    }

    /// Puts every key of another set in.
    pub fn extend(&mut self, other: &KeySet<K>)
        ensures
            final(self)@ == old(self)@.union(other@),
    {
        self.extend_list(other.list());
    }

    /// Takes every key of a list out.
    pub fn subtract_list(&mut self, v: &Vec<K>)
        ensures
            final(self)@ == old(self)@.difference(models(v@).to_set()),
    {
        let ghost before = self@;
        let mut i: usize = 0;
        proof {
            assert(models(v@).take(0).to_set() =~= Set::empty());
            assert(self@ =~= before.difference(models(v@).take(0).to_set()));
        }
        while i < v.len()
            invariant
                i <= v@.len(),
                self@ == before.difference(models(v@).take(i as int).to_set()),
            decreases v@.len() - i,
        {
            let _ = self.remove(&v[i]);
            proof {
                let ms = models(v@);
                assert(ms.take(i + 1) =~= ms.take(i as int).push(ms[i as int]));
                lemma_push_contains(ms.take(i as int), ms[i as int]);
                assert(self@ =~= before.difference(ms.take(i + 1).to_set()));
            }
            i += 1;
        }
        assert(models(v@).take(i as int) =~= models(v@));
    }

    /// Takes out everything that another set holds.
    pub fn subtract(&mut self, other: &KeySet<K>)
        ensures
            final(self)@ == old(self)@.difference(other@),
    {
        self.subtract_list(other.list());
    }

    /// The set of the keys in a list.
    pub fn of_list(v: &Vec<K>) -> (r: Self)
        ensures
            r@ == models(v@).to_set(),
    {
        let mut r = KeySet::new();
        r.extend_list(v);
        assert(r@ =~= models(v@).to_set());
        r
    }

    /// A second set with the same keys.
    pub fn dup(&self) -> (r: Self)
        ensures
            r@ == self@,
    {
        KeySet::of_list(self.list())
    }

    /// Whether every key of this set is in another.
    pub fn within(&self, other: &KeySet<K>) -> (r: bool)
        ensures
            r == self@.subset_of(other@),
    {
        let list = self.list();
        proof {
            lemma_listed(list@);
        }
        let mut i: usize = 0;
        while i < list.len()
            invariant
                i <= list@.len(),
                models(list@).to_set() == self@,
                forall|j: int| 0 <= j < list@.len() ==> self@.contains((#[trigger] list@[j]).model()),
                forall|j: int| 0 <= j < i ==> other@.contains((#[trigger] list@[j]).model()),
            decreases list@.len() - i,
        {
            if !other.contains(&list[i]) {
                assert(self@.contains(list@[i as int].model()));
                return false;
            }
            i += 1;
        }
        proof {
            lemma_listed(list@);
            assert(self@.subset_of(other@));
        }
        true
    }

    /// Whether two sets hold the same keys.
    pub fn equals(&self, other: &KeySet<K>) -> (r: bool)
        ensures
            r == (self@ == other@),
    {
        let r = self.within(other) && other.within(self);
        proof {
            if r {
                assert(self@ =~= other@);
            }
        }
        r
    }

    /// The keys as a list, each once, in no particular order.
    pub fn list(&self) -> (r: &Vec<K>)
        ensures
            models(r@).no_duplicates(),
            models(r@).to_set() == self@,
    {
        proof {
            use_type_invariant(self);
        }
        &self.items
    }
}

/// Taking one key out of a list without repetitions takes its model out of
/// the list's set, and leaves no repetitions.
proof fn lemma_remove_model<K: Key>(s: Seq<K>, i: int)
    requires
        0 <= i < s.len(),
        models(s).no_duplicates(),
    ensures
        models(without_at(s, i)).no_duplicates(),
        models(without_at(s, i)).to_set() == models(s).to_set().remove(s[i].model()),
{
    let m = models(s);
    assert(models(without_at(s, i)) =~= without_at(m, i));
    lemma_without_at(m, i);
    assert forall|x: K::Model| without_at(m, i).to_set().contains(x) == m.to_set().remove(
        m[i],
    ).contains(x) by {
        assert(without_at(m, i).contains(x) <==> m.contains(x) && x != m[i]);
    }
    assert(without_at(m, i).to_set() =~= m.to_set().remove(m[i]));
}

/// Where the number of a key stands among those of a list, its model stands too.
proof fn lemma_numbers<K: Key>(s: Seq<K>, k: K)
    ensures
        forall|i: int|
            0 <= i < s.len() && k.number() is Some ==> ((#[trigger] numbers(s)[i]) == k.number()
                <==> models(s)[i] == k.model()),
        k.number() is Some && !models(s).contains(k.model()) ==> !numbers(s).contains(k.number()),
{
    assert forall|i: int| 0 <= i < s.len() && k.number() is Some implies ((#[trigger] numbers(s)[i])
        == k.number() <==> models(s)[i] == k.model()) by {
        k.lemma_number(&s[i]);
    }
    if k.number() is Some && numbers(s).contains(k.number()) {
        let i = choose|i: int| 0 <= i < numbers(s).len() && numbers(s)[i] == k.number();
        assert(models(s)[i] == k.model());
    }
}

/// What is noted under a key's number is where the key stands.
proof fn lemma_found<K: Key>(s: Seq<K>, at: Map<u128, usize>, k: K, n: u128)
    requires
        placed(at, numbers(s)),
        k.number() == Some(n),
    ensures
        at.contains_key(n) <==> models(s).contains(k.model()),
        at.contains_key(n) ==> at[n] < s.len() && s[at[n] as int].model() == k.model(),
{
    lemma_numbers(s, k);
    if at.contains_key(n) {
        let i = at[n] as int;
        assert(numbers(s)[i] == Some(n));
        assert(models(s)[i] == s[i].model());
    }
    if models(s).contains(k.model()) {
        let i = choose|i: int| 0 <= i < models(s).len() && models(s)[i] == k.model();
        assert(numbers(s)[i] == Some(n));
    }
}

/// A map from keys to values.
pub struct KeyMap<K: Key, V> {
    entries: Vec<(K, V)>,
    places: HashMap<u128, usize>,
}

/// The keys of a list of entries, in list order.
spec fn entry_keys<K: Key, V>(s: Seq<(K, V)>) -> Seq<K> {
    s.map_values(|e: (K, V)| e.0)
}

/// The models of the keys of a list of entries, in list order.
pub open spec fn entry_models<K: Key, V>(s: Seq<(K, V)>) -> Seq<K::Model> {
    s.map_values(|e: (K, V)| e.0.model())
}

/// The map that a list of entries without repeated keys describes.
pub open spec fn entry_map<K: Key, V>(s: Seq<(K, V)>) -> Map<K::Model, V> {
    Map::new(
        |m: K::Model| entry_models(s).contains(m),
        |m: K::Model| s[entry_models(s).index_of(m)].1,
    )
}

/// In a list without repeated keys every entry is what the map says of its key.
pub proof fn lemma_entry<K: Key, V>(s: Seq<(K, V)>, i: int)
    requires
        0 <= i < s.len(),
        entry_models(s).no_duplicates(),
    ensures
        entry_map(s).contains_key(s[i].0.model()),
        entry_map(s)[s[i].0.model()] == s[i].1,
{
    let ms = entry_models(s);
    assert(ms[i] == s[i].0.model());
    assert(ms.contains(s[i].0.model()));
}

/// The domain of the map is the set of the keys' models.
pub proof fn lemma_entry_dom<K: Key, V>(s: Seq<(K, V)>)
    requires
        entry_models(s).no_duplicates(),
    ensures
        entry_map(s).dom() == entry_models(s).to_set(),
        entry_map(s).dom().finite(),
        entry_map(s).dom().len() == s.len(),
{
    assert(entry_map(s).dom() =~= entry_models(s).to_set());
    entry_models(s).unique_seq_to_set();
}

proof fn lemma_entry_push<K: Key, V>(s: Seq<(K, V)>, k: K, v: V)
    requires
        entry_models(s).no_duplicates(),
        !entry_models(s).contains(k.model()),
    ensures
        entry_models(s.push((k, v))).no_duplicates(),
        entry_map(s.push((k, v))) == entry_map(s).insert(k.model(), v),
{
    let t = s.push((k, v));
    let ms = entry_models(s);
    assert(entry_models(t) =~= ms.push(k.model()));
    assert(entry_models(t).no_duplicates());
    assert forall|m: K::Model| entry_models(t).contains(m) == (ms.contains(m) || m == k.model()) by {
        if ms.contains(m) {
            let i = choose|i: int| 0 <= i < ms.len() && ms[i] == m;
            assert(entry_models(t)[i] == m);
        }
        if m == k.model() {
            assert(entry_models(t)[ms.len() as int] == m);
        }
    }
    assert forall|m: K::Model| entry_models(t).contains(m) implies entry_map(t)[m] == entry_map(
        s,
    ).insert(k.model(), v)[m] by {
        if m == k.model() {
            lemma_entry(t, s.len() as int);
        } else {
            let i = choose|i: int| 0 <= i < ms.len() && ms[i] == m;
            lemma_entry(s, i);
            assert(t[i] == s[i]);
            lemma_entry(t, i);
        }
    }
    assert(entry_map(t) =~= entry_map(s).insert(k.model(), v));
}

proof fn lemma_entry_remove<K: Key, V>(s: Seq<(K, V)>, i: int)
    requires
        0 <= i < s.len(),
        entry_models(s).no_duplicates(),
    ensures
        entry_models(without_at(s, i)).no_duplicates(),
        entry_map(without_at(s, i)) == entry_map(s).remove(s[i].0.model()),
        !entry_models(without_at(s, i)).contains(s[i].0.model()),
{
    let t = without_at(s, i);
    let ms = entry_models(s);
    let mt = entry_models(t);
    assert(mt =~= without_at(ms, i));
    lemma_without_at(ms, i);
    assert forall|m: K::Model| mt.contains(m) implies entry_map(t)[m] == entry_map(s)[m] by {
        let j = choose|j: int| 0 <= j < mt.len() && mt[j] == m;
        lemma_entry(t, j);
        if j == i {
            assert(t[j] == s[s.len() - 1]);
            lemma_entry(s, s.len() - 1);
        } else {
            assert(t[j] == s[j]);
            lemma_entry(s, j);
        }
    }
    assert(entry_map(t) =~= entry_map(s).remove(ms[i]));
}

/// Another value for the key at `i`.
proof fn lemma_entry_replaced<K: Key, V>(s: Seq<(K, V)>, i: int, k: K, v: V)
    requires
        0 <= i < s.len(),
        entry_models(s).no_duplicates(),
        s[i].0.model() == k.model(),
    ensures
        entry_models(s.update(i, (k, v))) == entry_models(s),
        entry_map(s.update(i, (k, v))) == entry_map(s).insert(k.model(), v),
{
    let t = s.update(i, (k, v));
    let ms = entry_models(s);
    assert(entry_models(t) =~= ms);
    assert(ms[i] == k.model());
    assert forall|m: K::Model| ms.contains(m) implies entry_map(t)[m] == entry_map(s).insert(
        k.model(),
        v,
    )[m] by {
        let j = choose|j: int| 0 <= j < ms.len() && ms[j] == m;
        lemma_entry(t, j);
        lemma_entry(s, j);
    }
    assert(entry_map(t) =~= entry_map(s).insert(k.model(), v));
}

impl<K: Key, V> View for KeyMap<K, V> {
    type V = Map<K::Model, V>;

    closed spec fn view(&self) -> Map<K::Model, V> {
        entry_map(self.entries@)
    }
}

impl<K: Key, V> KeyMap<K, V> {
    #[verifier::type_invariant]
    spec fn inv(self) -> bool {
        entry_models(self.entries@).no_duplicates() && placed(
            self.places@,
            numbers(entry_keys(self.entries@)),
        )
    }

    /// The empty map.
    pub fn new() -> (r: Self)
        ensures
            r@ == Map::<K::Model, V>::empty(),
    {
        let r = KeyMap { entries: Vec::new(), places: HashMap::new() };
        assert(entry_models(r.entries@) =~= Seq::empty());
        assert(r@ =~= Map::empty());
        r
    }

    /// Where the entry of `k` stands in the list, if it has one.
    fn position(&self, k: &K) -> (r: Option<usize>)
        ensures
            match r {
                Some(i) => i < self.entries@.len() && self.entries@[i as int].0.model()
                    == k.model(),
                None => !entry_models(self.entries@).contains(k.model()),
            },
            r is Some <==> self@.contains_key(k.model()),
    {
        broadcast use vstd::std_specs::hash::group_hash_axioms;

        if let Some(n) = k.numbered() {
            proof {
                use_type_invariant(self);
                lemma_found(entry_keys(self.entries@), self.places@, *k, n);
                assert(models(entry_keys(self.entries@)) =~= entry_models(self.entries@));
            }
            return match self.places.get(&n) {
                Some(i) => Some(*i),
                None => None,
            };
        }
        let mut i: usize = 0;
        while i < self.entries.len()
            invariant
                0 <= i <= self.entries@.len(),
                forall|j: int| 0 <= j < i ==> self.entries@[j].0.model() != k.model(),
            decreases self.entries@.len() - i,
        {
            if self.entries[i].0.same(k) {
                assert(entry_models(self.entries@)[i as int] == k.model());
                return Some(i);
            }
            i += 1;
        }
        assert(!entry_models(self.entries@).contains(k.model()));
        None
    }

    /// Whether `k` has an entry.
    pub fn contains_key(&self, k: &K) -> (r: bool)
        ensures
            r == self@.contains_key(k.model()),
    {
        self.position(k).is_some()
    }

    /// The value of `k`.
    pub fn get(&self, k: &K) -> (r: Option<&V>)
        ensures
            match r {
                Some(v) => self@.contains_key(k.model()) && *v == self@[k.model()],
                None => !self@.contains_key(k.model()),
            },
    {
        proof {
            use_type_invariant(self);
        }
        match self.position(k) {
            Some(i) => {
                proof {
                    lemma_entry(self.entries@, i as int);
                }
                Some(&self.entries[i].1)
            },
            None => None,
        }
    }

    /// Takes the entry of `k` out and hands its value back.
    pub fn remove(&mut self, k: &K) -> (r: Option<V>)
        ensures
            final(self)@ == old(self)@.remove(k.model()),
            match r {
                Some(v) => old(self)@.contains_key(k.model()) && v == old(self)@[k.model()],
                None => !old(self)@.contains_key(k.model()),
            },
    {
        proof {
            use_type_invariant(&*self);
        }
        match self.position(k) {
            None => {
                assert(self@ =~= old(self)@.remove(k.model()));
                None
            },
            Some(i) => {
                proof {
                    lemma_entry_remove(self.entries@, i as int);
                    lemma_entry(self.entries@, i as int);
                }
                let ghost before = self.entries@;
                let mut whole: KeyMap<K, V> = KeyMap::new();
                core::mem::swap(self, &mut whole);
                let mut entries = whole.entries;
                let mut places = whole.places;
                let len = entries.len();
                let n = entries[i].0.numbered();
                let last = entries[len - 1].0.numbered();
                let ghost ns = numbers(entry_keys(before));
                drop_place(&mut places, n, i, last, len, Ghost(ns));
                let (_, v) = entries.swap_remove(i);
                assert(numbers(entry_keys(entries@)) =~= without_at(ns, i as int));
                *self = KeyMap { entries, places };
                Some(v)
            },
        }
    }

    /// Gives `k` the value `v`, whatever it had before.
    pub fn insert(&mut self, k: K, v: V)
        ensures
            final(self)@ == old(self)@.insert(k.model(), v),
    {
        proof {
            use_type_invariant(&*self);
        }
        let at = self.position(&k);
        let mut whole: KeyMap<K, V> = KeyMap::new();
        core::mem::swap(self, &mut whole);
        let mut entries = whole.entries;
        let mut places = whole.places;
        let ghost before = entries@;
        let ghost ns = numbers(entry_keys(before));
        if let Some(i) = at {
            proof {
                lemma_entry_replaced(before, i as int, k, v);
                k.lemma_number(&before[i as int].0);
            }
            entries.set(i, (k, v));
            assert(numbers(entry_keys(entries@)) =~= ns);
        } else {
            proof {
                lemma_entry_push(before, k, v);
                lemma_numbers(entry_keys(before), k);
                assert(models(entry_keys(before)) =~= entry_models(before));
            }
            note_place(&mut places, k.numbered(), entries.len(), Ghost(ns));
            entries.push((k, v));
            assert(numbers(entry_keys(entries@)) =~= ns.push(k.number()));
        }
        *self = KeyMap { entries, places };
    }

    /// How many entries there are.
    pub fn len(&self) -> (r: usize)
        ensures
            r == self@.dom().len(),
            self@.dom().finite(),
    {
        proof {
            use_type_invariant(self);
            lemma_entry_dom(self.entries@);
        }
        self.entries.len()
    }

    /// Whether there are none.
    pub fn is_empty(&self) -> (r: bool)
        ensures
            r == (self@ == Map::<K::Model, V>::empty()),
    {
        proof {
            use_type_invariant(self);
            if self.entries@.len() == 0 {
                assert(self@ =~= Map::empty());
            } else {
                lemma_entry(self.entries@, 0);
                assert(self@.contains_key(self.entries@[0].0.model()));
            }
        }
        self.entries.len() == 0
    }

    /// The entries as a list, one per key, in no particular order.
    pub fn list(&self) -> (r: &Vec<(K, V)>)
        ensures
            entry_models(r@).no_duplicates(),
            entry_map(r@) == self@,
    {
        proof {
            use_type_invariant(self);
        }
        &self.entries
    }
}

} // verus!
