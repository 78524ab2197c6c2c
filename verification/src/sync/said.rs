//! What has been said once.

use vstd::prelude::*;

use crate::keyed::{entry_map, entry_models, lemma_entry, KeyMap, KeySet};
use crate::mac::Mac;

verus! {

/// Everything said once, per device, in one place: a device that leaves or is
/// renamed loses or carries every mark in one call.
pub struct Said {
    /// a virtual function whose address cannot be known
    pub unknown_vf: KeySet<String>,
    /// pinned addresses that could not be registered, per device
    pub extra: KeyMap<String, KeySet<Mac>>,
    /// the filter is over its limit
    pub over: KeySet<String>,
    /// a batch found no room
    pub tight: KeySet<String>,
    /// which addresses are being kept quiet, per device
    pub quiet: KeyMap<String, KeySet<Mac>>,
    /// the note could not be read
    pub unreadable: KeySet<String>,
    /// the note's lock could not be taken
    pub lock: KeySet<String>,
    /// the port memory could not be written
    pub ports: KeySet<String>,
}

/// What a `Said` holds.
pub struct Marks {
    pub unknown_vf: Set<Seq<char>>,
    pub extra: Map<Seq<char>, Set<Mac>>,
    pub over: Set<Seq<char>>,
    pub tight: Set<Seq<char>>,
    pub quiet: Map<Seq<char>, Set<Mac>>,
    pub unreadable: Set<Seq<char>>,
    pub lock: Set<Seq<char>>,
    pub ports: Set<Seq<char>>,
}

/// The addresses per device in a map.
pub open spec fn mac_sets(m: Map<Seq<char>, KeySet<Mac>>) -> Map<Seq<char>, Set<Mac>> {
    m.map_values(|s: KeySet<Mac>| s@)
}

impl View for Said {
    type V = Marks;

    open spec fn view(&self) -> Marks {
        Marks {
            unknown_vf: self.unknown_vf@,
            extra: mac_sets(self.extra@),
            over: self.over@,
            tight: self.tight@,
            quiet: mac_sets(self.quiet@),
            unreadable: self.unreadable@,
            lock: self.lock@,
            ports: self.ports@,
        }
    }
}

/// A mark carried from one name to another.
pub open spec fn carried_mark(s: Set<Seq<char>>, from: Seq<char>, to: Seq<char>) -> Set<Seq<char>> {
    if s.contains(from) {
        s.remove(from).insert(to)
    } else {
        s
    }
}

/// An entry carried from one name to another.
pub open spec fn carried_entry<V>(
    m: Map<Seq<char>, V>,
    from: Seq<char>,
    to: Seq<char>,
) -> Map<Seq<char>, V> {
    if m.contains_key(from) {
        m.remove(from).insert(to, m[from])
    } else {
        m
    }
}

impl Marks {
    /// Whether anything has been said of this device.
    pub open spec fn mentions(self, dev: Seq<char>) -> bool {
        ||| self.unknown_vf.contains(dev)
        ||| self.extra.contains_key(dev)
        ||| self.over.contains(dev)
        ||| self.tight.contains(dev)
        ||| self.quiet.contains_key(dev)
        ||| self.unreadable.contains(dev)
        ||| self.lock.contains(dev)
        ||| self.ports.contains(dev)
    }

    /// Nothing said of this device, everything else as it was.
    pub open spec fn without(self, dev: Seq<char>) -> Marks {
        Marks {
            unknown_vf: self.unknown_vf.remove(dev),
            extra: self.extra.remove(dev),
            over: self.over.remove(dev),
            tight: self.tight.remove(dev),
            quiet: self.quiet.remove(dev),
            unreadable: self.unreadable.remove(dev),
            lock: self.lock.remove(dev),
            ports: self.ports.remove(dev),
        }
    }

    /// Everything said of the one name now said of the other.
    pub open spec fn renamed(self, from: Seq<char>, to: Seq<char>) -> Marks {
        Marks {
            unknown_vf: carried_mark(self.unknown_vf, from, to),
            extra: carried_entry(self.extra, from, to),
            over: carried_mark(self.over, from, to),
            tight: carried_mark(self.tight, from, to),
            quiet: carried_entry(self.quiet, from, to),
            unreadable: carried_mark(self.unreadable, from, to),
            lock: carried_mark(self.lock, from, to),
            ports: carried_mark(self.ports, from, to),
        }
    }
}

/// A device that is forgotten is not mentioned any more, and nothing that was
/// said of another one is lost.
pub proof fn a_forgotten_device_is_not_mentioned(said: Marks, dev: Seq<char>, other: Seq<char>)
    ensures
        !said.without(dev).mentions(dev),
        other != dev ==> said.without(dev).mentions(other) == said.mentions(other),
{
}

/// A renamed device carries every mark: whatever was said of the old name is
/// said of the new one, nothing of the old one any more, and everybody else's
/// marks stay.
pub proof fn a_renamed_device_carries_every_mark(
    said: Marks,
    from: Seq<char>,
    to: Seq<char>,
    other: Seq<char>,
)
    requires
        from != to,
    ensures
        !said.renamed(from, to).mentions(from),
        said.renamed(from, to).mentions(to) == (said.mentions(from) || said.mentions(to)),
        other != from && other != to ==> said.renamed(from, to).mentions(other) == said.mentions(
            other,
        ),
        said.extra.contains_key(from) ==> said.renamed(from, to).extra[to] == said.extra[from],
        said.quiet.contains_key(from) ==> said.renamed(from, to).quiet[to] == said.quiet[from],
{
}

/// Carries a mark from one name to another.
fn carry_mark(s: &mut KeySet<String>, from: &String, to: &String)
    ensures
        final(s)@ == carried_mark(old(s)@, from@, to@),
{
    if s.remove(from) {
        let _ = s.insert(to.clone());
    } else {
        assert(s@ =~= old(s)@);
    }
}

/// Carries an entry from one name to another.
pub fn carry_entry<V>(m: &mut KeyMap<String, V>, from: &String, to: &String)
    ensures
        final(m)@ == carried_entry(old(m)@, from@, to@),
{
    match m.remove(from) {
        Some(v) => {
            m.insert(to.clone(), v);
        },
        None => {
            assert(m@ =~= old(m)@);
        },
    }
}

/// Whether two maps hold the same addresses per device.
fn same_sets(a: &KeyMap<String, KeySet<Mac>>, b: &KeyMap<String, KeySet<Mac>>) -> (r: bool)
    ensures
        r == (mac_sets(a@) == mac_sets(b@)),
{
    let la = a.list();
    let lb = b.list();
    let mut i: usize = 0;
    while i < la.len()
        invariant
            i <= la@.len(),
            entry_models(la@).no_duplicates(),
            entry_map(la@) == a@,
            forall|j: int|
                0 <= j < i ==> b@.contains_key((#[trigger] la@[j]).0@) && b@[la@[j].0@]@
                    == la@[j].1@,
        decreases la@.len() - i,
    {
        proof {
            lemma_entry(la@, i as int);
            assert(mac_sets(a@).contains_key(la@[i as int].0@));
            assert(mac_sets(a@)[la@[i as int].0@] == la@[i as int].1@);
        }
        match b.get(&la[i].0) {
            Some(s) => {
                if !s.equals(&la[i].1) {
                    assert(mac_sets(b@)[la@[i as int].0@] == s@);
                    return false;
                }
            },
            None => {
                assert(!mac_sets(b@).contains_key(la@[i as int].0@));
                return false;
            },
        }
        i += 1;
    }
    let mut k: usize = 0;
    while k < lb.len()
        invariant
            k <= lb@.len(),
            entry_models(lb@).no_duplicates(),
            entry_map(lb@) == b@,
            forall|j: int| 0 <= j < k ==> a@.contains_key((#[trigger] lb@[j]).0@),
        decreases lb@.len() - k,
    {
        proof {
            lemma_entry(lb@, k as int);
            assert(mac_sets(b@).contains_key(lb@[k as int].0@));
        }
        if !a.contains_key(&lb[k].0) {
            assert(!mac_sets(a@).contains_key(lb@[k as int].0@));
            return false;
        }
        k += 1;
    }
    proof {
        let ma = mac_sets(a@);
        let mb = mac_sets(b@);
        let ka = entry_models(la@);
        let kb = entry_models(lb@);
        assert forall|n: Seq<char>| #[trigger] ma.contains_key(n) implies mb.contains_key(n)
            && mb[n] == ma[n] by {
            assert(ka.contains(n));
            let j = choose|j: int| 0 <= j < ka.len() && ka[j] == n;
            lemma_entry(la@, j);
            assert(la@[j].0@ == n);
        }
        assert forall|n: Seq<char>| #[trigger] mb.contains_key(n) implies ma.contains_key(n) by {
            assert(kb.contains(n));
            let j = choose|j: int| 0 <= j < kb.len() && kb[j] == n;
            assert(lb@[j].0@ == n);
        }
        assert(ma =~= mb);
    }
    true
}

impl Said {
    /// Nothing said yet.
    pub fn new() -> (r: Self)
        ensures
            r@ == (Marks {
                unknown_vf: Set::empty(),
                extra: Map::empty(),
                over: Set::empty(),
                tight: Set::empty(),
                quiet: Map::empty(),
                unreadable: Set::empty(),
                lock: Set::empty(),
                ports: Set::empty(),
            }),
    {
        let r = Said {
            unknown_vf: KeySet::new(),
            extra: KeyMap::new(),
            over: KeySet::new(),
            tight: KeySet::new(),
            quiet: KeyMap::new(),
            unreadable: KeySet::new(),
            lock: KeySet::new(),
            ports: KeySet::new(),
        };
        assert(r@.extra =~= Map::empty());
        assert(r@.quiet =~= Map::empty());
        r
    }

    /// A device that stopped being an uplink: a return announces afresh.
    pub fn forget(&mut self, dev: &String)
        ensures
            final(self)@ == old(self)@.without(dev@),
            !final(self)@.mentions(dev@),
    {
        let _ = self.unknown_vf.remove(dev);
        let _ = self.extra.remove(dev);
        let _ = self.over.remove(dev);
        let _ = self.tight.remove(dev);
        let _ = self.quiet.remove(dev);
        let _ = self.unreadable.remove(dev);
        let _ = self.lock.remove(dev);
        let _ = self.ports.remove(dev);
        assert(self@.extra =~= old(self)@.extra.remove(dev@));
        assert(self@.quiet =~= old(self)@.quiet.remove(dev@));
    }

    /// A device renamed: what was said stays said under the new name.
    pub fn rename(&mut self, from: &String, to: &String)
        ensures
            final(self)@ == old(self)@.renamed(from@, to@),
            from@ != to@ ==> !final(self)@.mentions(from@),
    {
        carry_mark(&mut self.unknown_vf, from, to);
        carry_mark(&mut self.over, from, to);
        carry_mark(&mut self.tight, from, to);
        carry_mark(&mut self.unreadable, from, to);
        carry_mark(&mut self.lock, from, to);
        carry_mark(&mut self.ports, from, to);
        carry_entry(&mut self.extra, from, to);
        carry_entry(&mut self.quiet, from, to);
        assert(self@.extra =~= carried_entry(old(self)@.extra, from@, to@));
        assert(self@.quiet =~= carried_entry(old(self)@.quiet, from@, to@));
    }

    /// Whether the same has been said.
    pub fn equals(&self, other: &Said) -> (r: bool)
        ensures
            r == (self@ == other@),
    {
        self.unknown_vf.equals(&other.unknown_vf) && same_sets(&self.extra, &other.extra)
            && self.over.equals(&other.over) && self.tight.equals(&other.tight) && same_sets(
            &self.quiet,
            &other.quiet,
        ) && self.unreadable.equals(&other.unreadable) && self.lock.equals(&other.lock)
            && self.ports.equals(&other.ports)
    }
}

} // verus!
