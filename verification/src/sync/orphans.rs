//! Notes whose uplink is gone: followed where the interface only changed its
//! name, and otherwise taken back out of the card.

use vstd::prelude::*;

use crate::keyed::{lemma_mac_models, lemma_push_contains, KeyMap, KeySet};
use crate::mac::Mac;
use crate::netlink::{FdbWriter, Op, Recorded};
use crate::sync::card::{
    errors_in, ever_noted, failed_in, lemma_answered, lemma_errors, lemma_ever_now,
    lemma_sound_cards, lemma_sound_files, noted_in, refusal_warnings, sets_all, sound,
    unregister_all, warn_refusals, Ground,
};
use crate::sync::files::{grew, lemma_grew_same, lemma_grew_trans, replay, since, Files};
use crate::sync::journal::{
    cleared_text, follows_text, say_cleared, say_follows, say_still, say_waiting, say_would_follow,
    still_text, waiting_text, would_follow_text,
};
use crate::sync::memory::{
    lemma_filework_loaded, lemma_filework_saved, memory_loaded, memory_saved, MemoryModel,
};
use crate::sync::notes::{
    devices_or_none, file_read, filework, index_in, index_name, is_filework, lemma_filework_looked,
    lemma_filework_moved, lemma_filework_one, lemma_filework_removed, lemma_filework_same,
    lemma_filework_trans, lemma_filework_written, list_in_order, lock_asked, note_looked,
    note_moved, note_removed, note_written, owned_in, BookModel, Notebook,
};
use crate::sync::said::{carried_entry, carry_entry, mac_sets};
use crate::sync::syncer::{carried_models, same_cost, Syncer, SyncerModel};
use crate::sync::types::pair_list;
use crate::text::{digits, push_number, push_text};
use crate::topology::{Topology, TopologyModel};
use crate::topology::detect::texts;

verus! {

/// One moment of a pass: what the syncer holds, what has been asked so far, and
/// what has gone wrong.
pub struct Run {
    pub s: SyncerModel,
    pub log: Seq<Op>,
    pub failures: Seq<Seq<char>>,
}

impl SyncerModel {
    /// The same with other notes.
    pub open spec fn with_book(self, book: BookModel) -> SyncerModel {
        SyncerModel { book, ..self }
    }

    /// Whether a device is among the uplinks.
    pub open spec fn is_live(self, dev: Seq<char>) -> bool {
        exists|i: int| 0 <= i < self.pairs.len() && (#[trigger] self.pairs[i]).dev == dev
    }
}

/// When each noted device that is no uplink was first seen to be missing.
pub open spec fn absent_after(
    s: SyncerModel,
    noted: Seq<Seq<char>>,
    now: u64,
) -> Map<Seq<char>, u64> {
    Map::new(
        |d: Seq<char>| noted.contains(d) && !s.is_live(d),
        |d: Seq<char>|
            if s.absent_since.contains_key(d) {
                s.absent_since[d]
            } else {
                now
            },
    )
}

/// Whether a device has been missing for long enough to believe it.
pub open spec fn overdue(
    absent: Map<Seq<char>, u64>,
    grace: u64,
    now: u64,
    dev: Seq<char>,
) -> bool {
    absent.contains_key(dev) && if now >= absent[dev] {
        now - absent[dev] >= grace
    } else {
        grace == 0
    }
}

/// The nanoseconds that a reading of the clocks gave.
pub open spec fn nanos_of(op: Op) -> u64 {
    match op {
        Op::Clock { reading } => reading.nanos,
        _ => 0,
    }
}

/// What looking for orphans comes to: the noted devices that are no uplinks and
/// have not been for long enough. Only something that knows every uplink may
/// look.
pub open spec fn orphans_found(
    s: SyncerModel,
    log: Seq<Op>,
    s2: SyncerModel,
    log2: Seq<Op>,
    orphans: Seq<Seq<char>>,
) -> bool {
    if !s.authoritative {
        &&& s2 == (SyncerModel { absent_since: Map::empty(), ..s })
        &&& log2 == log
        &&& orphans.len() == 0
    } else {
        let clock = log2[log.len() as int];
        clock is Clock && exists|devs: Seq<Seq<char>>, b1: BookModel|
            {
                &&& #[trigger] devices_or_none(s.book, log.push(clock), b1, log2, devs)
                &&& s2 == (SyncerModel {
                    book: b1.saying_all(waiting_lines(s, devs)),
                    absent_since: absent_after(s, devs, nanos_of(clock)),
                    ..s
                })
                &&& orphans == overdue_of(s, devs, nanos_of(clock))
            }
    }
}

/// Whether a noted device is missing among the uplinks for the first time.
pub open spec fn newly_missing(s: SyncerModel, dev: Seq<char>) -> bool {
    !s.is_live(dev) && !s.absent_since.contains_key(dev)
}

/// What is said of the devices that are missing for the first time, where they
/// are waited for.
pub open spec fn waiting_lines(s: SyncerModel, devs: Seq<Seq<char>>) -> Seq<Seq<char>>
    decreases devs.len(),
{
    if devs.len() == 0 {
        Seq::empty()
    } else {
        let head = waiting_lines(s, devs.drop_last());
        if s.orphan_grace > 0 && newly_missing(s, devs.last()) {
            head.push(waiting_text(devs.last(), s.orphan_grace as nat))
        } else {
            head
        }
    }
}

/// Those of the noted devices that have been missing for long enough.
pub open spec fn overdue_of(s: SyncerModel, devs: Seq<Seq<char>>, now: u64) -> Seq<Seq<char>> {
    let absent = absent_after(s, devs, now);
    devs.filter(|d: Seq<char>| overdue(absent, s.orphan_grace, now, d))
}

proof fn lemma_live_same(s: SyncerModel, s2: SyncerModel, dev: Seq<char>)
    requires
        s2.pairs == s.pairs,
    ensures
        s2.is_live(dev) == s.is_live(dev),
{
    if s.is_live(dev) {
        let i = choose|i: int| 0 <= i < s.pairs.len() && (#[trigger] s.pairs[i]).dev == dev;
        assert(s2.pairs[i].dev == dev);
    }
    if s2.is_live(dev) {
        let i = choose|i: int| 0 <= i < s2.pairs.len() && (#[trigger] s2.pairs[i]).dev == dev;
        assert(s.pairs[i].dev == dev);
    }
}

proof fn lemma_waiting_same(s: SyncerModel, s2: SyncerModel, devs: Seq<Seq<char>>)
    requires
        s2.pairs == s.pairs,
        s2.absent_since == s.absent_since,
        s2.orphan_grace == s.orphan_grace,
    ensures
        waiting_lines(s2, devs) == waiting_lines(s, devs),
    decreases devs.len(),
{
    if devs.len() > 0 {
        lemma_waiting_same(s, s2, devs.drop_last());
        lemma_live_same(s, s2, devs.last());
    }
}

/// Where a noted device's interface lives now, when the recorded index is still
/// there under another name.
pub open spec fn renamed_to(
    t: TopologyModel,
    dir: Files,
    dev: Seq<char>,
) -> Option<(u32, Seq<char>)> {
    match index_in(dir, dev) {
        Some(n) => {
            let i = n as u32;
            if t.links.contains_key(i) && t.links[i].name != dev {
                Some((i, t.links[i].name))
            } else {
                None
            }
        },
        None => None,
    }
}

/// The syncer once a device has another name. Each part goes by its own rule:
/// what was said, what is on the wire and what the card holds follow; what is
/// known of the memory file does not.
pub open spec fn renamed_state(s: SyncerModel, from: Seq<char>, to: Seq<char>) -> SyncerModel {
    SyncerModel {
        memory: MemoryModel {
            carried: carried_entry(s.memory.carried, from, to),
            loaded: if s.memory.carried.contains_key(from) {
                s.memory.loaded.insert(to).remove(from)
            } else {
                s.memory.loaded.remove(from)
            },
            written: s.memory.written.remove(from).remove(to),
        },
        book: (BookModel { said: s.book.said.renamed(from, to), ..s.book }).saying(
            follows_text(from, to),
        ),
        carried_wire: carried_entry(s.carried_wire, from, to),
        carried: carried_entry(s.carried, from, to),
        ..s
    }
}

/// The syncer once a device is no uplink any more: one that returns starts
/// afresh.
pub open spec fn without_device(s: SyncerModel, dev: Seq<char>) -> SyncerModel {
    SyncerModel {
        memory: MemoryModel {
            carried: s.memory.carried.remove(dev),
            loaded: s.memory.loaded.remove(dev),
            written: s.memory.written.remove(dev),
        },
        book: BookModel { said: s.book.said.without(dev), ..s.book },
        carried_wire: s.carried_wire.remove(dev),
        carried: s.carried.remove(dev),
        ..s
    }
}

/// What following a rename comes to: the note moves with its memory, and the
/// memory is written down under the new name at once.
pub open spec fn orphan_followed(
    t: TopologyModel,
    apply: bool,
    dev: Seq<char>,
    index: u32,
    name: Seq<char>,
    r: Run,
    r2: Run,
) -> bool {
    if !apply || r.s.dry_run {
        r2 == (Run { s: r.s.saying(would_follow_text(dev, name)), ..r })
    } else {
        exists|
            m1: MemoryModel,
            b1: BookModel,
            l1: Seq<Op>,
            b2: BookModel,
            l2: Seq<Op>,
            moved: bool,
        |
            {
                let s = SyncerModel { memory: m1, book: b2, ..r.s };
                &&& #[trigger] memory_loaded(
                    r.s.memory,
                    r.s.book,
                    r.log,
                    t,
                    dev,
                    m1,
                    b1,
                    l1,
                )
                &&& #[trigger] note_moved(b1, l1, dev, name, index, b2, l2, moved)
                &&& if moved {
                    rename_settled(t, renamed_state(s, dev, name), l2, name, r.failures, r2)
                } else {
                    r2 == (Run { s, log: l2, failures: r.failures })
                }
            }
    }
}

/// The memory is written down under the new name.
pub open spec fn rename_settled(
    t: TopologyModel,
    s: SyncerModel,
    log: Seq<Op>,
    name: Seq<char>,
    failures: Seq<Seq<char>>,
    r2: Run,
) -> bool {
    &&& memory_saved(
        s.memory,
        s.book,
        log,
        t,
        name,
        s.last_pass_at,
        s.dry_run,
        r2.s.memory,
        r2.s.book,
        r2.log,
    )
    &&& r2.s == (SyncerModel { memory: r2.s.memory, book: r2.s.book, ..s })
    &&& r2.failures == failures
}

/// What taking every noted entry out of a card comes to: what the card would
/// not let go is kept. A device that is gone took its entries with it.
pub open spec fn entries_taken(
    index: Option<u32>,
    owned: Set<Mac>,
    log: Seq<Op>,
    log2: Seq<Op>,
    kept: Set<Mac>,
) -> bool {
    match index {
        Some(i) => exists|macs: Seq<Mac>|
            {
                &&& macs.no_duplicates() && macs.to_set() == owned
                &&& grew(log, log2)
                &&& #[trigger] sets_all(since(log, log2), i, macs, false)
                &&& kept == failed_in(since(log, log2)).to_set()
            },
        None => log2 == log && kept == Set::<Mac>::empty(),
    }
}

/// What becomes of the note then: it goes, or it names what is still there.
pub open spec fn note_settled(
    b: BookModel,
    log: Seq<Op>,
    dev: Seq<char>,
    kept: Set<Mac>,
    b2: BookModel,
    log2: Seq<Op>,
    clean: bool,
) -> bool {
    if kept == Set::<Mac>::empty() && b.readable(dev) {
        clean && note_removed(b, log, dev, b2, log2)
    } else {
        !clean && exists|r: bool| note_written(b, log, dev, kept, b2, log2, r)
    }
}

/// The book once it has been said which of a note's entries the card would not
/// let go.
pub open spec fn taken_said(
    b: BookModel,
    dev: Seq<char>,
    log: Seq<Op>,
    log2: Seq<Op>,
) -> BookModel {
    let ops = since(log, log2);
    b.saying_all(refusal_warnings(dev, "unregister"@, failed_in(ops), errors_in(ops)))
}

/// The same once it has been said how that came out for an orphan.
pub open spec fn cleared_said(
    b: BookModel,
    dev: Seq<char>,
    owned: Set<Mac>,
    log: Seq<Op>,
    log2: Seq<Op>,
    kept: Set<Mac>,
) -> BookModel {
    taken_said(b, dev, log, log2).saying(
        cleared_text(
            dev,
            true,
            (owned.len() - kept.len()) as nat,
            kept.len(),
            kept == Set::<Mac>::empty() && b.readable(dev),
        ),
    )
}

/// The index a device has by its name.
pub open spec fn index_by_name(t: TopologyModel, dev: Seq<char>) -> Option<u32> {
    if t.names.contains_key(dev) {
        Some(t.names[dev])
    } else {
        None
    }
}

/// What is said of orphaned entries that could not be removed.
pub open spec fn left_text(dev: Seq<char>, n: nat) -> Seq<char> {
    dev + ": "@ + digits(n) + " orphaned address(es) could not be removed"@
}

/// What taking an orphan's entries out comes to, its note looked at under the
/// lock. A note that names nothing goes, unless it could not be read.
pub open spec fn orphan_cleared(
    t: TopologyModel,
    dev: Seq<char>,
    b: BookModel,
    log: Seq<Op>,
    b2: BookModel,
    log2: Seq<Op>,
    said: Option<Seq<char>>,
) -> bool {
    let owned = owned_in(b.dir, dev);
    if owned == Set::<Mac>::empty() {
        &&& said is None
        &&& if b.readable(dev) {
            note_removed(b, log, dev, b2, log2)
        } else {
            b2 == b && log2 == log
        }
    } else {
        exists|l1: Seq<Op>, kept: Set<Mac>, clean: bool|
            {
                &&& #[trigger] entries_taken(index_by_name(t, dev), owned, log, l1, kept)
                &&& #[trigger] note_settled(
                    cleared_said(b, dev, owned, log, l1, kept),
                    l1,
                    dev,
                    kept,
                    b2,
                    log2,
                    clean,
                )
                &&& said == if clean {
                    None
                } else {
                    Some(left_text(dev, kept.len()))
                }
            }
    }
}

/// What an orphan that was not renamed comes to: its entries go, and what was
/// known of it is forgotten. A pass that may not touch the card only looks.
pub open spec fn orphan_taken(
    t: TopologyModel,
    apply: bool,
    dev: Seq<char>,
    r: Run,
    r2: Run,
) -> bool {
    if !apply || r.s.dry_run {
        exists|b1: BookModel| #[trigger]
            note_looked(r.s.book, r.log, dev, b1, r2.log) && r2 == (Run {
                s: r.s.with_book(still_said(b1, dev)),
                log: r2.log,
                failures: r.failures,
            })
    } else {
        exists|
            bl: BookModel,
            ll: Seq<Op>,
            b1: BookModel,
            l1: Seq<Op>,
            b2: BookModel,
            l2: Seq<Op>,
            said: Option<Seq<char>>,
        |
            {
                &&& #[trigger] lock_asked(r.s.book, r.log, dev, bl, ll)
                &&& #[trigger] note_looked(bl, ll, dev, b1, l1)
                &&& #[trigger] orphan_cleared(t, dev, b1, l1, b2, l2, said)
                &&& r2 == (Run {
                    s: without_device(r.s.with_book(b2), dev),
                    log: l2.push(Op::Unlock { dev }),
                    failures: match said {
                        Some(x) => r.failures.push(x),
                        None => r.failures,
                    },
                })
            }
    }
}

/// The book once it has been said that an orphan's addresses are still there.
pub open spec fn still_said(b: BookModel, dev: Seq<char>) -> BookModel {
    if owned_in(b.dir, dev) == Set::<Mac>::empty() {
        b
    } else {
        b.saying(still_text(dev, owned_in(b.dir, dev).len()))
    }
}

/// What becomes of one orphan. A name gone while its interface lives on is a
/// rename, told by the recorded index.
pub open spec fn orphan_settled(
    t: TopologyModel,
    apply: bool,
    dev: Seq<char>,
    r: Run,
    r2: Run,
) -> bool {
    if t.names.contains_key(dev) {
        orphan_taken(t, apply, dev, r, r2)
    } else {
        exists|b1: BookModel, l1: Seq<Op>| #[trigger]
            file_read(r.s.book, r.log, index_name(dev), b1, l1) && orphan_traced(
                t,
                apply,
                dev,
                renamed_to(t, b1.dir, dev),
                Run { s: r.s.with_book(b1), log: l1, failures: r.failures },
                r2,
            )
    }
}

/// What becomes of an orphan once it is known whether it was renamed.
pub open spec fn orphan_traced(
    t: TopologyModel,
    apply: bool,
    dev: Seq<char>,
    target: Option<(u32, Seq<char>)>,
    r: Run,
    r2: Run,
) -> bool {
    match target {
        Some((index, name)) => orphan_followed(t, apply, dev, index, name, r, r2),
        None => orphan_taken(t, apply, dev, r, r2),
    }
}

/// Whether these orphans were settled one after the other, with these moments
/// before and after.
pub open spec fn each_settled(
    t: TopologyModel,
    apply: bool,
    devs: Seq<Seq<char>>,
    runs: Seq<Run>,
) -> bool {
    &&& runs.len() == devs.len() + 1
    &&& forall|i: int|
        #![trigger devs[i]]
        0 <= i < devs.len() ==> orphan_settled(t, apply, devs[i], runs[i], runs[i + 1])
}

/// What settling all orphans comes to.
pub open spec fn orphans_dropped(t: TopologyModel, apply: bool, r: Run, r2: Run) -> bool {
    exists|devs: Seq<Seq<char>>, runs: Seq<Run>|
        {
            &&& #[trigger] each_settled(t, apply, devs, runs)
            &&& orphans_found(r.s, r.log, runs[0].s, runs[0].log, devs)
            &&& runs[0].failures == r.failures
            &&& r2 == runs.last()
        }
}

impl Syncer {
    /// Devices with a note that are no longer uplinks, and have not been for
    /// long enough to believe it.
    ///
    /// The grace period is the point: reloading the network takes a bridge away
    /// for a moment, and without it every registered address would be deleted
    /// from a live uplink. Zero grace is the one-shot behaviour.
    pub fn orphaned<W: FdbWriter>(&mut self, sock: &mut Recorded<W>) -> (r: Vec<String>)
        ensures
            final(sock).marks() == old(sock).marks(),
            same_cost(*old(self), *final(self)),
            orphans_found(
                old(self)@,
                old(sock).log(),
                final(self)@,
                final(sock).log(),
                texts(r@),
            ),
    {
        if !self.authoritative {
            self.absent_since = KeyMap::new();
            return Vec::new();
        }
        let ghost s = self@;
        let ghost log = sock.log();
        let now: u64 = sock.now().nanos;
        let ghost clock = sock.log().last();
        let noted = self.book.noted_devices_or_none(sock);
        assert(sock.log()[log.len() as int] == clock);
        let ghost devs = texts(noted@);
        let ghost b1 = self@.book;
        let ghost sn = self@;
        self.say_missing(&noted);
        proof {
            lemma_waiting_same(s, sn, devs);
            assert(devices_or_none(s.book, log.push(clock), b1, sock.log(), devs));
        }
        proof {
            assert forall|d: Seq<char>| #[trigger] self@.is_live(d) == s.is_live(d) by {
                lemma_live_same(s, self@, d);
            }
        }
        assert(absent_after(self@, devs, now) =~= absent_after(s, devs, now));
        let out = self.overdue_among(&noted, now);
        assert(overdue_of(s, devs, now) == texts(out@));
        out
    }

    /// Whether a device is one of the uplinks.
    fn has_uplink(&self, dev: &String) -> (r: bool)
        ensures
            r == self@.is_live(dev@),
    {
        let ghost pairs = self@.pairs;
        let mut i: usize = 0;
        while i < self.pairs.len()
            invariant
                i <= self.pairs@.len(),
                pairs == self@.pairs,
                pairs == pair_list(self.pairs@),
                forall|j: int| 0 <= j < i ==> (#[trigger] pairs[j]).dev != dev@,
            decreases self.pairs@.len() - i,
        {
            assert(pairs[i as int].dev == self.pairs@[i as int].dev@);
            if self.pairs[i].dev == *dev {
                assert(self@.pairs[i as int].dev == dev@);
                return true;
            }
            i += 1;
        }
        false
    }

    /// Says which of the noted devices are missing for the first time.
    fn say_missing(&mut self, noted: &Vec<String>)
        ensures
            same_cost(*old(self), *final(self)),
            final(self)@ == old(self)@.saying_all(waiting_lines(old(self)@, texts(noted@))),
    {
        let ghost s = self@;
        let ghost devs = texts(noted@);
        let mut i: usize = 0;
        proof {
            assert(devs.take(0) =~= Seq::empty());
            assert(s.book.journal + Seq::<Seq<char>>::empty() =~= s.book.journal);
        }
        while i < noted.len()
            invariant
                i <= noted@.len(),
                devs == texts(noted@),
                same_cost(*old(self), *self),
                self@ == s.saying_all(waiting_lines(s, devs.take(i as int))),
            decreases noted@.len() - i,
        {
            let dev = &noted[i];
            proof {
                let more = devs.take(i + 1);
                assert(more.drop_last() =~= devs.take(i as int));
                assert(more.last() == dev@);
            }
            let ghost head = waiting_lines(s, devs.take(i as int));
            let live = self.has_uplink(dev);
            proof {
                lemma_live_same(s, self@, dev@);
            }
            if self.orphan_grace > 0 && !live && !self.absent_since.contains_key(dev) {
                let line = say_waiting(dev, self.orphan_grace);
                assert((s.book.journal + head).push(line@) =~= s.book.journal + head.push(line@));
                self.book.say(line);
            }
            i += 1;
        }
        assert(devs.take(i as int) =~= devs);
    }

    /// Which of the noted devices are no uplinks, and have not been for long
    /// enough by this clock reading, in nanoseconds.
    pub fn overdue_among(&mut self, noted: &Vec<String>, now: u64) -> (r: Vec<String>)
        ensures
            same_cost(*old(self), *final(self)),
            texts(r@) == overdue_of(old(self)@, texts(noted@), now),
            final(self)@ == (SyncerModel {
                absent_since: absent_after(old(self)@, texts(noted@), now),
                ..old(self)@
            }),
    {
        let ghost s = self@;
        let mut live: KeySet<String> = KeySet::new();
        let mut k: usize = 0;
        while k < self.pairs.len()
            invariant
                self@ == s,
                s.pairs == pair_list(self.pairs@),
                k <= self.pairs@.len(),
                forall|d: Seq<char>| #[trigger]
                    live@.contains(d) <==> exists|i: int|
                        0 <= i < k && (#[trigger] s.pairs[i]).dev == d,
            decreases self.pairs@.len() - k,
        {
            let ghost live0 = live@;
            let _ = live.insert(self.pairs[k].dev.clone());
            proof {
                assert(s.pairs[k as int].dev == self.pairs@[k as int].dev@);
                assert forall|d: Seq<char>| #[trigger]
                    live@.contains(d) <==> exists|i: int|
                        0 <= i < k + 1 && (#[trigger] s.pairs[i]).dev == d by {
                    if live0.contains(d) {
                        let i = choose|i: int| 0 <= i < k && (#[trigger] s.pairs[i]).dev == d;
                        assert(s.pairs[i].dev == d);
                    }
                }
            }
            k += 1;
        }
        let ghost devs = texts(noted@);
        let ghost absent = absent_after(s, devs, now);
        let ghost late = |d: Seq<char>| overdue(absent, s.orphan_grace, now, d);
        let mut next: KeyMap<String, u64> = KeyMap::new();
        let mut out: Vec<String> = Vec::new();
        let mut i: usize = 0;
        proof {
            reveal(Seq::filter);
            assert(devs.take(0) =~= Seq::empty());
            assert(texts(out@) =~= Seq::empty());
        }
        while i < noted.len()
            invariant
                devs == texts(noted@),
                absent == absent_after(s, devs, now),
                late == (|d: Seq<char>| overdue(absent, s.orphan_grace, now, d)),
                self.absent_since@ == s.absent_since,
                self.orphan_grace == s.orphan_grace,
                forall|d: Seq<char>| #[trigger] live@.contains(d) <==> s.is_live(d),
                i <= noted@.len(),
                forall|d: Seq<char>| #[trigger]
                    next@.contains_key(d) <==> devs.take(i as int).contains(d) && !s.is_live(d),
                forall|d: Seq<char>| #[trigger]
                    next@.contains_key(d) ==> absent.contains_key(d) && next@[d] == absent[d],
                texts(out@) == devs.take(i as int).filter(late),
            decreases noted@.len() - i,
        {
            let ghost next0 = next@;
            let ghost out0 = out@;
            let dev = &noted[i];
            proof {
                reveal(Seq::filter);
                let more = devs.take(i + 1);
                assert(more.drop_last() =~= devs.take(i as int));
                assert(more.last() == dev@);
                assert(more =~= devs.take(i as int).push(dev@));
                lemma_push_contains(devs.take(i as int), dev@);
                assert(devs.contains(dev@)) by {
                    assert(devs[i as int] == dev@);
                }
            }
            if !live.contains(dev) {
                let since: u64 = match self.absent_since.get(dev) {
                    Some(t) => *t,
                    None => now,
                };
                next.insert(dev.clone(), since);
                let gone: u64 = if now >= since {
                    now - since
                } else {
                    0
                };
                if gone >= self.orphan_grace {
                    out.push(dev.clone());
                    assert(texts(out@) =~= texts(out0).push(dev@));
                }
            } else {
                assert(!late(dev@));
            }
            i += 1;
        }
        proof {
            assert(devs.take(i as int) =~= devs);
            assert(next@ =~= absent);
        }
        self.absent_since = next;
        assert(overdue_of(s, devs, now) == texts(out@));
        out
    }

    /// Where a noted device's interface lives now, when the name is gone but
    /// the recorded index is not. `None` for a note without index or an
    /// interface really gone.
    pub fn renamed_target<W: FdbWriter>(
        &mut self,
        sock: &mut Recorded<W>,
        dev: &String,
        topo: &Topology,
    ) -> (r: Option<(u32, String)>)
        ensures
            final(sock).marks() == old(sock).marks(),
            same_cost(*old(self), *final(self)),
            file_read(
                old(self)@.book,
                old(sock).log(),
                index_name(dev@),
                final(self)@.book,
                final(sock).log(),
            ),
            final(self)@ == old(self)@.with_book(final(self)@.book),
            match (renamed_to(topo@, final(self)@.book.dir, dev@), r) {
                (Some((i, n)), Some((j, name))) => i == j && n == name@,
                (None, None) => true,
                _ => false,
            },
    {
        let index = match self.book.noted_index(sock, dev) {
            Some(i) => i,
            None => {
                return None;
            },
        };
        match topo.at(index) {
            Some(link) => if link.name == *dev {
                None
            } else {
                Some((index, link.name.clone()))
            },
            None => None,
        }
    }

    /// Takes back what was registered for devices that are no longer uplinks.
    /// Left alone, the card goes on steering those addresses to a port that
    /// leads nowhere.
    pub fn drop_orphans<W: FdbWriter>(
        &mut self,
        sock: &mut Recorded<W>,
        topo: &Topology,
        apply: bool,
        failures: &mut Vec<String>,
    )
        ensures
            final(sock).marks() == old(sock).marks(),
            same_cost(*old(self), *final(self)),
            orphans_dropped(
                topo@,
                apply,
                (Run { s: old(self)@, log: old(sock).log(), failures: texts(old(failures)@) }),
                (Run {
                    s: final(self)@,
                    log: final(sock).log(),
                    failures: texts(final(failures)@),
                }),
            ),
    {
        let orphans = self.orphaned(sock);
        let ghost devs = texts(orphans@);
        let ghost first = Run { s: self@, log: sock.log(), failures: texts(failures@) };
        let ghost mut runs: Seq<Run> = seq![first];
        let mut i: usize = 0;
        assert(devs.take(0) =~= Seq::empty());
        while i < orphans.len()
            invariant
                sock.marks() == old(sock).marks(),
                same_cost(*old(self), *self),
                devs == texts(orphans@),
                i <= orphans@.len(),
                each_settled(topo@, apply, devs.take(i as int), runs),
                runs[0] == first,
                runs.last() == (Run { s: self@, log: sock.log(), failures: texts(failures@) }),
            decreases orphans@.len() - i,
        {
            let ghost before = runs;
            self.settle_orphan(sock, topo, apply, &orphans[i], failures);
            proof {
                let now = Run { s: self@, log: sock.log(), failures: texts(failures@) };
                runs = before.push(now);
                let done = devs.take(i as int);
                let next = devs.take(i + 1);
                assert forall|j: int|
                    #![trigger next[j]]
                    0 <= j < next.len() implies orphan_settled(
                    topo@,
                    apply,
                    next[j],
                    runs[j],
                    runs[j + 1],
                ) by {
                    if j < i {
                        assert(done[j] == next[j]);
                        assert(runs[j] == before[j]);
                        assert(runs[j + 1] == before[j + 1]);
                    }
                }
            }
            i += 1;
        }
        assert(devs.take(i as int) =~= devs);
        assert(each_settled(topo@, apply, devs, runs));
    }

    fn settle_orphan<W: FdbWriter>(
        &mut self,
        sock: &mut Recorded<W>,
        topo: &Topology,
        apply: bool,
        dev: &String,
        failures: &mut Vec<String>,
    )
        ensures
            final(sock).marks() == old(sock).marks(),
            same_cost(*old(self), *final(self)),
            orphan_settled(
                topo@,
                apply,
                dev@,
                (Run { s: old(self)@, log: old(sock).log(), failures: texts(old(failures)@) }),
                (Run {
                    s: final(self)@,
                    log: final(sock).log(),
                    failures: texts(final(failures)@),
                }),
            ),
    {
        let ghost r = Run { s: self@, log: sock.log(), failures: texts(failures@) };
        if topo.get(dev).is_none() {
            let target = self.renamed_target(sock, dev, topo);
            let ghost b1 = self@.book;
            let ghost l1 = sock.log();
            let ghost r1 = Run { s: self@, log: l1, failures: texts(failures@) };
            match target {
                Some((index, name)) => {
                    self.follow_rename(sock, topo, apply, dev, index, &name, failures);
                },
                None => {
                    self.take_orphan(sock, topo, apply, dev, failures);
                },
            }
            proof {
                let r2 = Run { s: self@, log: sock.log(), failures: texts(failures@) };
                assert(file_read(r.s.book, r.log, index_name(dev@), b1, l1));
                assert(r1 == (Run { s: r.s.with_book(b1), log: l1, failures: r.failures }));
                assert(orphan_traced(topo@, apply, dev@, renamed_to(topo@, b1.dir, dev@), r1, r2));
                assert(orphan_settled(topo@, apply, dev@, r, r2));
            }
        } else {
            self.take_orphan(sock, topo, apply, dev, failures);
        }
    }

    fn follow_rename<W: FdbWriter>(
        &mut self,
        sock: &mut Recorded<W>,
        topo: &Topology,
        apply: bool,
        dev: &String,
        index: u32,
        name: &String,
        failures: &Vec<String>,
    )
        ensures
            final(sock).marks() == old(sock).marks(),
            same_cost(*old(self), *final(self)),
            orphan_followed(
                topo@,
                apply,
                dev@,
                index,
                name@,
                (Run { s: old(self)@, log: old(sock).log(), failures: texts(failures@) }),
                (Run { s: final(self)@, log: final(sock).log(), failures: texts(failures@) }),
            ),
    {
        if !apply || self.dry_run {
            self.book.say(say_would_follow(dev, name));
            return;
        }
        let ghost s0 = self@;
        let ghost l0 = sock.log();
        // before the note moves: moving it removes the memory's file
        self.memory.load_ports(&mut self.book, sock, dev, topo);
        let ghost m1 = self@.memory;
        let ghost b1 = self@.book;
        let ghost l1 = sock.log();
        assert(memory_loaded(s0.memory, s0.book, l0, topo@, dev@, m1, b1, l1));
        let moved = self.book.migrate_note(sock, dev, name, index);
        let ghost b2 = self@.book;
        let ghost l2 = sock.log();
        assert(note_moved(b1, l1, dev@, name@, index, b2, l2, moved));
        let ghost s = self@;
        let ghost r = Run { s: s0, log: l0, failures: texts(failures@) };
        assert(s == (SyncerModel { memory: m1, book: b2, ..r.s }));
        if !moved {
            proof {
                let r2 = Run { s, log: l2, failures: texts(failures@) };
                assert(memory_loaded(r.s.memory, r.s.book, r.log, topo@, dev@, m1, b1, l1));
                assert(orphan_followed(topo@, apply, dev@, index, name@, r, r2));
            }
            return;
        }
        self.rename_state(dev, name);
        let ghost s3 = self@;
        let pass_at = self.last_pass_at;
        let dry_run = self.dry_run;
        self.memory.save_ports(&mut self.book, sock, name, topo, pass_at, dry_run);
        proof {
            let r2 = Run { s: self@, log: sock.log(), failures: texts(failures@) };
            assert(rename_settled(topo@, s3, l2, name@, r.failures, r2));
            assert(memory_loaded(r.s.memory, r.s.book, r.log, topo@, dev@, m1, b1, l1));
            assert(orphan_followed(topo@, apply, dev@, index, name@, r, r2));
        }
    }

    /// Carries what is known of a device over to its new name.
    fn rename_state(&mut self, dev: &String, name: &String)
        ensures
            same_cost(*old(self), *final(self)),
            final(self)@ == renamed_state(old(self)@, dev@, name@),
    {
        self.memory.rename(dev, name);
        self.book.said.rename(dev, name);
        self.book.say(say_follows(dev, name));
        carry_entry(&mut self.carried_wire, dev, name);
        carry_entry(&mut self.carried, dev, name);
        assert(mac_sets(self.carried_wire@) =~= carried_entry(
            old(self)@.carried_wire,
            dev@,
            name@,
        ));
        assert(carried_models(self.carried@) =~= carried_entry(
            old(self)@.carried,
            dev@,
            name@,
        ));
    }

    fn take_orphan<W: FdbWriter>(
        &mut self,
        sock: &mut Recorded<W>,
        topo: &Topology,
        apply: bool,
        dev: &String,
        failures: &mut Vec<String>,
    )
        ensures
            final(sock).marks() == old(sock).marks(),
            same_cost(*old(self), *final(self)),
            orphan_taken(
                topo@,
                apply,
                dev@,
                (Run { s: old(self)@, log: old(sock).log(), failures: texts(old(failures)@) }),
                (Run {
                    s: final(self)@,
                    log: final(sock).log(),
                    failures: texts(final(failures)@),
                }),
            ),
    {
        if !apply || self.dry_run {
            let owned = self.book.load_owned(sock, dev);
            let ghost b1 = self@.book;
            if !owned.is_empty() {
                self.book.say(say_still(dev, owned.len() as u64));
            }
            proof {
                let r = Run {
                    s: old(self)@,
                    log: old(sock).log(),
                    failures: texts(old(failures)@),
                };
                assert(note_looked(r.s.book, r.log, dev@, b1, sock.log()));
                assert(self@ == r.s.with_book(still_said(b1, dev@)));
            }
            return;
        }
        let ghost s0 = self@;
        let ghost l0 = sock.log();
        let ghost said0 = texts(failures@);
        self.book.locked(sock, dev);
        let ghost bl = self@.book;
        let ghost ll = sock.log();
        assert(lock_asked(s0.book, l0, dev@, bl, ll));
        let owned = self.book.load_owned(sock, dev);
        let ghost b1 = self@.book;
        let ghost l1 = sock.log();
        assert(note_looked(bl, ll, dev@, b1, l1));
        let left = self.clear_orphan(sock, topo, dev, &owned);
        let ghost b2 = self@.book;
        let ghost l2 = sock.log();
        let ghost said: Option<Seq<char>> = match left {
            Some(n) => Some(left_text(dev@, n as nat)),
            None => None,
        };
        assert(orphan_cleared(topo@, dev@, b1, l1, b2, l2, said));
        if let Some(n) = left {
            let mut text = dev.clone();
            push_text(&mut text, ": ");
            push_number(&mut text, n as u64);
            push_text(&mut text, " orphaned address(es) could not be removed");
            let ghost before = failures@;
            assert(text@ =~= left_text(dev@, n as nat));
            let ghost x = text@;
            failures.push(text);
            assert(texts(failures@) =~= texts(before).push(x));
        }
        sock.unlock(dev);
        self.memory.forget(dev);
        self.book.said.forget(dev);
        let _ = self.carried_wire.remove(dev);
        let _ = self.carried.remove(dev);
        proof {
            assert(mac_sets(self.carried_wire@) =~= s0.carried_wire.remove(dev@));
            assert(carried_models(self.carried@) =~= s0.carried.remove(dev@));
            let r = Run { s: s0, log: l0, failures: said0 };
            let r2 = Run { s: self@, log: sock.log(), failures: texts(failures@) };
            assert(self@ == without_device(r.s.with_book(b2), dev@));
            assert(lock_asked(r.s.book, r.log, dev@, bl, ll));
            assert(orphan_taken(topo@, apply, dev@, r, r2));
        }
    }

    /// Takes the entries of an orphan out and settles its note. How many could
    /// not be removed, when the note had to stay.
    fn clear_orphan<W: FdbWriter>(
        &mut self,
        sock: &mut Recorded<W>,
        topo: &Topology,
        dev: &String,
        owned: &KeySet<Mac>,
    ) -> (r: Option<usize>)
        requires
            owned@ == owned_in(old(self)@.book.dir, dev@),
        ensures
            final(sock).marks() == old(sock).marks(),
            same_cost(*old(self), *final(self)),
            final(self)@ == old(self)@.with_book(final(self)@.book),
            orphan_cleared(
                topo@,
                dev@,
                old(self)@.book,
                old(sock).log(),
                final(self)@.book,
                final(sock).log(),
                match r {
                    Some(n) => Some(left_text(dev@, n as nat)),
                    None => None,
                },
            ),
    {
        if owned.is_empty() {
            if self.book.note_is_readable(dev) {
                self.book.remove_note(sock, dev);
            }
            return None;
        }
        let ghost log = sock.log();
        let ghost b = self@.book;
        let kept = take_entries(&mut self.book, sock, dev, topo.index_of(dev), owned);
        let ghost l1 = sock.log();
        let left = kept.len();
        let gone = owned.len() - left;
        let done = kept.is_empty() && self.book.note_is_readable(dev);
        self.book.say(say_cleared(dev, true, gone as u64, left as u64, done));
        assert(entries_taken(index_by_name(topo@, dev@), owned@, log, l1, kept@));
        let n = kept.len();
        let ghost bs = self@.book;
        assert(bs == cleared_said(b, dev@, owned@, log, l1, kept@));
        let clean = self.settle_note(sock, dev, &kept);
        assert(note_settled(bs, l1, dev@, kept@, self@.book, sock.log(), clean));
        if clean {
            None
        } else {
            Some(n)
        }
    }

    /// Removes a note all of whose entries are gone, or makes it name those
    /// that are not. Whether it is gone.
    pub(crate) fn settle_note<W: FdbWriter>(
        &mut self,
        sock: &mut Recorded<W>,
        dev: &String,
        kept: &KeySet<Mac>,
    ) -> (r: bool)
        ensures
            final(sock).marks() == old(sock).marks(),
            same_cost(*old(self), *final(self)),
            final(self)@ == old(self)@.with_book(final(self)@.book),
            note_settled(
                old(self)@.book,
                old(sock).log(),
                dev@,
                kept@,
                final(self)@.book,
                final(sock).log(),
                r,
            ),
    {
        if kept.is_empty() && self.book.note_is_readable(dev) {
            self.book.remove_note(sock, dev);
            true
        } else {
            let r = self.book.write_owned(sock, dev, kept);
            assert(note_written(
                old(self)@.book,
                old(sock).log(),
                dev@,
                kept@,
                self@.book,
                sock.log(),
                r,
            ));
            false
        }
    }
}

/// Takes every noted entry out of a card. What could not be removed.
pub(crate) fn take_entries<W: FdbWriter>(
    book: &mut Notebook,
    sock: &mut Recorded<W>,
    dev: &String,
    index: Option<u32>,
    owned: &KeySet<Mac>,
) -> (r: KeySet<Mac>)
    ensures
        final(sock).marks() == old(sock).marks(),
        entries_taken(index, owned@, old(sock).log(), final(sock).log(), r@),
        final(book)@ == taken_said(old(book)@, dev@, old(sock).log(), final(sock).log()),
        r@.len() <= owned@.len(),
{
    let ghost log = sock.log();
    let _ = owned.len();
    match index {
        Some(i) => {
            let macs = list_in_order(owned);
            let out = unregister_all(sock, i, &macs);
            proof {
                lemma_mac_models(out.failed@);
                let ops = since(log, sock.log());
                lemma_errors(ops);
                lemma_answered(ops, i, macs@, false);
                assert(out.failed@.to_set().subset_of(owned@)) by {
                    assert forall|m: Mac| out.failed@.to_set().contains(m) implies owned@.contains(
                        m,
                    ) by {
                        assert(failed_in(ops).contains(m));
                        assert(macs@.to_set().contains(m));
                    }
                }
                vstd::set_lib::lemma_len_subset(out.failed@.to_set(), owned@);
            }
            warn_refusals(book, dev, "unregister", &out.failed, &out.errors);
            KeySet::of_list(&out.failed)
        },
        None => {
            proof {
                lemma_grew_same(log);
                assert(refusal_warnings(
                    dev@,
                    "unregister"@,
                    failed_in(Seq::<Op>::empty()),
                    errors_in(Seq::<Op>::empty()),
                ) =~= Seq::<Seq<char>>::empty());
                assert(book@.journal + Seq::<Seq<char>>::empty() =~= book@.journal);
            }
            KeySet::new()
        },
    }
}

/// Whether nothing goes into a card.
pub open spec fn removals_only(ops: Seq<Op>) -> bool {
    forall|i: int| 0 <= i < ops.len() ==> ((#[trigger] ops[i]) matches Op::Card { add, .. } ==> !add)
}

/// A stretch of files and locks puts nothing into a card.
pub proof fn lemma_removals_files(dir: Files, log: Seq<Op>, dir2: Files, log2: Seq<Op>)
    requires
        filework(dir, log, dir2, log2),
    ensures
        removals_only(since(log, log2)),
{
    let ops = since(log, log2);
    assert forall|i: int| 0 <= i < ops.len() implies ((#[trigger] ops[i]) matches Op::Card {
        add,
        ..
    } ==> !add) by {
        assert(is_filework(ops[i]));
    }
}

/// Two stretches that put nothing into a card make one.
pub proof fn lemma_removals_trans(l0: Seq<Op>, l1: Seq<Op>, l2: Seq<Op>)
    requires
        grew(l0, l1),
        grew(l1, l2),
        removals_only(since(l0, l1)),
        removals_only(since(l1, l2)),
    ensures
        grew(l0, l2),
        removals_only(since(l0, l2)),
{
    lemma_grew_trans(l0, l1, l2);
    let a = since(l0, l1);
    let b = since(l1, l2);
    let c = since(l0, l2);
    assert forall|i: int| 0 <= i < c.len() implies ((#[trigger] c[i]) matches Op::Card { add, .. }
        ==> !add) by {
        if i < a.len() {
            assert(c[i] == a[i]);
        } else {
            assert(c[i] == b[i - a.len()]);
        }
    }
}

/// Whether a stretch keeps to the record and puts nothing into a card.
pub open spec fn only_takes_out(
    g: Ground,
    l0: Seq<Op>,
    log: Seq<Op>,
    dir2: Files,
    log2: Seq<Op>,
) -> bool {
    &&& sound(g, l0, dir2, log2)
    &&& grew(log, log2)
    &&& removals_only(since(log, log2))
}

/// Such a stretch can be continued with files and locks.
pub proof fn lemma_takes_out_files(
    g: Ground,
    l0: Seq<Op>,
    log: Seq<Op>,
    d1: Files,
    l1: Seq<Op>,
    d2: Files,
    l2: Seq<Op>,
)
    requires
        only_takes_out(g, l0, log, d1, l1),
        filework(d1, l1, d2, l2),
    ensures
        only_takes_out(g, l0, log, d2, l2),
{
    lemma_sound_files(g, l0, d1, l1, d2, l2);
    lemma_removals_files(d1, l1, d2, l2);
    lemma_removals_trans(log, l1, l2);
}

/// And starts with nothing.
pub proof fn lemma_takes_out_same(g: Ground, l0: Seq<Op>, dir: Files, log: Seq<Op>)
    requires
        sound(g, l0, dir, log),
    ensures
        only_takes_out(g, l0, log, dir, log),
{
    lemma_grew_same(log);
}

/// Taking entries out that are on record keeps to the record.
pub proof fn lemma_entries_taken(
    g: Ground,
    l0: Seq<Op>,
    start: Seq<Op>,
    dir: Files,
    index: Option<u32>,
    dev: Seq<char>,
    owned: Set<Mac>,
    log: Seq<Op>,
    log2: Seq<Op>,
    kept: Set<Mac>,
)
    requires
        only_takes_out(g, l0, start, dir, log),
        entries_taken(index, owned, log, log2, kept),
        index matches Some(i) ==> forall|m: Mac| #[trigger]
            owned.contains(m) ==> noted_in(g.t, dir, dev, i, m),
    ensures
        only_takes_out(g, l0, start, dir, log2),
{
    if let Some(i) = index {
        let macs = choose|macs: Seq<Mac>|
            {
                &&& macs.no_duplicates() && macs.to_set() == owned
                &&& grew(log, log2)
                &&& #[trigger] sets_all(since(log, log2), i, macs, false)
                &&& kept == failed_in(since(log, log2)).to_set()
            };
        assert forall|m: Mac| #[trigger] macs.contains(m) implies ever_noted(
            g,
            since(l0, log),
            i,
            m,
        ) by {
            assert(macs.to_set().contains(m));
            assert(noted_in(g.t, replay(g.dir, since(l0, log)), dev, i, m));
            lemma_ever_now(g, since(l0, log), dev, i, m);
        }
        lemma_sound_cards(g, l0, dir, log, log2, i, macs, false);
        lemma_removals_trans(start, log, log2);
    }
}

/// Settling a note is a matter of files and locks only.
pub proof fn lemma_filework_note_settled(
    b: BookModel,
    log: Seq<Op>,
    dev: Seq<char>,
    kept: Set<Mac>,
    b2: BookModel,
    log2: Seq<Op>,
    clean: bool,
)
    requires
        note_settled(b, log, dev, kept, b2, log2, clean),
    ensures
        filework(b.dir, log, b2.dir, log2),
{
    if kept == Set::<Mac>::empty() && b.readable(dev) {
        lemma_filework_removed(b, log, dev, b2, log2);
    } else {
        let r = choose|r: bool| note_written(b, log, dev, kept, b2, log2, r);
        lemma_filework_written(b, log, dev, kept, b2, log2, r);
    }
}

proof fn lemma_orphan_cleared(
    g: Ground,
    l0: Seq<Op>,
    start: Seq<Op>,
    dev: Seq<char>,
    b: BookModel,
    log: Seq<Op>,
    b2: BookModel,
    log2: Seq<Op>,
    said: Option<Seq<char>>,
)
    requires
        only_takes_out(g, l0, start, b.dir, log),
        orphan_cleared(g.t, dev, b, log, b2, log2, said),
    ensures
        only_takes_out(g, l0, start, b2.dir, log2),
{
    let owned = owned_in(b.dir, dev);
    lemma_filework_same(b.dir, log);
    if owned == Set::<Mac>::empty() {
        if b.readable(dev) {
            lemma_filework_removed(b, log, dev, b2, log2);
        }
        lemma_takes_out_files(g, l0, start, b.dir, log, b2.dir, log2);
    } else {
        let (l1, kept, clean) = choose|l1: Seq<Op>, kept: Set<Mac>, clean: bool|
            {
                &&& #[trigger] entries_taken(index_by_name(g.t, dev), owned, log, l1, kept)
                &&& #[trigger] note_settled(
                    cleared_said(b, dev, owned, log, l1, kept),
                    l1,
                    dev,
                    kept,
                    b2,
                    log2,
                    clean,
                )
                &&& said == if clean {
                    None
                } else {
                    Some(left_text(dev, kept.len()))
                }
            };
        lemma_entries_taken(
            g,
            l0,
            start,
            b.dir,
            index_by_name(g.t, dev),
            dev,
            owned,
            log,
            l1,
            kept,
        );
        let bs = cleared_said(b, dev, owned, log, l1, kept);
        lemma_filework_note_settled(bs, l1, dev, kept, b2, log2, clean);
        lemma_takes_out_files(g, l0, start, b.dir, l1, b2.dir, log2);
    }
}

proof fn lemma_orphan_taken(
    g: Ground,
    l0: Seq<Op>,
    start: Seq<Op>,
    apply: bool,
    dev: Seq<char>,
    r: Run,
    r2: Run,
)
    requires
        only_takes_out(g, l0, start, r.s.book.dir, r.log),
        orphan_taken(g.t, apply, dev, r, r2),
    ensures
        only_takes_out(g, l0, start, r2.s.book.dir, r2.log),
        same_setup(r.s, r2.s),
{
    if !apply || r.s.dry_run {
        let b1 = choose|b1: BookModel| #[trigger]
            note_looked(r.s.book, r.log, dev, b1, r2.log) && r2 == (Run {
                s: r.s.with_book(still_said(b1, dev)),
                log: r2.log,
                failures: r.failures,
            });
        lemma_filework_looked(r.s.book, r.log, dev, b1, r2.log);
        lemma_takes_out_files(g, l0, start, r.s.book.dir, r.log, r2.s.book.dir, r2.log);
    } else {
        let (bl, ll, b1, l1, b2, l2, said) = choose|
            bl: BookModel,
            ll: Seq<Op>,
            b1: BookModel,
            l1: Seq<Op>,
            b2: BookModel,
            l2: Seq<Op>,
            said: Option<Seq<char>>,
        |
            {
                &&& #[trigger] lock_asked(r.s.book, r.log, dev, bl, ll)
                &&& #[trigger] note_looked(bl, ll, dev, b1, l1)
                &&& #[trigger] orphan_cleared(g.t, dev, b1, l1, b2, l2, said)
                &&& r2 == (Run {
                    s: without_device(r.s.with_book(b2), dev),
                    log: l2.push(Op::Unlock { dev }),
                    failures: match said {
                        Some(x) => r.failures.push(x),
                        None => r.failures,
                    },
                })
            };
        lemma_filework_one(r.s.book.dir, r.log, ll.last());
        lemma_takes_out_files(g, l0, start, r.s.book.dir, r.log, bl.dir, ll);
        lemma_filework_looked(bl, ll, dev, b1, l1);
        lemma_takes_out_files(g, l0, start, bl.dir, ll, b1.dir, l1);
        lemma_orphan_cleared(g, l0, start, dev, b1, l1, b2, l2, said);
        lemma_filework_one(b2.dir, l2, Op::Unlock { dev });
        lemma_takes_out_files(g, l0, start, b2.dir, l2, b2.dir, r2.log);
    }
}

proof fn lemma_orphan_followed(
    g: Ground,
    l0: Seq<Op>,
    start: Seq<Op>,
    apply: bool,
    dev: Seq<char>,
    index: u32,
    name: Seq<char>,
    r: Run,
    r2: Run,
)
    requires
        only_takes_out(g, l0, start, r.s.book.dir, r.log),
        orphan_followed(g.t, apply, dev, index, name, r, r2),
    ensures
        only_takes_out(g, l0, start, r2.s.book.dir, r2.log),
        same_setup(r.s, r2.s),
{
    if apply && !r.s.dry_run {
        let (m1, b1, l1, b2, l2, moved) = choose|
            m1: MemoryModel,
            b1: BookModel,
            l1: Seq<Op>,
            b2: BookModel,
            l2: Seq<Op>,
            moved: bool,
        |
            {
                let s = SyncerModel { memory: m1, book: b2, ..r.s };
                &&& #[trigger] memory_loaded(
                    r.s.memory,
                    r.s.book,
                    r.log,
                    g.t,
                    dev,
                    m1,
                    b1,
                    l1,
                )
                &&& #[trigger] note_moved(b1, l1, dev, name, index, b2, l2, moved)
                &&& if moved {
                    rename_settled(g.t, renamed_state(s, dev, name), l2, name, r.failures, r2)
                } else {
                    r2 == (Run { s, log: l2, failures: r.failures })
                }
            };
        lemma_filework_loaded(r.s.memory, r.s.book, r.log, g.t, dev, m1, b1, l1);
        lemma_takes_out_files(g, l0, start, r.s.book.dir, r.log, b1.dir, l1);
        lemma_filework_moved(b1, l1, dev, name, index, b2, l2, moved);
        lemma_takes_out_files(g, l0, start, b1.dir, l1, b2.dir, l2);
        if moved {
            let s = renamed_state(SyncerModel { memory: m1, book: b2, ..r.s }, dev, name);
            lemma_filework_saved(
                s.memory,
                s.book,
                l2,
                g.t,
                name,
                s.last_pass_at,
                s.dry_run,
                r2.s.memory,
                r2.s.book,
                r2.log,
            );
            lemma_takes_out_files(g, l0, start, b2.dir, l2, r2.s.book.dir, r2.log);
        }
    }
}

/// Whether what the syncer is set up with, and the driver's answer it carries,
/// are the same.
pub open spec fn same_setup(s: SyncerModel, s2: SyncerModel) -> bool {
    &&& s2.pairs == s.pairs
    &&& s2.exclude == s.exclude
    &&& s2.extra == s.extra
    &&& s2.dry_run == s.dry_run
    &&& s2.detail == s.detail
    &&& s2.authoritative == s.authoritative
    &&& s2.carried_vf == s.carried_vf
    &&& s2.vf_stale == s.vf_stale
    &&& s2.last_pass_at == s.last_pass_at
}

proof fn lemma_orphan_settled(
    g: Ground,
    l0: Seq<Op>,
    start: Seq<Op>,
    apply: bool,
    dev: Seq<char>,
    r: Run,
    r2: Run,
)
    requires
        only_takes_out(g, l0, start, r.s.book.dir, r.log),
        orphan_settled(g.t, apply, dev, r, r2),
    ensures
        only_takes_out(g, l0, start, r2.s.book.dir, r2.log),
        same_setup(r.s, r2.s),
{
    if g.t.names.contains_key(dev) {
        lemma_orphan_taken(g, l0, start, apply, dev, r, r2);
    } else {
        let (b1, l1) = choose|b1: BookModel, l1: Seq<Op>| #[trigger]
            file_read(r.s.book, r.log, index_name(dev), b1, l1) && orphan_traced(
                g.t,
                apply,
                dev,
                renamed_to(g.t, b1.dir, dev),
                Run { s: r.s.with_book(b1), log: l1, failures: r.failures },
                r2,
            );
        let r1 = Run { s: r.s.with_book(b1), log: l1, failures: r.failures };
        lemma_filework_one(r.s.book.dir, r.log, l1.last());
        lemma_takes_out_files(g, l0, start, r.s.book.dir, r.log, b1.dir, l1);
        match renamed_to(g.t, b1.dir, dev) {
            Some((index, name)) => {
                lemma_orphan_followed(g, l0, start, apply, dev, index, name, r1, r2);
            },
            None => {
                lemma_orphan_taken(g, l0, start, apply, dev, r1, r2);
            },
        }
    }
}

pub(crate) proof fn lemma_each_settled(
    g: Ground,
    l0: Seq<Op>,
    start: Seq<Op>,
    apply: bool,
    devs: Seq<Seq<char>>,
    runs: Seq<Run>,
    n: int,
)
    requires
        only_takes_out(g, l0, start, runs[0].s.book.dir, runs[0].log),
        each_settled(g.t, apply, devs, runs),
        0 <= n <= devs.len(),
    ensures
        only_takes_out(g, l0, start, runs[n].s.book.dir, runs[n].log),
        same_setup(runs[0].s, runs[n].s),
    decreases n,
{
    if n > 0 {
        lemma_each_settled(g, l0, start, apply, devs, runs, n - 1);
        let dev = devs[n - 1];
        lemma_orphan_settled(g, l0, start, apply, dev, runs[n - 1], runs[n]);
    }
}

/// Settling orphans takes out only what is on record, and puts nothing into a
/// card.
pub proof fn orphans_only_take_out(g: Ground, l0: Seq<Op>, apply: bool, r: Run, r2: Run)
    requires
        sound(g, l0, r.s.book.dir, r.log),
        orphans_dropped(g.t, apply, r, r2),
    ensures
        sound(g, l0, r2.s.book.dir, r2.log),
        grew(r.log, r2.log),
        removals_only(since(r.log, r2.log)),
        same_setup(r.s, r2.s),
{
    let (devs, runs) = choose|devs: Seq<Seq<char>>, runs: Seq<Run>|
        {
            &&& #[trigger] each_settled(g.t, apply, devs, runs)
            &&& orphans_found(r.s, r.log, runs[0].s, runs[0].log, devs)
            &&& runs[0].failures == r.failures
            &&& r2 == runs.last()
        };
    lemma_takes_out_same(g, l0, r.s.book.dir, r.log);
    lemma_filework_same(r.s.book.dir, r.log);
    if r.s.authoritative {
        let clock = runs[0].log[r.log.len() as int];
        let l1 = r.log.push(clock);
        lemma_filework_one(r.s.book.dir, r.log, clock);
        lemma_filework_one(r.s.book.dir, l1, runs[0].log.last());
        lemma_filework_trans(
            r.s.book.dir,
            r.log,
            r.s.book.dir,
            l1,
            runs[0].s.book.dir,
            runs[0].log,
        );
    }
    lemma_takes_out_files(g, l0, r.log, r.s.book.dir, r.log, runs[0].s.book.dir, runs[0].log);
    lemma_each_settled(g, l0, r.log, apply, devs, runs, devs.len() as int);
}

} // verus!
