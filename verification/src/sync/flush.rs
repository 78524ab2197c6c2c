//! Taking everything back out.

use vstd::prelude::*;

use crate::keyed::lemma_push_contains;
use crate::mac::Mac;
use crate::netlink::{Errno, FdbWriter, LinkInfo, Op, Recorded, Refused, ENOENT};
use crate::sync::card::{failed_in, lemma_sound_ask, lemma_sound_start, sets_all, sound, Ground};
use crate::sync::files::{grew, lemma_grew_push, lemma_grew_same, lemma_grew_trans, since};
use crate::sync::journal::{
    cleared_text, say_cleared, say_through, say_would_fail, say_would_remove, through_text,
    would_fail_text, would_remove_text,
};
use crate::sync::notes::{
    devices_asked, file_read, index_name, lemma_filework_looked, lemma_filework_one,
    lemma_kinds_differ, listed_names, lock_asked, note_looked, owned_in, BookModel, Stage,
};
use crate::sync::orphans::{
    entries_taken, index_by_name, lemma_entries_taken, lemma_filework_note_settled,
    lemma_takes_out_files, note_settled, only_takes_out, removals_only, renamed_to, take_entries,
    taken_said,
};
use crate::sync::syncer::{same_cost, Syncer, SyncerModel};
use crate::topology::{Topology, TopologyModel};
use crate::topology::assemble::{assembled, dumped_links, with_ports, DeviceReading};
use crate::topology::detect::texts;

verus! {

/// The host as a link dump alone describes it.
pub open spec fn dumped_host(infos: Seq<LinkInfo>) -> TopologyModel {
    assembled(with_ports(dumped_links(infos, Seq::<DeviceReading>::empty())))
}

/// What taking a note's entries out of this interface comes to.
pub open spec fn flushed_from(
    index: Option<u32>,
    owned: Set<Mac>,
    dev: Seq<char>,
    b: BookModel,
    log: Seq<Op>,
    b2: BookModel,
    log2: Seq<Op>,
    clean: bool,
) -> bool {
    exists|l1: Seq<Op>, kept: Set<Mac>, b3: BookModel|
        {
            &&& #[trigger] entries_taken(index, owned, log, l1, kept)
            &&& #[trigger] note_settled(
                taken_said(b, dev, log, l1),
                l1,
                dev,
                kept,
                b3,
                log2,
                clean,
            )
            &&& b2 == flushed_said(b3, dev, owned, kept, clean)
        }
}

/// The book once it has been said how flushing a note came out.
pub open spec fn flushed_said(
    b: BookModel,
    dev: Seq<char>,
    owned: Set<Mac>,
    kept: Set<Mac>,
    clean: bool,
) -> BookModel {
    let gone = (owned.len() - kept.len()) as nat;
    b.saying(cleared_text(dev, false, gone, kept.len(), clean))
}

/// The interface that a renamed device's entries are attached to.
pub open spec fn target_index(target: Option<(u32, Seq<char>)>) -> Option<u32> {
    match target {
        Some((i, _)) => Some(i),
        None => None,
    }
}

/// The book once it has been said that a device has another name now.
pub open spec fn through_said(t: TopologyModel, b: BookModel, dev: Seq<char>) -> BookModel {
    match renamed_to(t, b.dir, dev) {
        Some((_, name)) => b.saying(through_text(dev, name)),
        None => b,
    }
}

/// What taking a note's entries out comes to, the note looked at under its
/// lock. A name is how a note is found, an index is what the entries are
/// attached to: a rename moves only the name, and the recorded index reaches
/// the entries anyway.
pub open spec fn note_flushed(
    t: TopologyModel,
    dev: Seq<char>,
    owned: Set<Mac>,
    b: BookModel,
    log: Seq<Op>,
    b2: BookModel,
    log2: Seq<Op>,
    clean: bool,
) -> bool {
    if t.names.contains_key(dev) {
        flushed_from(index_by_name(t, dev), owned, dev, b, log, b2, log2, clean)
    } else {
        exists|b1: BookModel, l1: Seq<Op>| #[trigger]
            file_read(b, log, index_name(dev), b1, l1) && flushed_from(
                target_index(renamed_to(t, b1.dir, dev)),
                owned,
                dev,
                through_said(t, b1, dev),
                l1,
                b2,
                log2,
                clean,
            )
    }
}

/// The book once it has been said what a flush would do with a note.
pub open spec fn would_said(b: BookModel, dev: Seq<char>) -> BookModel {
    if b.readable(dev) {
        b.saying(would_remove_text(dev, owned_in(b.dir, dev).len()))
    } else {
        b.saying(would_fail_text(dev))
    }
}

/// What flushing one device comes to. A dry run only looks, and answers as the
/// real one would about a note that cannot be read.
pub open spec fn device_flushed(
    t: TopologyModel,
    dry_run: bool,
    dev: Seq<char>,
    b: BookModel,
    log: Seq<Op>,
    b2: BookModel,
    log2: Seq<Op>,
    clean: bool,
) -> bool {
    if dry_run {
        exists|b1: BookModel| #[trigger]
            note_looked(b, log, dev, b1, log2) && clean == b1.readable(dev) && b2 == would_said(
                b1,
                dev,
            )
    } else {
        exists|bl: BookModel, ll: Seq<Op>, b1: BookModel, l1: Seq<Op>, l2: Seq<Op>|
            {
                &&& #[trigger] lock_asked(b, log, dev, bl, ll)
                &&& #[trigger] note_looked(bl, ll, dev, b1, l1)
                &&& #[trigger] note_flushed(t, dev, owned_in(b1.dir, dev), b1, l1, b2, l2, clean)
                &&& log2 == l2.push(Op::Unlock { dev })
            }
    }
}

/// Whether these devices were flushed one after the other, with these moments
/// before and after, and this success each.
pub open spec fn each_flushed(
    t: TopologyModel,
    dry_run: bool,
    devs: Seq<Seq<char>>,
    stages: Seq<Stage>,
    cleans: Seq<bool>,
) -> bool {
    &&& stages.len() == devs.len() + 1
    &&& cleans.len() == devs.len()
    &&& forall|i: int|
        #![trigger devs[i]]
        0 <= i < devs.len() ==> device_flushed(
            t,
            dry_run,
            devs[i],
            stages[i].book,
            stages[i].log,
            stages[i + 1].book,
            stages[i + 1].log,
            cleans[i],
        )
}

/// What flushing the listed devices comes to: clean when each is.
pub open spec fn devices_flushed(
    t: TopologyModel,
    dry_run: bool,
    devs: Seq<Seq<char>>,
    b: BookModel,
    log: Seq<Op>,
    b2: BookModel,
    log2: Seq<Op>,
    clean: bool,
) -> bool {
    exists|stages: Seq<Stage>, cleans: Seq<bool>|
        {
            &&& #[trigger] each_flushed(t, dry_run, devs, stages, cleans)
            &&& stages[0] == (Stage { book: b, log })
            &&& stages.last() == (Stage { book: b2, log: log2 })
            &&& clean == forall|i: int| 0 <= i < cleans.len() ==> #[trigger] cleans[i]
        }
}

/// What a flush comes to once the host has been read.
pub open spec fn notes_flushed(
    t: TopologyModel,
    s: SyncerModel,
    log: Seq<Op>,
    s2: SyncerModel,
    log2: Seq<Op>,
    r: Result<bool, Errno>,
) -> bool {
    exists|l1: Seq<Op>, listed: Result<Seq<Seq<char>>, Refused>|
        {
            &&& #[trigger] devices_asked(log, l1, listed)
            &&& match listed {
                Ok(devs) => {
                    &&& s2 == (SyncerModel { book: s2.book, ..s })
                    &&& r matches Ok(clean) && devices_flushed(
                        t,
                        s.dry_run,
                        devs,
                        s.book,
                        l1,
                        s2.book,
                        log2,
                        clean,
                    )
                },
                Err(e) => r == Err::<bool, Errno>(e.errno) && s2 == s && log2 == l1,
            }
        }
}

/// What a flush comes to: over the notes rather than over the pairs, since some
/// belong to devices that have stopped being an uplink. It fails where the host
/// cannot be read or the notes cannot be listed.
pub open spec fn flushed(
    s: SyncerModel,
    log: Seq<Op>,
    s2: SyncerModel,
    log2: Seq<Op>,
    r: Result<bool, Errno>,
) -> bool {
    log2.len() > log.len() && (log2[log.len() as int] matches Op::DumpLinks { links } && match links {
        Ok(infos) => notes_flushed(
            dumped_host(infos),
            s,
            log.push(log2[log.len() as int]),
            s2,
            log2,
            r,
        ),
        Err(e) => r == Err::<bool, Errno>(e) && s2 == s && log2 == log.push(
            log2[log.len() as int],
        ),
    })
}

impl Syncer {
    /// Takes every address this daemon registered back out. Over the notes
    /// rather than over the pairs: some belong to devices that have since
    /// stopped being an uplink. Whether everything came out.
    pub fn flush<W: FdbWriter>(&mut self, sock: &mut Recorded<W>) -> (r: Result<bool, Errno>)
        ensures
            same_cost(*old(self), *final(self)),
            flushed(old(self)@, old(sock).log(), final(self)@, final(sock).log(), r),
    {
        let ghost s = self@;
        let ghost log = sock.log();
        let infos = match sock.dump_links() {
            Ok(v) => v,
            Err(e) => {
                return Err(e);
            },
        };
        let ghost l0 = sock.log();
        let none: Vec<DeviceReading> = Vec::new();
        let topo = Topology::from_links(&infos, &none);
        assert(none@ =~= Seq::empty());
        let r = self.flush_notes(sock, &topo);
        proof {
            assert(sock.log()[log.len() as int] == l0.last()) by {
                assert(sock.log().take(l0.len() as int)[log.len() as int] == l0[log.len() as int]);
            }
        }
        r
    }

    fn flush_notes<W: FdbWriter>(
        &mut self,
        sock: &mut Recorded<W>,
        topo: &Topology,
    ) -> (r: Result<bool, Errno>)
        ensures
            same_cost(*old(self), *final(self)),
            notes_flushed(
                topo@,
                old(self)@,
                old(sock).log(),
                final(self)@,
                final(sock).log(),
                r,
            ),
            grew(old(sock).log(), final(sock).log()),
    {
        let ghost s = self@;
        let ghost log = sock.log();
        let listed = self.book.noted_devices(sock);
        let ghost l1 = sock.log();
        assert(devices_asked(log, l1, listed_names(listed)));
        proof {
            lemma_grew_same(log);
            lemma_grew_push(log, log, l1.last());
            lemma_grew_same(l1);
        }
        let found = match listed {
            Ok(v) => v,
            Err(e) => {
                return Err(e.errno);
            },
        };
        let ghost devs = texts(found@);
        let dry_run = self.dry_run;
        let mut clean = true;
        let ghost mut stages: Seq<Stage> = seq![Stage { book: self@.book, log: l1 }];
        let ghost mut cleans: Seq<bool> = Seq::empty();
        let mut i: usize = 0;
        assert(devs.take(0) =~= Seq::empty());
        while i < found.len()
            invariant
                same_cost(*old(self), *self),
                devs == texts(found@),
                i <= found@.len(),
                self@ == (SyncerModel { book: self@.book, ..s }),
                dry_run == s.dry_run,
                grew(l1, sock.log()),
                each_flushed(topo@, dry_run, devs.take(i as int), stages, cleans),
                stages[0] == (Stage { book: s.book, log: l1 }),
                stages.last() == (Stage { book: self@.book, log: sock.log() }),
                clean == forall|j: int| 0 <= j < cleans.len() ==> #[trigger] cleans[j],
            decreases found@.len() - i,
        {
            let ghost stages0 = stages;
            let ghost cleans0 = cleans;
            let ghost lx = sock.log();
            let ok = self.flush_device(sock, topo, &found[i], dry_run);
            proof {
                lemma_grew_trans(l1, lx, sock.log());
                stages = stages0.push(Stage { book: self@.book, log: sock.log() });
                cleans = cleans0.push(ok);
                let done = devs.take(i as int);
                let next = devs.take(i + 1);
                assert forall|j: int|
                    #![trigger next[j]]
                    0 <= j < next.len() implies device_flushed(
                    topo@,
                    dry_run,
                    next[j],
                    stages[j].book,
                    stages[j].log,
                    stages[j + 1].book,
                    stages[j + 1].log,
                    cleans[j],
                ) by {
                    if j < i {
                        assert(done[j] == next[j]);
                        assert(stages[j] == stages0[j]);
                        assert(stages[j + 1] == stages0[j + 1]);
                        assert(cleans[j] == cleans0[j]);
                    }
                }
                assert(cleans[cleans.len() - 1] == ok);
                assert forall|j: int| 0 <= j < cleans0.len() implies cleans[j] == cleans0[j] by {}
            }
            if !ok {
                clean = false;
                assert(!cleans[cleans.len() - 1]);
            }
            proof {
                if clean {
                    assert forall|j: int| 0 <= j < cleans.len() implies #[trigger] cleans[j] by {
                        if j < cleans0.len() {
                            assert(cleans0[j]);
                        }
                    }
                } else if ok {
                    let j = choose|j: int| 0 <= j < cleans0.len() && !(#[trigger] cleans0[j]);
                    assert(!cleans[j]);
                }
            }
            i += 1;
        }
        proof {
            assert(devs.take(i as int) =~= devs);
            assert(each_flushed(topo@, dry_run, devs, stages, cleans));
            lemma_grew_trans(log, l1, sock.log());
            assert(devices_flushed(
                topo@,
                s.dry_run,
                devs,
                s.book,
                l1,
                self@.book,
                sock.log(),
                clean,
            ));
        }
        Ok(clean)
    }

    fn flush_device<W: FdbWriter>(
        &mut self,
        sock: &mut Recorded<W>,
        topo: &Topology,
        dev: &String,
        dry_run: bool,
    ) -> (r: bool)
        ensures
            same_cost(*old(self), *final(self)),
            device_flushed(
                topo@,
                dry_run,
                dev@,
                old(self)@.book,
                old(sock).log(),
                final(self)@.book,
                final(sock).log(),
                r,
            ),
            final(self)@ == old(self)@.with_book(final(self)@.book),
            grew(old(sock).log(), final(sock).log()),
    {
        if dry_run {
            let owned = self.book.load_owned(sock, dev);
            let ghost b1 = self@.book;
            proof {
                lemma_filework_looked(old(self)@.book, old(sock).log(), dev@, b1, sock.log());
            }
            let readable = self.book.note_is_readable(dev);
            if readable {
                self.book.say(say_would_remove(dev, owned.len() as u64));
            } else {
                self.book.say(say_would_fail(dev));
            }
            assert(self@.book == would_said(b1, dev@));
            return readable;
        }
        let ghost b = self@.book;
        let ghost log = sock.log();
        self.book.locked(sock, dev);
        let ghost bl = self@.book;
        let ghost ll = sock.log();
        let owned = self.book.load_owned(sock, dev);
        let ghost b1 = self@.book;
        let ghost l1 = sock.log();
        let ghost br = b1;
        let index = match topo.index_of(dev) {
            Some(i) => Some(i),
            None => {
                let target = self.renamed_target(sock, dev, topo);
                proof {
                    br = self@.book;
                }
                match target {
                    Some((i, name)) => {
                        self.book.say(say_through(dev, &name));
                        Some(i)
                    },
                    None => None,
                }
            },
        };
        let ghost bx = self@.book;
        let ghost lx = sock.log();
        let kept = take_entries(&mut self.book, sock, dev, index, &owned);
        let ghost ly = sock.log();
        let ghost bs = self@.book;
        assert(entries_taken(index, owned@, lx, ly, kept@));
        let clean = self.settle_note(sock, dev, &kept);
        let ghost b3 = self@.book;
        let ghost l2 = sock.log();
        let left = kept.len();
        let gone = owned.len() - left;
        self.book.say(say_cleared(dev, false, gone as u64, left as u64, clean));
        sock.unlock(dev);
        proof {
            assert(bs == taken_said(bx, dev@, lx, ly));
            assert(note_settled(bs, ly, dev@, kept@, b3, l2, clean));
            assert(self@.book == flushed_said(b3, dev@, owned@, kept@, clean));
            assert(flushed_from(index, owned@, dev@, bx, lx, self@.book, l2, clean));
            if !topo@.names.contains_key(dev@) {
                assert(file_read(b1, l1, index_name(dev@), br, lx));
                assert(index == target_index(renamed_to(topo@, br.dir, dev@)));
                assert(bx == through_said(topo@, br, dev@));
                lemma_filework_one(b1.dir, l1, lx.last());
            } else {
                lemma_grew_same(l1);
            }
            assert(lock_asked(b, log, dev@, bl, ll));
            assert(note_looked(bl, ll, dev@, b1, l1));
            assert(note_flushed(topo@, dev@, owned_in(b1.dir, dev@), b1, l1, self@.book, l2, clean));
            lemma_filework_one(b.dir, log, ll.last());
            lemma_filework_looked(bl, ll, dev@, b1, l1);
            lemma_grew_trans(log, ll, l1);
            lemma_grew_trans(log, l1, lx);
            if index is None {
                lemma_grew_same(lx);
            }
            lemma_grew_trans(log, lx, ly);
            lemma_filework_note_settled(bs, ly, dev@, kept@, b3, l2, clean);
            lemma_grew_trans(log, ly, l2);
            lemma_filework_one(self@.book.dir, l2, Op::Unlock { dev: dev@ });
            lemma_grew_trans(log, l2, sock.log());
        }
        clean
    }
}

/// An entry was taken out of an interface, or was found not to be there.
pub open spec fn let_go(op: Op, index: u32, m: Mac) -> bool {
    op matches Op::Card { ifindex, mac, add: false, refused } && ifindex == index && mac == m && (
    refused matches Some(e) ==> e.errno == Errno(ENOENT))
}

/// When a device was flushed cleanly, every address its note named was taken
/// out of its interface, or was not there, unless the interface is gone.
pub proof fn clean_flush_takes_everything_out(
    index: u32,
    owned: Set<Mac>,
    dev: Seq<char>,
    b: BookModel,
    log: Seq<Op>,
    b2: BookModel,
    log2: Seq<Op>,
    m: Mac,
)
    requires
        flushed_from(Some(index), owned, dev, b, log, b2, log2, true),
        owned.contains(m),
    ensures
        exists|i: int|
            0 <= i < since(log, log2).len() && let_go(#[trigger] since(log, log2)[i], index, m),
{
    let (l1, kept, b3) = choose|l1: Seq<Op>, kept: Set<Mac>, b3: BookModel|
        {
            &&& #[trigger] entries_taken(Some(index), owned, log, l1, kept)
            &&& #[trigger] note_settled(
                taken_said(b, dev, log, l1),
                l1,
                dev,
                kept,
                b3,
                log2,
                true,
            )
            &&& b2 == flushed_said(b3, dev, owned, kept, true)
        };
    let ops = since(log, l1);
    let macs = choose|macs: Seq<Mac>|
        {
            &&& macs.no_duplicates() && macs.to_set() == owned
            &&& grew(log, l1)
            &&& #[trigger] sets_all(ops, index, macs, false)
            &&& kept == failed_in(ops).to_set()
        };
    assert(macs.to_set().contains(m));
    let k = choose|k: int| 0 <= k < macs.len() && macs[k] == m;
    let bs = taken_said(b, dev, log, l1);
    lemma_filework_note_settled(bs, l1, dev, kept, b3, log2, true);
    lemma_grew_trans(log, l1, log2);
    lemma_refused_fails(ops, index, macs, k);
    assert(since(log, log2)[k] == ops[k]);
    if !let_go(ops[k], index, m) {
        assert(failed_in(ops).to_set().contains(m));
        assert(kept.contains(m));
    }
}

/// A removal that was refused is among those that failed.
proof fn lemma_refused_fails(ops: Seq<Op>, index: u32, macs: Seq<Mac>, k: int)
    requires
        sets_all(ops, index, macs, false),
        0 <= k < macs.len(),
    ensures
        !let_go(ops[k], index, macs[k]) ==> failed_in(ops).contains(macs[k]),
    decreases ops.len(),
{
    let front = ops.drop_last();
    let head = macs.drop_last();
    assert(ops[ops.len() - 1] matches Op::Card { mac, add: a, .. } && mac == macs.last() && a
        == false);
    lemma_push_contains(failed_in(front), macs.last());
    if k < ops.len() - 1 {
        assert(sets_all(front, index, head, false)) by {
            assert forall|i: int| 0 <= i < front.len() implies ((#[trigger] front[i])
                matches Op::Card { ifindex, mac, add: a, .. } && ifindex == index && mac == head[i]
                && a == false) by {
                assert(front[i] == ops[i]);
            }
        }
        lemma_refused_fails(front, index, head, k);
    }
}

pub(crate) proof fn lemma_note_flushed(
    g: Ground,
    l0: Seq<Op>,
    start: Seq<Op>,
    dev: Seq<char>,
    b: BookModel,
    log: Seq<Op>,
    b2: BookModel,
    log2: Seq<Op>,
    clean: bool,
)
    requires
        only_takes_out(g, l0, start, b.dir, log),
        note_flushed(g.t, dev, owned_in(b.dir, dev), b, log, b2, log2, clean),
    ensures
        only_takes_out(g, l0, start, b2.dir, log2),
{
    let owned = owned_in(b.dir, dev);
    let (bx, lx, index) = if g.t.names.contains_key(dev) {
        (b, log, index_by_name(g.t, dev))
    } else {
        let (b1, l1) = choose|b1: BookModel, l1: Seq<Op>| #[trigger]
            file_read(b, log, index_name(dev), b1, l1) && flushed_from(
                target_index(renamed_to(g.t, b1.dir, dev)),
                owned,
                dev,
                through_said(g.t, b1, dev),
                l1,
                b2,
                log2,
                clean,
            );
        lemma_filework_one(b.dir, log, l1.last());
        lemma_takes_out_files(g, l0, start, b.dir, log, b1.dir, l1);
        lemma_kinds_differ(dev, dev);
        assert(owned_in(b1.dir, dev) == owned);
        (through_said(g.t, b1, dev), l1, target_index(renamed_to(g.t, b1.dir, dev)))
    };
    assert(flushed_from(index, owned, dev, bx, lx, b2, log2, clean));
    let (l1, kept, b3) = choose|l1: Seq<Op>, kept: Set<Mac>, b3: BookModel|
        {
            &&& #[trigger] entries_taken(index, owned, lx, l1, kept)
            &&& #[trigger] note_settled(
                taken_said(bx, dev, lx, l1),
                l1,
                dev,
                kept,
                b3,
                log2,
                clean,
            )
            &&& b2 == flushed_said(b3, dev, owned, kept, clean)
        };
    lemma_entries_taken(g, l0, start, bx.dir, index, dev, owned, lx, l1, kept);
    let bs = taken_said(bx, dev, lx, l1);
    lemma_filework_note_settled(bs, l1, dev, kept, b3, log2, clean);
    lemma_takes_out_files(g, l0, start, bx.dir, l1, b2.dir, log2);
}

proof fn lemma_device_flushed(
    g: Ground,
    l0: Seq<Op>,
    start: Seq<Op>,
    dry_run: bool,
    dev: Seq<char>,
    b: BookModel,
    log: Seq<Op>,
    b2: BookModel,
    log2: Seq<Op>,
    clean: bool,
)
    requires
        only_takes_out(g, l0, start, b.dir, log),
        device_flushed(g.t, dry_run, dev, b, log, b2, log2, clean),
    ensures
        only_takes_out(g, l0, start, b2.dir, log2),
{
    if dry_run {
        let b1 = choose|b1: BookModel| #[trigger]
            note_looked(b, log, dev, b1, log2) && clean == b1.readable(dev) && b2 == would_said(
                b1,
                dev,
            );
        lemma_filework_looked(b, log, dev, b1, log2);
        lemma_takes_out_files(g, l0, start, b.dir, log, b2.dir, log2);
    } else {
        let (bl, ll, b1, l1, l2) = choose|
            bl: BookModel,
            ll: Seq<Op>,
            b1: BookModel,
            l1: Seq<Op>,
            l2: Seq<Op>,
        |
            {
                &&& #[trigger] lock_asked(b, log, dev, bl, ll)
                &&& #[trigger] note_looked(bl, ll, dev, b1, l1)
                &&& #[trigger] note_flushed(g.t, dev, owned_in(b1.dir, dev), b1, l1, b2, l2, clean)
                &&& log2 == l2.push(Op::Unlock { dev })
            };
        lemma_filework_one(b.dir, log, ll.last());
        lemma_takes_out_files(g, l0, start, b.dir, log, bl.dir, ll);
        lemma_filework_looked(bl, ll, dev, b1, l1);
        lemma_takes_out_files(g, l0, start, bl.dir, ll, b1.dir, l1);
        lemma_note_flushed(g, l0, start, dev, b1, l1, b2, l2, clean);
        lemma_filework_one(b2.dir, l2, Op::Unlock { dev });
        lemma_takes_out_files(g, l0, start, b2.dir, l2, b2.dir, log2);
    }
}

pub(crate) proof fn lemma_each_flushed(
    g: Ground,
    l0: Seq<Op>,
    start: Seq<Op>,
    dry_run: bool,
    devs: Seq<Seq<char>>,
    stages: Seq<Stage>,
    cleans: Seq<bool>,
    n: int,
)
    requires
        only_takes_out(g, l0, start, stages[0].book.dir, stages[0].log),
        each_flushed(g.t, dry_run, devs, stages, cleans),
        0 <= n <= devs.len(),
    ensures
        only_takes_out(g, l0, start, stages[n].book.dir, stages[n].log),
    decreases n,
{
    if n > 0 {
        lemma_each_flushed(g, l0, start, dry_run, devs, stages, cleans, n - 1);
        let dev = devs[n - 1];
        lemma_device_flushed(
            g,
            l0,
            start,
            dry_run,
            dev,
            stages[n - 1].book,
            stages[n - 1].log,
            stages[n].book,
            stages[n].log,
            cleans[n - 1],
        );
    }
}

/// A flush takes out only what is on record, and puts nothing into a card.
pub proof fn flush_only_takes_out(
    g: Ground,
    s: SyncerModel,
    log: Seq<Op>,
    s2: SyncerModel,
    log2: Seq<Op>,
    r: Result<bool, Errno>,
)
    requires
        flushed(s, log, s2, log2, r),
        g.dir == s.book.dir,
        log2[log.len() as int] matches Op::DumpLinks { links: Ok(infos) } ==> g.t == dumped_host(
            infos,
        ),
    ensures
        sound(g, log, s2.book.dir, log2),
        removals_only(since(log, log2)),
{
    let dump = log2[log.len() as int];
    let l0 = log.push(dump);
    lemma_sound_start(g, log);
    lemma_sound_ask(g, log, g.dir, log, dump);
    lemma_grew_same(log);
    assert(since(log, l0) =~= seq![dump]);
    assert(only_takes_out(g, log, log, g.dir, l0));
    if dump->links is Ok {
        let (l1, listed) = choose|l1: Seq<Op>, listed: Result<Seq<Seq<char>>, Refused>|
            {
                &&& #[trigger] devices_asked(l0, l1, listed)
                &&& match listed {
                    Ok(devs) => {
                        &&& s2 == (SyncerModel { book: s2.book, ..s })
                        &&& r matches Ok(clean) && devices_flushed(
                            g.t,
                            s.dry_run,
                            devs,
                            s.book,
                            l1,
                            s2.book,
                            log2,
                            clean,
                        )
                    },
                    Err(e) => r == Err::<bool, Errno>(e.errno) && s2 == s && log2 == l1,
                }
            };
        lemma_filework_one(g.dir, l0, l1.last());
        lemma_takes_out_files(g, log, log, g.dir, l0, g.dir, l1);
        if let Ok(devs) = listed {
            let clean = r->Ok_0;
            let (stages, cleans) = choose|stages: Seq<Stage>, cleans: Seq<bool>|
                {
                    &&& #[trigger] each_flushed(g.t, s.dry_run, devs, stages, cleans)
                    &&& stages[0] == (Stage { book: s.book, log: l1 })
                    &&& stages.last() == (Stage { book: s2.book, log: log2 })
                    &&& clean == forall|i: int| 0 <= i < cleans.len() ==> #[trigger] cleans[i]
                };
            lemma_each_flushed(
                g,
                log,
                log,
                s.dry_run,
                devs,
                stages,
                cleans,
                devs.len() as int,
            );
        }
    }
}

} // verus!
