//! Which notes are orphans, and what becomes of the entries they name.

use vstd::prelude::*;

use crate::mac::Mac;
use crate::netlink::{DirEntry, Errno, Moment, Op};
use crate::sync::batch_laws::{lemma_look_seen, lemma_seen_later};
use crate::sync::card::{
    lemma_sound_ask, lemma_sound_files, lemma_sound_start, sets_all, sound, Ground,
};
use crate::sync::decide::live_functions;
use crate::sync::files::{grew, lemma_grew_same, lemma_grew_trans, replay, since, Files};
use crate::sync::notes::{
    devices_or_none, index_in, lemma_filework_looked, lemma_filework_one, lemma_filework_removed,
    lemma_filework_trans, lists_noted, lock_asked, note_looked, owned_in, BookModel,
};
use crate::sync::orphans::{
    absent_after, cleared_said, each_settled, entries_taken, index_by_name, lemma_each_settled,
    lemma_filework_note_settled, lemma_takes_out_files, lemma_takes_out_same, nanos_of,
    note_settled, orphan_cleared, orphan_settled, orphan_taken, orphans_dropped, orphans_found,
    overdue, overdue_of, renamed_to, Run,
};
use crate::sync::pass_laws::{asked_out, just_seen};
use crate::sync::reconcile::{
    answer_first, at_after, pair_devs, pass_made, pass_start, reconciled, table_reconciled,
};
use crate::sync::report_laws::lemma_orphan_settled;
use crate::sync::syncer::SyncerModel;
use crate::sync::types::Report;
use crate::topology::TopologyModel;

verus! {

/// Whether the state directory holds a note for a device: an ordinary file of
/// the device's name with the note's ending.
pub open spec fn has_note(entries: Seq<DirEntry>, dev: Seq<char>) -> bool {
    exists|i: int|
        0 <= i < entries.len() && (#[trigger] entries[i]).regular && entries[i].name@ == dev
            + ".owned"@
}

/// Whether a device is the uplink of one of the pairs.
pub open spec fn is_paired(s: SyncerModel, dev: Seq<char>) -> bool {
    exists|i: int| 0 <= i < s.pairs.len() && (#[trigger] s.pairs[i]).dev == dev
}

/// Whether a device has been away for as long as it is waited for: it was missed
/// that long ago, or nobody waits at all.
pub open spec fn stayed_away(s: SyncerModel, now: u64, dev: Seq<char>) -> bool {
    ||| s.orphan_grace == 0
    ||| s.absent_since.contains_key(dev) && now - s.absent_since[dev] >= s.orphan_grace
}

/// Whether a note is an orphan by what the clock and the state directory said:
/// only for somebody who knows every uplink, and only a device with a note that
/// is no uplink and has stayed away.
pub open spec fn is_orphan(s: SyncerModel, clock: Op, list: Op, dev: Seq<char>) -> bool {
    &&& s.authoritative
    &&& list matches Op::List { entries: Ok(entries) } && has_note(entries, dev)
    &&& !is_paired(s, dev)
    &&& clock matches Op::Clock { reading } && stayed_away(s, reading.nanos, dev)
}

pub(crate) proof fn lemma_noted(devs: Seq<Seq<char>>, entries: Seq<DirEntry>, d: Seq<char>)
    requires
        lists_noted(devs, entries),
    ensures
        devs.contains(d) <==> has_note(entries, d),
{
    if devs.contains(d) {
        let i = choose|i: int|
            0 <= i < entries.len() && crate::sync::notes::is_note(#[trigger] entries[i], d);
        assert(entries[i].regular);
    }
    if has_note(entries, d) {
        let i = choose|i: int|
            0 <= i < entries.len() && (#[trigger] entries[i]).regular && entries[i].name@ == d
                + ".owned"@;
        assert(crate::sync::notes::is_note(entries[i], d));
    }
}

/// Which notes are taken for orphans: those of devices that are no uplinks and
/// have stayed away for as long as they are waited for, by the clock and the
/// state directory as they were read. Somebody who does not know every uplink
/// finds none.
pub proof fn only_who_stayed_away_is_an_orphan(
    s: SyncerModel,
    log: Seq<Op>,
    s2: SyncerModel,
    log2: Seq<Op>,
    orphans: Seq<Seq<char>>,
    d: Seq<char>,
)
    requires
        orphans_found(s, log, s2, log2, orphans),
    ensures
        orphans.contains(d) <==> log2.len() == log.len() + 2 && is_orphan(
            s,
            log2[log.len() as int],
            log2[log.len() as int + 1],
            d,
        ),
        s.authoritative ==> (s2.absent_since.contains_key(d) <==> (log2[log.len() as int + 1]
            matches Op::List { entries: Ok(entries) } && has_note(entries, d)) && !is_paired(s, d)),
        s.authoritative && s2.absent_since.contains_key(d) ==> s2.absent_since[d]
            == if s.absent_since.contains_key(d) {
            s.absent_since[d]
        } else {
            nanos_of(log2[log.len() as int])
        },
        !s.authoritative ==> !s2.absent_since.contains_key(d),
{
    if s.authoritative {
        let clock = log2[log.len() as int];
        let lc = log.push(clock);
        let (devs, b1) = choose|devs: Seq<Seq<char>>, b1: BookModel|
            {
                &&& #[trigger] devices_or_none(s.book, lc, b1, log2, devs)
                &&& s2.absent_since == absent_after(s, devs, nanos_of(clock))
                &&& orphans == overdue_of(s, devs, nanos_of(clock))
            };
        let now = nanos_of(clock);
        let absent = absent_after(s, devs, now);
        let p = |x: Seq<char>| overdue(absent, s.orphan_grace, now, x);
        lemma_filtered(devs, p, d);
        let list = log2.last();
        assert(log2[log.len() as int + 1] == list);
        if let Op::List { entries: Ok(entries) } = list {
            lemma_noted(devs, entries, d);
        }
        assert(is_paired(s, d) == s.is_live(d));
    }
}

proof fn lemma_filtered(s: Seq<Seq<char>>, p: spec_fn(Seq<char>) -> bool, x: Seq<char>)
    ensures
        s.filter(p).contains(x) <==> s.contains(x) && p(x),
    decreases s.len(),
{
    reveal(Seq::filter);
    if s.len() > 0 {
        let front = s.drop_last();
        lemma_filtered(front, p, x);
        assert(s =~= front.push(s.last()));
        crate::keyed::lemma_push_contains(front, s.last());
        crate::keyed::lemma_push_contains(front.filter(p), s.last());
    }
}

proof fn lemma_orphan_step(g: Ground, l0: Seq<Op>, dev: Seq<char>, r: Run, r2: Run) -> (k: int)
    requires
        sound(g, l0, r.s.book.dir, r.log),
        orphan_taken(g.t, true, dev, r, r2),
        !r.s.dry_run,
        g.t.names.contains_key(dev),
    ensures
        r.log.len() < k <= r2.log.len(),
        just_seen(r2.log, k, dev),
        forall|m: Mac| #[trigger]
            owned_in(replay(g.dir, since(l0, r2.log.take(k))), dev).contains(m) ==> asked_out(
                r2.log.take(k),
                r2.log,
                g.t.names[dev],
                m,
            ),
{
    let (bl, ll, b1, l1, b2, l2, said) = choose|
        bl: BookModel,
        ll: Seq<Op>,
        b1: BookModel,
        l1: Seq<Op>,
        b2: BookModel,
        l2: Seq<Op>,
        said: Option<Seq<char>>,
    |
        {
            &&& #[trigger] lock_asked(r.s.book, r.log, dev, bl, ll)
            &&& #[trigger] note_looked(bl, ll, dev, b1, l1)
            &&& #[trigger] orphan_cleared(g.t, dev, b1, l1, b2, l2, said)
            &&& r2.log == l2.push(Op::Unlock { dev })
        };
    lemma_sound_ask(g, l0, r.s.book.dir, r.log, ll.last());
    lemma_filework_looked(bl, ll, dev, b1, l1);
    lemma_sound_files(g, l0, bl.dir, ll, b1.dir, l1);
    lemma_look_seen(bl, ll, dev, b1, l1);
    let owned = owned_in(b1.dir, dev);
    let k = l1.len() as int;
    assert(owned == owned_in(replay(g.dir, since(l0, l1)), dev));
    if owned == Set::<Mac>::empty() {
        lemma_grew_same(l1);
        if b1.readable(dev) {
            lemma_filework_removed(b1, l1, dev, b2, l2);
        }
        assert(r2.log.take(k) =~= l1);
        assert(forall|i: int| 0 <= i < k ==> #[trigger] r2.log[i] == l1[i]) by {
            assert forall|i: int| 0 <= i < k implies #[trigger] r2.log[i] == l1[i] by {
                assert(r2.log.take(k)[i] == r2.log[i]);
            }
        }
    } else {
        let (lx, kept, clean) = choose|lx: Seq<Op>, kept: Set<Mac>, clean: bool|
            {
                &&& #[trigger] entries_taken(index_by_name(g.t, dev), owned, l1, lx, kept)
                &&& #[trigger] note_settled(
                    cleared_said(b1, dev, owned, l1, lx, kept),
                    lx,
                    dev,
                    kept,
                    b2,
                    l2,
                    clean,
                )
            };
        let bs = cleared_said(b1, dev, owned, l1, lx, kept);
        lemma_filework_note_settled(bs, lx, dev, kept, b2, l2, clean);
        let index = g.t.names[dev];
        let macs = choose|macs: Seq<Mac>|
            {
                &&& macs.no_duplicates() && macs.to_set() == owned
                &&& grew(l1, lx)
                &&& #[trigger] sets_all(since(l1, lx), index, macs, false)
            };
        lemma_grew_trans(l1, lx, l2);
        assert(r2.log.take(k) =~= l1) by {
            assert(l2.take(k) == l1);
        }
        assert forall|i: int| 0 <= i < k implies #[trigger] r2.log[i] == l1[i] by {
            assert(r2.log.take(k)[i] == r2.log[i]);
        }
        assert forall|m: Mac| #[trigger] owned.contains(m) implies asked_out(
            l1,
            r2.log,
            index,
            m,
        ) by {
            assert(macs.to_set().contains(m));
            let q = choose|q: int| 0 <= q < macs.len() && macs[q] == m;
            let j = l1.len() + q;
            assert(since(l1, lx)[q] == lx[j]);
            assert(l2.take(lx.len() as int)[j] == lx[j]);
            assert(r2.log[j] == lx[j]);
        }
    }
    k
}

/// Whether every orphan whose interface is still there was cleared between two
/// states of the log: by the clock and the state directory as they were read at
/// `c`, the note of each was looked at, and its card was asked to let go of
/// everything the note named.
pub open spec fn orphans_cleared_at(
    t: TopologyModel,
    s: SyncerModel,
    log: Seq<Op>,
    log2: Seq<Op>,
    c: int,
) -> bool {
    &&& log.len() <= c
    &&& c + 1 < log2.len()
    &&& log2[c] is Clock
    &&& log2[c + 1] is List
    &&& forall|d: Seq<char>| #[trigger]
        is_orphan(s, log2[c], log2[c + 1], d) && t.names.contains_key(d) ==> cleared_after(
            t,
            s,
            log,
            log2,
            c,
            d,
        )
}

/// Whether one orphan was.
pub open spec fn cleared_after(
    t: TopologyModel,
    s: SyncerModel,
    log: Seq<Op>,
    log2: Seq<Op>,
    c: int,
    d: Seq<char>,
) -> bool {
    exists|k: int|
        c < k <= log2.len() && #[trigger] just_seen(log2, k, d) && forall|m: Mac| #[trigger]
            owned_in(replay(s.book.dir, since(log, log2.take(k))), d).contains(m) ==> asked_out(
                log2.take(k),
                log2,
                t.names[d],
                m,
            )
}

proof fn lemma_cleared_later(
    t: TopologyModel,
    s: SyncerModel,
    log: Seq<Op>,
    a: Seq<Op>,
    b: Seq<Op>,
    c: int,
    d: Seq<char>,
)
    requires
        cleared_after(t, s, log, a, c, d),
        grew(a, b),
    ensures
        cleared_after(t, s, log, b, c, d),
{
    let k = choose|k: int|
        c < k <= a.len() && #[trigger] just_seen(a, k, d) && forall|m: Mac| #[trigger]
            owned_in(replay(s.book.dir, since(log, a.take(k))), d).contains(m) ==> asked_out(
                a.take(k),
                a,
                t.names[d],
                m,
            );
    assert(0 <= k) by {
        assert(just_seen(a, k, d));
    }
    lemma_seen_later(a, b, k, d, 0, arbitrary());
    assert forall|m: Mac| #[trigger]
        owned_in(replay(s.book.dir, since(log, b.take(k))), d).contains(m) implies asked_out(
        b.take(k),
        b,
        t.names[d],
        m,
    ) by {
        lemma_seen_later(a, b, k, d, t.names[d], m);
    }
    assert(just_seen(b, k, d));
}

proof fn lemma_dropped_clears(
    g: Ground,
    s: SyncerModel,
    l0: Seq<Op>,
    r: Run,
    r2: Run,
)
    requires
        g.dir == s.book.dir,
        sound(g, l0, r.s.book.dir, r.log),
        orphans_dropped(g.t, true, r, r2),
        !s.dry_run,
        s.authoritative,
        r.s.authoritative == s.authoritative,
        r.s.dry_run == s.dry_run,
        r.s.pairs == s.pairs,
        r.s.absent_since == s.absent_since,
        r.s.orphan_grace == s.orphan_grace,
    ensures
        grew(r.log, r2.log),
        orphans_cleared_at(g.t, s, l0, r2.log, r.log.len() as int),
{
    let (devs, runs) = choose|devs: Seq<Seq<char>>, runs: Seq<Run>|
        {
            &&& #[trigger] each_settled(g.t, true, devs, runs)
            &&& orphans_found(r.s, r.log, runs[0].s, runs[0].log, devs)
            &&& runs[0].failures == r.failures
            &&& r2 == runs.last()
        };
    let c = r.log.len() as int;
    let clock = runs[0].log[c];
    let l1 = r.log.push(clock);
    let lf = runs[0].log;
    lemma_takes_out_same(g, l0, r.s.book.dir, r.log);
    lemma_filework_one(r.s.book.dir, r.log, clock);
    lemma_filework_one(r.s.book.dir, l1, lf.last());
    lemma_filework_trans(r.s.book.dir, r.log, r.s.book.dir, l1, runs[0].s.book.dir, lf);
    lemma_takes_out_files(g, l0, r.log, r.s.book.dir, r.log, runs[0].s.book.dir, lf);
    let n = devs.len() as int;
    lemma_each_settled(g, l0, r.log, true, devs, runs, n);
    lemma_settled_grew(g.t, devs, runs, 0, n);
    lemma_grew_trans(r.log, lf, r2.log);
    assert(r2.log.take(lf.len() as int)[c] == lf[c]);
    assert(r2.log.take(lf.len() as int)[c + 1] == lf[c + 1]);
    assert forall|d: Seq<char>| #[trigger]
        is_orphan(s, r2.log[c], r2.log[c + 1], d) && g.t.names.contains_key(d) implies cleared_after(
        g.t,
        s,
        l0,
        r2.log,
        c,
        d,
    ) by {
        only_who_stayed_away_is_an_orphan(r.s, r.log, runs[0].s, lf, devs, d);
        assert(is_orphan(r.s, lf[c], lf[c + 1], d)) by {
            assert(is_paired(r.s, d) == is_paired(s, d));
        }
        let i = choose|i: int| 0 <= i < devs.len() && devs[i] == d;
        lemma_each_settled(g, l0, r.log, true, devs, runs, i);
        lemma_settled_grew(g.t, devs, runs, 0, i);
        lemma_settled_grew(g.t, devs, runs, i + 1, n);
        let (a, b) = (runs[i], runs[i + 1]);
        assert(orphan_settled(g.t, true, d, a, b));
        let k = lemma_orphan_step(g, l0, d, a, b);
        assert(cleared_after(g.t, s, l0, b.log, c, d));
        lemma_cleared_later(g.t, s, l0, b.log, r2.log, c, d);
    }
}

proof fn lemma_settled_grew(
    t: TopologyModel,
    devs: Seq<Seq<char>>,
    runs: Seq<Run>,
    a: int,
    b: int,
)
    requires
        each_settled(t, true, devs, runs),
        0 <= a <= b <= devs.len(),
    ensures
        grew(runs[a].log, runs[b].log),
    decreases b - a,
{
    lemma_grew_same(runs[a].log);
    if a < b {
        lemma_settled_grew(t, devs, runs, a, b - 1);
        let dev = devs[b - 1];
        lemma_orphan_settled(t, true, dev, runs[b - 1], runs[b]);
        lemma_grew_trans(runs[a].log, runs[b - 1].log, runs[b].log);
    }
}

/// A full pass clears the orphans, with pairs or without: it reads the clock and
/// the state directory, and asks the cards of all orphans whose interfaces are
/// still there to let go of everything that their notes name.
pub proof fn a_pass_clears_every_orphan(
    t: TopologyModel,
    s: SyncerModel,
    log: Seq<Op>,
    s2: SyncerModel,
    log2: Seq<Op>,
    reports: Seq<Report>,
)
    requires
        reconciled(t, true, s, log, s2, log2, Ok(reports)),
        !s.dry_run,
        s.authoritative,
    ensures
        exists|c: int| #[trigger] orphans_cleared_at(t, s, log, log2, c),
{
    let g = Ground { t, dir: s.book.dir, quiet: Set::empty() };
    let none = Seq::<Seq<char>>::empty();
    lemma_sound_start(g, log);
    if s.pairs.len() == 0 {
        let r0 = Run { s, log, failures: none };
        let r1 = choose|r1: Run| #[trigger]
            orphans_dropped(t, true, r0, r1) && log2 == r1.log;
        lemma_dropped_clears(g, s, log, r0, r1);
        assert(orphans_cleared_at(t, s, log, log2, log.len() as int));
    } else {
        let r = Ok::<Seq<Report>, Errno>(reports);
        let dump = log2[log.len() as int];
        let la = log.push(dump);
        lemma_sound_ask(g, log, s.book.dir, log, dump);
        let fdb = dump->table->Ok_0;
        let pfs = live_functions(t, pair_devs(s.pairs));
        assert(table_reconciled(t, true, fdb, pfs, s, la, s2, log2, r));
        let (s1, l1, failed) = choose|s1: SyncerModel, l1: Seq<Op>, failed: Option<Errno>|
            {
                &&& #[trigger] answer_first(s, la, pfs, s1, l1, failed)
                &&& match failed {
                    None => pass_made(t, true, fdb, pfs, s.vf_usable(pfs), s1, l1, s2, log2, r),
                    Some(e) => r == Err::<Seq<Report>, Errno>(e) && s2 == s1 && log2 == l1,
                }
            };
        if !s.vf_usable(pfs) {
            lemma_sound_ask(g, log, s.book.dir, la, l1.last());
        }
        lemma_made_clears(g, s, log, fdb, pfs, s.vf_usable(pfs), s1, l1, s2, log2, reports);
    }
}

proof fn lemma_made_clears(
    g: Ground,
    s: SyncerModel,
    l0: Seq<Op>,
    fdb: Seq<crate::netlink::FdbEntry>,
    pfs: Seq<u32>,
    carried: bool,
    s1: SyncerModel,
    l1: Seq<Op>,
    s2: SyncerModel,
    log2: Seq<Op>,
    reports: Seq<Report>,
)
    requires
        g.dir == s.book.dir,
        sound(g, l0, s1.book.dir, l1),
        pass_made(g.t, true, fdb, pfs, carried, s1, l1, s2, log2, Ok(reports)),
        !s.dry_run,
        s.authoritative,
        s1.authoritative == s.authoritative,
        s1.dry_run == s.dry_run,
        s1.pairs == s.pairs,
        s1.absent_since == s.absent_since,
        s1.orphan_grace == s.orphan_grace,
    ensures
        exists|c: int| #[trigger] orphans_cleared_at(g.t, s, l0, log2, c),
{
    let t = g.t;
    let (c, ps) = crate::sync::pass_laws::lemma_made_opened(
        t,
        true,
        fdb,
        pfs,
        carried,
        s1,
        l1,
        s2,
        log2,
        reports,
    );
    let now = choose|now: Moment| #[trigger]
        orphans_dropped(
            t,
            true,
            pass_start(s1, l1.push(Op::Clock { reading: now }), at_after(s1, now)),
            ps[0].run,
        );
    let clock = Op::Clock { reading: now };
    let lc = l1.push(clock);
    let r0 = pass_start(s1, lc, at_after(s1, now));
    let r1 = ps[0].run;
    lemma_sound_ask(g, l0, s1.book.dir, l1, clock);
    lemma_dropped_clears(g, s, l0, r0, r1);
    let n = s1.pairs.len() as int;
    crate::sync::pass_laws::lemma_all_steps(c, s1.pairs, ps, 0, n);
    assert(ps.last() == ps[n]);
    let q = lc.len() as int;
    assert(log2.take(r1.log.len() as int)[q] == r1.log[q]);
    assert(log2.take(r1.log.len() as int)[q + 1] == r1.log[q + 1]);
    assert forall|d: Seq<char>| #[trigger]
        is_orphan(s, log2[q], log2[q + 1], d) && t.names.contains_key(d) implies cleared_after(
        t,
        s,
        l0,
        log2,
        q,
        d,
    ) by {
        assert(is_orphan(s, r1.log[q], r1.log[q + 1], d));
        lemma_cleared_later(t, s, l0, r1.log, log2, q, d);
    }
    assert(orphans_cleared_at(t, s, l0, log2, q));
}

/// A note whose device is gone by name is a renamed one's where the interface
/// recorded beside it is still there under another name, and nobody's otherwise.
pub proof fn a_rename_is_told_by_the_recorded_index(
    t: TopologyModel,
    dir: Files,
    dev: Seq<char>,
    index: u32,
    name: Seq<char>,
)
    ensures
        renamed_to(t, dir, dev) == Some((index, name)) <==> {
            &&& index_in(dir, dev) == Some(index as nat)
            &&& t.links.contains_key(index)
            &&& t.links[index].name == name
            &&& name != dev
        },
{
}

} // verus!
