//! A flush reaches every note, and every entry that a note names.

use vstd::prelude::*;

use crate::mac::Mac;
use crate::netlink::{LinkInfo, Op, Refused};
use crate::sync::batch_laws::{lemma_look_seen, lemma_seen_later};
use crate::sync::card::{lemma_sound_ask, lemma_sound_start, sets_all, Ground};
use crate::sync::files::{grew, lemma_grew_same, lemma_grew_trans, replay, since};
use crate::sync::flush::{
    device_flushed, devices_flushed, dumped_host, each_flushed, flushed, flushed_from, flushed_said,
    lemma_each_flushed, note_flushed, target_index, through_said,
};
use crate::sync::notes::{
    devices_asked, file_read, index_in, index_name, lemma_filework_looked, lemma_filework_one,
    lock_asked, note_looked, note_name, owned_in, BookModel, Stage,
};
use crate::sync::orphan_laws::{has_note, lemma_noted};
use crate::sync::orphans::{
    entries_taken, index_by_name, lemma_filework_note_settled, lemma_takes_out_files,
    lemma_takes_out_same, note_settled, only_takes_out, renamed_to, taken_said,
};
use crate::sync::pass_laws::{asked_out, just_seen};
use crate::sync::syncer::SyncerModel;
use crate::topology::TopologyModel;

verus! {

/// Whether an interface is the one that the entries of a note are attached to:
/// the one of the device's name, or, where there is none, the one whose index is
/// recorded beside the note, under whatever name it goes now.
pub open spec fn entries_are_in(
    t: TopologyModel,
    recorded: Option<nat>,
    dev: Seq<char>,
    index: u32,
) -> bool {
    if t.names.contains_key(dev) {
        t.names[dev] == index
    } else {
        recorded == Some(index as nat) && t.links.contains_key(index) && t.links[index].name != dev
    }
}

/// Whether a device's note was flushed between two states of the log: it was
/// looked at, and the interface that its entries are in was asked to let go of
/// everything it named.
pub open spec fn flushed_after(
    t: TopologyModel,
    s: SyncerModel,
    log: Seq<Op>,
    log2: Seq<Op>,
    d: Seq<char>,
) -> bool {
    exists|k: int|
        log.len() < k < log2.len() && #[trigger] just_seen(log2, k, d) && forall|m: Mac, i: u32|
            #![trigger asked_out(log2.take(k), log2, i, m)]
            owned_in(replay(s.book.dir, since(log, log2.take(k))), d).contains(m)
                && entries_are_in(
                t,
                index_in(replay(s.book.dir, since(log, log2.take(k + 1))), d),
                d,
                i,
            ) ==> asked_out(log2.take(k), log2, i, m)
}

/// Whether the removal of a file was asked for between two states of the log.
pub open spec fn removal_asked(log: Seq<Op>, log2: Seq<Op>, name: Seq<char>) -> bool {
    exists|k: int|
        log.len() <= k < log2.len() && ((#[trigger] log2[k]) matches Op::Remove { name: n, .. }
            && n == name)
}

proof fn lemma_from(
    index: Option<u32>,
    owned: Set<Mac>,
    dev: Seq<char>,
    b: BookModel,
    log: Seq<Op>,
    b2: BookModel,
    log2: Seq<Op>,
    clean: bool,
)
    requires
        flushed_from(index, owned, dev, b, log, b2, log2, clean),
    ensures
        grew(log, log2),
        forall|m: Mac, i: u32|
            #![trigger asked_out(log, log2, i, m)]
            owned.contains(m) && index == Some(i) ==> asked_out(log, log2, i, m),
        clean ==> removal_asked(log, log2, note_name(dev)) && b.readable(dev),
{
    let (l1, kept, b3) = choose|l1: Seq<Op>, kept: Set<Mac>, b3: BookModel|
        {
            &&& #[trigger] entries_taken(index, owned, log, l1, kept)
            &&& #[trigger] note_settled(
                taken_said(b, dev, log, l1),
                l1,
                dev,
                kept,
                b3,
                log2,
                clean,
            )
            &&& b2 == flushed_said(b3, dev, owned, kept, clean)
        };
    let bs = taken_said(b, dev, log, l1);
    lemma_filework_note_settled(bs, l1, dev, kept, b3, log2, clean);
    lemma_grew_same(log);
    assert(grew(log, l1));
    lemma_grew_trans(log, l1, log2);
    assert forall|m: Mac, i: u32|
        #![trigger asked_out(log, log2, i, m)]
        owned.contains(m) && index == Some(i) implies asked_out(log, log2, i, m) by {
        let macs = choose|macs: Seq<Mac>|
            {
                &&& macs.no_duplicates() && macs.to_set() == owned
                &&& grew(log, l1)
                &&& #[trigger] sets_all(since(log, l1), i, macs, false)
            };
        assert(macs.to_set().contains(m));
        let q = choose|q: int| 0 <= q < macs.len() && macs[q] == m;
        let j = log.len() + q;
        assert(since(log, l1)[q] == l1[j]);
        assert(log2.take(l1.len() as int)[j] == l1[j]);
        assert(log2[j] == l1[j]);
    }
    if clean {
        let ops = since(l1, log2);
        assert(ops[0] is Remove);
        assert(log2[l1.len() as int] == ops[0]);
    }
}

proof fn lemma_device(
    g: Ground,
    s: SyncerModel,
    l0: Seq<Op>,
    dev: Seq<char>,
    b: BookModel,
    log: Seq<Op>,
    b2: BookModel,
    log2: Seq<Op>,
    clean: bool,
)
    requires
        g.dir == s.book.dir,
        only_takes_out(g, l0, l0, b.dir, log),
        device_flushed(g.t, false, dev, b, log, b2, log2, clean),
    ensures
        grew(log, log2),
        flushed_after(g.t, s, l0, log2, dev),
        clean ==> removal_asked(log, log2, note_name(dev)),
{
    let (bl, ll, b1, l1, l2) = choose|
        bl: BookModel,
        ll: Seq<Op>,
        b1: BookModel,
        l1: Seq<Op>,
        l2: Seq<Op>,
    |
        {
            &&& #[trigger] lock_asked(b, log, dev, bl, ll)
            &&& #[trigger] note_looked(bl, ll, dev, b1, l1)
            &&& #[trigger] note_flushed(g.t, dev, owned_in(b1.dir, dev), b1, l1, b2, l2, clean)
            &&& log2 == l2.push(Op::Unlock { dev })
        };
    lemma_filework_one(b.dir, log, ll.last());
    lemma_takes_out_files(g, l0, l0, b.dir, log, bl.dir, ll);
    lemma_filework_looked(bl, ll, dev, b1, l1);
    lemma_takes_out_files(g, l0, l0, bl.dir, ll, b1.dir, l1);
    lemma_look_seen(bl, ll, dev, b1, l1);
    let owned = owned_in(b1.dir, dev);
    let k = l1.len() as int;
    assert(owned == owned_in(replay(g.dir, since(l0, l1)), dev));
    assert(grew(ll, l1));
    lemma_grew_trans(log, ll, l1);
    lemma_grew_same(l2);
    lemma_grew_push_one(l2, l2, Op::Unlock { dev });
    if g.t.names.contains_key(dev) {
        let index = index_by_name(g.t, dev);
        lemma_from(index, owned, dev, b1, l1, b2, l2, clean);
        lemma_grew_push_one(l1, l2, Op::Unlock { dev });
        assert(log2.take(k) == l1);
        lemma_seen_in(l1, log2, dev);
        assert forall|m: Mac, i: u32|
            #![trigger asked_out(l1, log2, i, m)]
            owned.contains(m) && g.t.names[dev] == i implies asked_out(l1, log2, i, m) by {
            assert(asked_out(l1, l2, i, m));
            lemma_asked_later(l1, l2, log2, i, m);
        }
        lemma_grew_trans(log, l1, log2);
        if clean {
            lemma_removal_later(log, l1, l2, log2, note_name(dev));
        }
        assert(just_seen(log2, k, dev));
    } else {
        let (bi, li) = choose|bi: BookModel, li: Seq<Op>| #[trigger]
            file_read(b1, l1, index_name(dev), bi, li) && flushed_from(
                target_index(renamed_to(g.t, bi.dir, dev)),
                owned,
                dev,
                through_said(g.t, bi, dev),
                li,
                b2,
                l2,
                clean,
            );
        let index = target_index(renamed_to(g.t, bi.dir, dev));
        lemma_filework_one(b1.dir, l1, li.last());
        lemma_takes_out_files(g, l0, l0, b1.dir, l1, bi.dir, li);
        lemma_from(index, owned, dev, through_said(g.t, bi, dev), li, b2, l2, clean);
        assert(grew(l1, li));
        lemma_grew_trans(l1, li, l2);
        lemma_grew_push_one(l1, l2, Op::Unlock { dev });
        lemma_grew_push_one(li, l2, Op::Unlock { dev });
        assert(log2.take(k) == l1);
        assert(log2.take(k + 1) == li);
        lemma_seen_in(l1, log2, dev);
        assert(bi.dir == replay(g.dir, since(l0, li)));
        assert forall|m: Mac, i: u32|
            #![trigger asked_out(l1, log2, i, m)]
            owned.contains(m) && entries_are_in(
                g.t,
                index_in(bi.dir, dev),
                dev,
                i,
            ) implies asked_out(l1, log2, i, m) by {
            assert(index == Some(i));
            assert(asked_out(li, l2, i, m));
            lemma_asked_later(li, l2, log2, i, m);
            lemma_asked_sooner(l1, li, log2, i, m);
        }
        lemma_grew_trans(log, l1, log2);
        if clean {
            lemma_removal_later(log, li, l2, log2, note_name(dev));
        }
        assert(just_seen(log2, k, dev));
    }
}

proof fn lemma_grew_push_one(a: Seq<Op>, b: Seq<Op>, op: Op)
    requires
        grew(a, b),
    ensures
        grew(a, b.push(op)),
{
    assert(b.push(op).take(a.len() as int) =~= b.take(a.len() as int));
}

proof fn lemma_seen_in(a: Seq<Op>, b: Seq<Op>, dev: Seq<char>)
    requires
        grew(a, b),
        just_seen(a, a.len() as int, dev),
    ensures
        just_seen(b, a.len() as int, dev),
{
    lemma_seen_later(a, b, a.len() as int, dev, 0, arbitrary());
}

proof fn lemma_asked_later(l: Seq<Op>, a: Seq<Op>, b: Seq<Op>, index: u32, m: Mac)
    requires
        asked_out(l, a, index, m),
        a.len() < b.len(),
        forall|i: int| 0 <= i < a.len() ==> a[i] == #[trigger] b[i],
    ensures
        asked_out(l, b, index, m),
{
    let k = choose|k: int|
        l.len() <= k < a.len() && ((#[trigger] a[k]) matches Op::Card {
            ifindex,
            mac,
            add: false,
            ..
        } && ifindex == index && mac == m);
    assert(b[k] == a[k]);
}

proof fn lemma_asked_sooner(l: Seq<Op>, a: Seq<Op>, b: Seq<Op>, index: u32, m: Mac)
    requires
        asked_out(a, b, index, m),
        l.len() <= a.len(),
    ensures
        asked_out(l, b, index, m),
{
    let k = choose|k: int|
        a.len() <= k < b.len() && ((#[trigger] b[k]) matches Op::Card {
            ifindex,
            mac,
            add: false,
            ..
        } && ifindex == index && mac == m);
    assert(l.len() <= k);
}

proof fn lemma_removal_later(
    l: Seq<Op>,
    a: Seq<Op>,
    b: Seq<Op>,
    c: Seq<Op>,
    name: Seq<char>,
)
    requires
        removal_asked(a, b, name),
        l.len() <= a.len(),
        grew(b, c),
    ensures
        removal_asked(l, c, name),
{
    let k = choose|k: int|
        a.len() <= k < b.len() && ((#[trigger] b[k]) matches Op::Remove { name: n, .. } && n
            == name);
    assert(c.take(b.len() as int)[k] == b[k]);
    assert(c[k] == b[k]);
}

proof fn lemma_flushed_later(
    t: TopologyModel,
    s: SyncerModel,
    log: Seq<Op>,
    a: Seq<Op>,
    b: Seq<Op>,
    d: Seq<char>,
)
    requires
        flushed_after(t, s, log, a, d),
        grew(a, b),
    ensures
        flushed_after(t, s, log, b, d),
{
    let k = choose|k: int|
        log.len() < k < a.len() && #[trigger] just_seen(a, k, d) && forall|m: Mac, i: u32|
            #![trigger asked_out(a.take(k), a, i, m)]
            owned_in(replay(s.book.dir, since(log, a.take(k))), d).contains(m) && entries_are_in(
                t,
                index_in(replay(s.book.dir, since(log, a.take(k + 1))), d),
                d,
                i,
            ) ==> asked_out(a.take(k), a, i, m);
    lemma_seen_later(a, b, k, d, 0, arbitrary());
    lemma_seen_later(a, b, k + 1, d, 0, arbitrary());
    assert forall|m: Mac, i: u32|
        #![trigger asked_out(b.take(k), b, i, m)]
        owned_in(replay(s.book.dir, since(log, b.take(k))), d).contains(m) && entries_are_in(
            t,
            index_in(replay(s.book.dir, since(log, b.take(k + 1))), d),
            d,
            i,
        ) implies asked_out(b.take(k), b, i, m) by {
        assert(asked_out(a.take(k), a, i, m));
        lemma_seen_later(a, b, k, d, i, m);
    }
    assert(just_seen(b, k, d));
}

proof fn lemma_stages_grew(
    g: Ground,
    s: SyncerModel,
    l0: Seq<Op>,
    devs: Seq<Seq<char>>,
    stages: Seq<Stage>,
    cleans: Seq<bool>,
    a: int,
    b: int,
)
    requires
        g.dir == s.book.dir,
        only_takes_out(g, l0, l0, stages[0].book.dir, stages[0].log),
        each_flushed(g.t, false, devs, stages, cleans),
        0 <= a <= b <= devs.len(),
    ensures
        grew(stages[a].log, stages[b].log),
    decreases b - a,
{
    lemma_grew_same(stages[a].log);
    if a < b {
        lemma_stages_grew(g, s, l0, devs, stages, cleans, a, b - 1);
        lemma_each_flushed(g, l0, l0, false, devs, stages, cleans, b - 1);
        let dev = devs[b - 1];
        let (x, y) = (stages[b - 1], stages[b]);
        lemma_device(g, s, l0, dev, x.book, x.log, y.book, y.log, cleans[b - 1]);
        lemma_grew_trans(stages[a].log, x.log, y.log);
    }
}

/// A flush goes over every note in the state directory, of uplinks and of devices
/// that have stopped being one: of each it looks at the note and asks the
/// interface that the entries are in to let go of everything the note names, a
/// renamed one included. A flush that calls itself clean also asked for the
/// removal of every note.
pub proof fn a_flush_reaches_every_note(
    s: SyncerModel,
    log: Seq<Op>,
    s2: SyncerModel,
    log2: Seq<Op>,
    clean: bool,
    infos: Seq<LinkInfo>,
    d: Seq<char>,
)
    requires
        flushed(s, log, s2, log2, Ok(clean)),
        !s.dry_run,
        log2[log.len() as int] == (Op::DumpLinks { links: Ok(infos) }),
    ensures
        log.len() + 1 < log2.len(),
        log2[log.len() as int + 1] is List,
        log2[log.len() as int + 1] matches Op::List { entries: Ok(entries) } ==> (has_note(
            entries,
            d,
        ) ==> flushed_after(dumped_host(infos), s, log, log2, d) && (clean ==> removal_asked(
            log,
            log2,
            d + ".owned"@,
        ))),
{
    let t = dumped_host(infos);
    let g = Ground { t, dir: s.book.dir, quiet: Set::empty() };
    let dump = log2[log.len() as int];
    let la = log.push(dump);
    let (l1, listed) = choose|l1: Seq<Op>, listed: Result<Seq<Seq<char>>, Refused>|
        {
            &&& #[trigger] devices_asked(la, l1, listed)
            &&& match listed {
                Ok(devs) => {
                    &&& s2 == (SyncerModel { book: s2.book, ..s })
                    &&& devices_flushed(t, s.dry_run, devs, s.book, l1, s2.book, log2, clean)
                },
                Err(e) => false,
            }
        };
    let devs = listed->Ok_0;
    let (stages, cleans) = choose|stages: Seq<Stage>, cleans: Seq<bool>|
        {
            &&& #[trigger] each_flushed(t, s.dry_run, devs, stages, cleans)
            &&& stages[0] == (Stage { book: s.book, log: l1 })
            &&& stages.last() == (Stage { book: s2.book, log: log2 })
            &&& clean == forall|i: int| 0 <= i < cleans.len() ==> #[trigger] cleans[i]
        };
    lemma_sound_start(g, log);
    lemma_takes_out_same(g, log, g.dir, log);
    lemma_filework_dump(g, log, dump);
    lemma_filework_one(g.dir, la, l1.last());
    lemma_takes_out_files(g, log, log, g.dir, la, g.dir, l1);
    let n = devs.len() as int;
    lemma_stages_grew(g, s, log, devs, stages, cleans, 0, n);
    assert(stages.last() == stages[n]);
    assert(log2.take(l1.len() as int)[la.len() as int] == l1[la.len() as int]);
    assert(log2[log.len() as int + 1] == l1.last());
    if let Op::List { entries: Ok(entries) } = l1.last() {
        lemma_noted(devs, entries, d);
        if has_note(entries, d) {
            let i = choose|i: int| 0 <= i < devs.len() && devs[i] == d;
            lemma_each_flushed(g, log, log, false, devs, stages, cleans, i);
            let (x, y) = (stages[i], stages[i + 1]);
            lemma_device(g, s, log, d, x.book, x.log, y.book, y.log, cleans[i]);
            lemma_stages_grew(g, s, log, devs, stages, cleans, i + 1, n);
            lemma_stages_grew(g, s, log, devs, stages, cleans, 0, i);
            lemma_flushed_later(t, s, log, y.log, log2, d);
            if clean {
                assert(cleans[i]);
                assert(note_name(d) == d + ".owned"@);
                lemma_removal_later(log, x.log, y.log, log2, note_name(d));
            }
        }
    }
}

proof fn lemma_filework_dump(g: Ground, log: Seq<Op>, dump: Op)
    requires
        only_takes_out(g, log, log, g.dir, log),
        dump is DumpLinks,
    ensures
        only_takes_out(g, log, log, g.dir, log.push(dump)),
{
    let la = log.push(dump);
    lemma_sound_ask(g, log, g.dir, log, dump);
    lemma_grew_same(log);
    assert(since(log, la) =~= seq![dump]);
    assert(la.take(log.len() as int) =~= log);
}

} // verus!
