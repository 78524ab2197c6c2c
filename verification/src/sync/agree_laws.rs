//! The event path and the full pass agree: what arrives as an event is put into
//! a card exactly where a pass over the same tables would want it there.

use vstd::prelude::*;

use crate::mac::{registerable, Mac};
use crate::netlink::{Errno, FdbEntry, Moment, Op, RTM_DELNEIGH, RTM_NEWNEIGH};
use crate::sync::apply::{
    all_reflected, batch_committed, batch_grown, bursts_registered, doubted, fast_applied,
    growth_settled, learns_answered_by, learns_worked, reflections_answered, urgency_of, At,
};
use crate::sync::batch::{
    burst_fresh, burst_over, burst_registered, burst_written, held_by, learns_of, lists_devs,
    offered_to, pair_of, room_made, stamped,
};
use crate::sync::card::{
    batch_answered, batch_noted, batch_registered, batch_settled, lemma_sound_start, reduced_said,
    refused_said, unclaimed, Ground, RegisteredModel,
};
use crate::sync::decide::{desired_set, excluded, learn_of, learnt, live_functions, wire_set, Rules};
use crate::sync::fast::{
    fast_list, fast_model, has_kind, learnt_inside, offered, offers, offers_of, reflected_on,
    reskipped, FastModel, OfferModel,
};
use crate::sync::fast_laws::{
    a_batch_keeps_the_rules, all_placed, batch_holds, batch_may, heard_inside, held_within,
    is_placed, kept_quiet, lemma_batch_committed, lemma_grown_carried, lemma_holds_ask,
    lemma_holds_files, lemma_list_is_from, lemma_reskipped_is_from, lemma_room_made, may_add,
};
use crate::sync::files::{grew, lemma_grew_push, lemma_grew_same, since};
use crate::sync::journal::unnoted_text;
use crate::sync::notes::{
    index_noted, lemma_filework_extended, lemma_filework_index, lemma_filework_looked,
    lemma_filework_one, lemma_filework_reduced, lock_asked, note_appended, note_extended,
    note_looked, note_reduced, sorted_list, BookModel,
};
use crate::sync::pass::place_of;
use crate::sync::reconcile::{answer_first, pair_devs};
use crate::sync::syncer::SyncerModel;
use crate::sync::types::{PairModel, Urgency};
use crate::topology::{
    above, bridge_at, bridge_from, lemma_unseen, macs_in, master_of, AnatomyModel, Learn, LinkModel,
    TopologyModel,
};

verus! {

/// Whether a table lists every address once, on ports that the picture knows
/// under that master, and none of them is an interface's own.
pub open spec fn plain_table(t: TopologyModel, fdb: Seq<FdbEntry>) -> bool {
    &&& forall|i: int, j: int|
        #![trigger fdb[i], fdb[j]]
        0 <= i < fdb.len() && 0 <= j < fdb.len() && fdb[i].mac == fdb[j].mac ==> i == j
    &&& forall|i: int|
        0 <= i < fdb.len() && (#[trigger] fdb[i]).master is Some ==> t.links.contains_key(
            fdb[i].ifindex,
        ) && t.links[fdb[i].ifindex].master == fdb[i].master
    &&& forall|i: int, x: u32|
        #![trigger fdb[i], t.links[x]]
        0 <= i < fdb.len() && t.links.contains_key(x) ==> t.links[x].mac != Some(fdb[i].mac)
}

/// Whether an address was put into a card after this many requests.
pub open spec fn adds_after(log: Seq<Op>, n: nat) -> bool {
    exists|k: int| n <= k < log.len() && (#[trigger] log[k]) matches Op::Card { add: true, .. }
}

/// Whether no addition to a file was refused after this many requests.
pub open spec fn appends_taken(log: Seq<Op>, n: nat) -> bool {
    forall|k: int|
        n <= k < log.len() ==> !((#[trigger] log[k]) matches Op::Append { refused: Some(_), .. })
}

proof fn lemma_adds_later(a: Seq<Op>, b: Seq<Op>, n: nat, m: nat)
    requires
        adds_after(a, n),
        grew(a, b),
        m <= n,
    ensures
        adds_after(b, m),
{
    let k = choose|k: int| n <= k < a.len() && (#[trigger] a[k]) matches Op::Card {
        add: true,
        ..
    };
    assert(b.take(a.len() as int)[k] == b[k]);
}

proof fn lemma_taken_before(a: Seq<Op>, b: Seq<Op>, n: nat, m: nat)
    requires
        appends_taken(b, n),
        grew(a, b),
        n <= m,
    ensures
        appends_taken(a, m),
{
    assert forall|k: int| m <= k < a.len() implies !((#[trigger] a[k]) matches Op::Append {
        refused: Some(_),
        ..
    }) by {
        assert(b.take(a.len() as int)[k] == b[k]);
    }
}

/// Whether a learn is wanted is what decides whether it is offered.
proof fn lemma_event_offer(
    t: TopologyModel,
    rules: Rules,
    vf: Seq<(u32, Mac)>,
    wires: Map<Seq<char>, Set<Mac>>,
    fdb: Seq<FdbEntry>,
    f: FastModel,
    e: FdbEntry,
)
    requires
        plain_table(t, fdb),
        fdb.contains(e),
        t.links.contains_key(f.anat.bridge),
        f.skip == excluded(rules.exclude, t.links, f.anat, vf),
        f.reflected == reflected_on(seq![(RTM_NEWNEIGH, e)], f.anat.port),
        wires.contains_key(f.dev),
        wires[f.dev] == wire_set(t.links, f.anat, fdb),
        e.learnt() && desired_set(rules, t.links, f.anat, fdb, vf).contains(e.mac),
        !rules.extra.contains(e.mac),
    ensures
        offers(t, wires, f, e, false),
        f.reflected == Set::<Mac>::empty(),
{
    let i = choose|i: int| 0 <= i < fdb.len() && fdb[i] == e;
    let anat = f.anat;
    assert(!macs_in(t.links, above(t.links, anat.bridge)).contains(e.mac));
    let behind = learnt(t.links, anat.bridge, anat.port, fdb, Learn::Behind);
    assert(behind.contains(e.mac));
    let j = choose|j: int|
        0 <= j < fdb.len() && (#[trigger] fdb[j]).mac == e.mac && learn_of(
            t.links,
            anat.bridge,
            anat.port,
            fdb[j],
        ) == Some(Learn::Behind);
    assert(fdb[i].mac == fdb[j].mac);
    assert(learnt_inside(t, f, e));
    assert(e.ifindex != anat.port);
    let events = seq![(RTM_NEWNEIGH, e)];
    assert(f.reflected =~= Set::<Mac>::empty());
}

/// A burst with an address in it asks the card, unless the note refuses.
proof fn lemma_batch_asks(
    b: BookModel,
    log: Seq<Op>,
    dev: Seq<char>,
    index: u32,
    macs: Seq<Mac>,
    b2: BookModel,
    log2: Seq<Op>,
    r: Option<RegisteredModel>,
)
    requires
        batch_registered(b, log, dev, index, macs, b2, log2, r),
        macs.len() > 0,
        b2.readable(dev),
        appends_taken(log2, log.len()),
    ensures
        adds_after(log2, log.len()),
{
    let (bl, ll, l3) = choose|bl: BookModel, ll: Seq<Op>, l2: Seq<Op>|
        {
            &&& #[trigger] lock_asked(b, log, dev, bl, ll)
            &&& #[trigger] batch_noted(bl, ll, dev, index, macs, b2, l2, r)
            &&& log2 == l2.push(Op::Unlock { dev })
        };
    lemma_grew_same(l3);
    lemma_grew_push(l3, l3, Op::Unlock { dev });
    let (b1, l1, fresh) = choose|b1: BookModel, l1: Seq<Op>, fresh: Option<Seq<Mac>>|
        {
            &&& #[trigger] note_extended(bl, ll, dev, macs, b1, l1, fresh)
            &&& match (fresh, r) {
                (None, None) => b2 == b1.saying(unnoted_text(dev, macs.len())) && l3 == l1,
                (Some(f), Some(reg)) => batch_settled(
                    b1,
                    l1,
                    dev,
                    index,
                    macs,
                    f,
                    b2,
                    l3,
                    reg,
                ),
                _ => false,
            }
        };
    lemma_filework_extended(bl, ll, dev, macs, b1, l1, fresh);
    match fresh {
        None => {
            lemma_taken_before(l1, log2, log.len(), ll.len());
            lemma_refused_once(bl, ll, dev, macs, b1, l1);
        },
        Some(f) => {
            lemma_settled_asks(b1, l1, dev, index, macs, f, b2, l3, r->0);
            lemma_adds_later(l3, log2, l1.len(), log.len());
        },
    }
}

/// A readable note that takes no addition has refused one.
proof fn lemma_refused_once(
    b: BookModel,
    log: Seq<Op>,
    dev: Seq<char>,
    macs: Seq<Mac>,
    b2: BookModel,
    log2: Seq<Op>,
)
    requires
        note_extended(b, log, dev, macs, b2, log2, None),
        b2.readable(dev),
    ensures
        !appends_taken(log2, log.len()),
{
    let (bx, lx) = choose|bx: BookModel, lx: Seq<Op>| #[trigger]
        note_looked(b, log, dev, bx, lx) && note_appended(bx, lx, dev, macs, b2, log2, None);
    lemma_looked_grew(b, log, dev, bx, lx);
    let ops = since(lx, log2);
    assert(ops[0] is Append);
    assert(log2[lx.len() as int] == ops[0]);
}

/// A batch that the note has taken goes to the card.
proof fn lemma_settled_asks(
    b: BookModel,
    log: Seq<Op>,
    dev: Seq<char>,
    index: u32,
    macs: Seq<Mac>,
    fresh: Seq<Mac>,
    b2: BookModel,
    log2: Seq<Op>,
    reg: RegisteredModel,
)
    requires
        batch_settled(b, log, dev, index, macs, fresh, b2, log2, reg),
        macs.len() > 0,
    ensures
        adds_after(log2, log.len()),
{
    let l2 = choose|l2: Seq<Op>| #[trigger]
        batch_answered(b, log, l2, dev, index, macs, fresh, b2, log2, reg);
    let ops = since(log, l2);
    assert(ops[0] matches Op::Card { add: true, .. });
    assert(l2[log.len() as int] == ops[0]);
    assert(adds_after(l2, log.len()));
    let theirs = unclaimed(ops, fresh);
    lemma_grew_same(l2);
    if theirs.len() > 0 {
        let bs = refused_said(b, dev, ops);
        let (ok, b3) = choose|ok: bool, b3: BookModel| #[trigger]
            note_reduced(bs, l2, dev, theirs.to_set(), b3, log2, ok) && b2 == reduced_said(
                b3,
                dev,
                theirs.len(),
                ok,
            );
        lemma_filework_reduced(bs, l2, dev, theirs.to_set(), b3, log2, ok);
    }
    lemma_adds_later(l2, log2, log.len(), log.len());
}

proof fn lemma_looked_grew(
    b: BookModel,
    log: Seq<Op>,
    dev: Seq<char>,
    b2: BookModel,
    log2: Seq<Op>,
)
    requires
        note_looked(b, log, dev, b2, log2),
    ensures
        grew(log, log2),
{
    lemma_filework_looked(b, log, dev, b2, log2);
}

proof fn lemma_burst_asks(
    g: Ground,
    l0: Seq<Op>,
    f: FastModel,
    learnt: Map<Mac, u32>,
    m: Mac,
    s: SyncerModel,
    log: Seq<Op>,
    s2: SyncerModel,
    log2: Seq<Op>,
)
    requires
        batch_holds(g, l0, s, log),
        burst_registered(g.t, f, learnt, s, log, s2, log2),
        is_placed(g.t, f),
        learnt.contains_key(m),
        s2.book.readable(f.dev),
        appends_taken(log2, log.len()),
    ensures
        adds_after(log2, log.len()),
{
    let (now, macs, s1, l1) = choose|now: Moment, macs: Seq<Mac>, s1: SyncerModel, l1: Seq<Op>|
        {
            &&& sorted_list(macs, learnt.dom())
            &&& #[trigger] room_made(
                g.t,
                f.dev,
                f.anat.dev,
                burst_over(stamped(s, f.dev, learnt, now.boot_millis), f.dev, learnt.dom()),
                burst_fresh(stamped(s, f.dev, learnt, now.boot_millis), f.dev, learnt.dom()),
                stamped(s, f.dev, learnt, now.boot_millis),
                log.push(Op::Clock { reading: now }),
                s1,
                l1,
            )
            &&& #[trigger] burst_written(f.dev, f.anat.dev, macs, s1, l1, s2, log2)
        };
    let sa = stamped(s, f.dev, learnt, now.boot_millis);
    let clock = Op::Clock { reading: now };
    let lc = log.push(clock);
    lemma_filework_one(s.book.dir, log, clock);
    lemma_holds_files(g, l0, s, log, sa, lc);
    lemma_room_made(
        g,
        l0,
        f.dev,
        f.anat.dev,
        burst_over(sa, f.dev, learnt.dom()),
        burst_fresh(sa, f.dev, learnt.dom()),
        sa,
        lc,
        s1,
        l1,
    );
    let (b1, l2, b2, reg) = choose|
        b1: BookModel,
        l1p: Seq<Op>,
        b2: BookModel,
        reg: Option<RegisteredModel>,
    |
        {
            &&& #[trigger] index_noted(s1.book, l1, f.dev, f.anat.dev, b1, l1p)
            &&& #[trigger] batch_registered(b1, l1p, f.dev, f.anat.dev, macs, b2, log2, reg)
            &&& s2 == s1.with_book(b2).holding(f.dev, held_by(reg))
        };
    lemma_filework_index(s1.book, l1, f.dev, f.anat.dev, b1, l2);
    assert(macs.to_set().contains(m));
    assert(macs.len() > 0);
    lemma_grew_same(log2);
    lemma_taken_before(log2, log2, log.len(), l2.len());
    lemma_batch_asks(b1, l2, f.dev, f.anat.dev, macs, b2, log2, reg);
    lemma_adds_later(log2, log2, l2.len(), log.len());
}

/// What one offer comes to once it is committed.
proof fn lemma_commit_asks(
    g: Ground,
    l0: Seq<Op>,
    fps: Seq<FastModel>,
    e: FdbEntry,
    s: SyncerModel,
    log: Seq<Op>,
    s2: SyncerModel,
    log2: Seq<Op>,
    urgent: bool,
)
    requires
        batch_holds(g, l0, s, log),
        all_placed(g.t, fps),
        fps.len() == 1,
        offers(g.t, s.carried_wire, fps[0], e, false),
        batch_committed(g.t, fps, seq![(RTM_NEWNEIGH, e)], s, log, s2, log2, urgent),
        s2.book.readable(fps[0].dev),
        appends_taken(log2, log.len()),
    ensures
        adds_after(log2, log.len()),
{
    let events = seq![(RTM_NEWNEIGH, e)];
    let all = offered(g.t, s.carried_wire, fps, events, false);
    let f = fps[0];
    let s1 = doubted(g.t, events, s);
    assert(is_placed(g.t, f));
    assert(events.drop_last() =~= Seq::<(u16, FdbEntry)>::empty());
    assert(fps.drop_last() =~= Seq::<FastModel>::empty());
    assert(all =~= seq![(f.dev, e.mac, e.ifindex)]) by {
        assert(offered(g.t, s.carried_wire, fps, events.drop_last(), false).len() == 0);
        assert(offers_of(g.t, s.carried_wire, fps.drop_last(), e, false).len() == 0);
    }
    let (devs, ats) = choose|devs: Seq<Seq<char>>, ats: Seq<At>|
        {
            &&& lists_devs(devs, all)
            &&& #[trigger] bursts_registered(g.t, fps, all, devs, ats)
            &&& ats[0] == (At { s: s1, log })
            &&& ats.last() == (At { s: s2, log: log2 })
        };
    assert(all[0].0 == f.dev);
    assert(offered_to(all, f.dev));
    assert(devs.contains(f.dev));
    let i = choose|i: int| 0 <= i < devs.len() && devs[i] == f.dev;
    assert forall|k: int| 0 <= k < devs.len() implies #[trigger] devs[k] == f.dev by {
        assert(devs.contains(devs[k]));
        assert(offered_to(all, devs[k]));
    }
    assert(devs.len() == 1) by {
        if devs.len() > 1 {
            assert(devs[0] == devs[1]);
        }
    }
    assert(devs[0] == f.dev);
    assert(pair_of(fps, f.dev) == Some(f)) by {
        assert(pair_of(fps.drop_last(), f.dev) is None);
    }
    assert(all.drop_last() =~= Seq::<OfferModel>::empty());
    assert(learns_of(all, f.dev).contains_key(e.mac));
    lemma_grew_same(log);
    lemma_burst_asks(g, l0, f, learns_of(all, f.dev), e.mac, s1, log, s2, log2);
}

/// Nothing happens where nothing was reflected.
proof fn lemma_none_reflected(
    t: TopologyModel,
    fps: Seq<FastModel>,
    s: SyncerModel,
    log: Seq<Op>,
    s2: SyncerModel,
    log2: Seq<Op>,
    urgent: bool,
)
    requires
        all_reflected(t, fps, s, log, s2, log2, urgent),
        fps.len() == 1,
        fps[0].reflected == Set::<Mac>::empty(),
    ensures
        s2 == s,
        log2 == log,
{
    let (ats, urgents) = choose|ats: Seq<At>, urgents: Seq<bool>|
        {
            &&& #[trigger] reflections_answered(t, fps, ats, urgents)
            &&& ats[0] == (At { s, log })
            &&& ats.last() == (At { s: s2, log: log2 })
            &&& urgent == exists|i: int| 0 <= i < urgents.len() && #[trigger] urgents[i]
        };
    assert(fps[0].reflected == Set::<Mac>::empty());
    assert(ats[0].s == ats[1].s);
}

/// The bridge that a chain of masters leads to is in the picture.
proof fn lemma_bridge_known(links: Map<u32, LinkModel>, cur: u32, seen: Set<u32>)
    requires
        links.dom().finite(),
    ensures
        bridge_from(links, cur, seen) matches Some(b) ==> links.contains_key(b.0),
    decreases links.dom().difference(seen).len(),
{
    if !seen.contains(cur) {
        if let Some(m) = master_of(links, cur) {
            if !bridge_at(links, m) {
                lemma_unseen(links, seen, cur);
                lemma_bridge_known(links, m, seen.insert(cur));
            }
        }
    }
}

/// A learn that may go into a card is one that a pass would want there.
proof fn lemma_heard_is_wanted(
    t: TopologyModel,
    rules: Rules,
    vf: Seq<(u32, Mac)>,
    fdb: Seq<FdbEntry>,
    f: FastModel,
    e: FdbEntry,
    mac: Mac,
)
    requires
        plain_table(t, fdb),
        fdb.contains(e),
        t.links.contains_key(f.anat.bridge),
        heard_inside(t, f, seq![(RTM_NEWNEIGH, e)], mac),
        registerable(mac),
        !excluded(rules.exclude, t.links, f.anat, vf).contains(mac),
    ensures
        mac == e.mac,
        e.learnt() && desired_set(rules, t.links, f.anat, fdb, vf).contains(e.mac),
{
    let anat = f.anat;
    let i = choose|i: int| 0 <= i < fdb.len() && fdb[i] == e;
    assert(learn_of(t.links, anat.bridge, anat.port, fdb[i]) == Some(Learn::Behind));
    assert(learnt(t.links, anat.bridge, anat.port, fdb, Learn::Behind).contains(e.mac));
    let wire = learnt(t.links, anat.bridge, anat.port, fdb, Learn::Wire);
    if wire.contains(e.mac) {
        let j = choose|j: int|
            0 <= j < fdb.len() && (#[trigger] fdb[j]).mac == e.mac && learn_of(
                t.links,
                anat.bridge,
                anat.port,
                fdb[j],
            ) == Some(Learn::Wire);
        assert(fdb[i].mac == fdb[j].mac);
    }
}

/// A learn that a pass would want is put into the card.
proof fn lemma_wanted_is_asked(
    g: Ground,
    pair: PairModel,
    anat: AnatomyModel,
    fdb: Seq<FdbEntry>,
    e: FdbEntry,
    s: SyncerModel,
    log: Seq<Op>,
    s2: SyncerModel,
    log2: Seq<Op>,
    r: Result<Urgency, Errno>,
)
    requires
        batch_holds(g, log, s, log),
        learns_answered_by(
            g.t,
            live_functions(g.t, pair_devs(s.pairs)),
            seq![(RTM_NEWNEIGH, e)],
            Urgency::Nothing,
            s,
            log,
            s2,
            log2,
            r,
        ),
        s.pairs == seq![pair],
        place_of(g.t, pair) == Some(anat),
        g.t.links.contains_key(anat.bridge),
        !s.extra.contains(e.mac),
        plain_table(g.t, fdb),
        fdb.contains(e),
        s.carried_wire.contains_key(pair.dev),
        s.carried_wire[pair.dev] == wire_set(g.t.links, anat, fdb),
        r is Ok,
        s2.book.readable(pair.dev),
        appends_taken(log2, log.len()),
        e.learnt() && desired_set(
            s.rules(),
            g.t.links,
            anat,
            fdb,
            s2.vf_answer(),
        ).contains(e.mac),
    ensures
        adds_after(log2, log.len()),
{
    let t = g.t;
    let pfs = live_functions(t, pair_devs(s.pairs));
    let events = seq![(RTM_NEWNEIGH, e)];
    let carried = s.vf_usable(pfs);
    let (s1, l1, failed) = choose|s1: SyncerModel, l1: Seq<Op>, failed: Option<Errno>|
        {
            &&& #[trigger] answer_first(s, log, pfs, s1, l1, failed)
            &&& match failed {
                Some(e) => r == Err::<Urgency, Errno>(e) && s2 == s1 && log2 == l1,
                None => learns_worked(
                    t,
                    events,
                    Urgency::Nothing,
                    pfs,
                    carried,
                    s1,
                    l1,
                    s2,
                    log2,
                    r,
                ),
            }
        };
    lemma_grew_same(log);
    if !carried {
        lemma_holds_ask(g, log, s, log, s1, l1.last());
    }
    let fps = fast_list(t, s1.exclude, s1.vf_answer(), carried, events, s1.pairs);
    let (sr, lr, ur) = choose|sr: SyncerModel, lr: Seq<Op>, ur: bool|
        {
            &&& #[trigger] all_reflected(t, fps, s1, l1, sr, lr, ur)
            &&& batch_grown(
                t,
                pfs,
                carried,
                fps,
                events,
                urgency_of(Urgency::Nothing, ur),
                sr,
                lr,
                s2,
                log2,
                r,
            )
        };
    let front = s1.pairs.drop_last();
    assert(front =~= Seq::<PairModel>::empty());
    assert(s1.pairs.last() == pair);
    assert(fast_list(t, s1.exclude, s1.vf_answer(), carried, events, front).len() == 0);
    assert(fps.len() == 1);
    let f0 = fps[0];
    assert(f0.anat == anat && f0.dev == pair.dev);
    assert(f0.reflected == reflected_on(events, anat.port));
    let f2 = FastModel { skip: excluded(s.exclude, t.links, anat, s2.vf_answer()), ..f0 };
    lemma_event_offer(t, s.rules(), s2.vf_answer(), s.carried_wire, fdb, f2, e);
    lemma_none_reflected(t, fps, s1, l1, sr, lr, ur);
    lemma_list_is_from(t, s1.exclude, s1.vf_answer(), carried, events, s1.pairs);
    if !carried {
        let urgent = choose|urgent: bool| #[trigger]
            batch_committed(t, fps, events, s1, l1, s2, log2, urgent) && r == Ok::<
                Urgency,
                Errno,
            >(urgency_of(urgency_of(Urgency::Nothing, ur), urgent));
        lemma_batch_committed(g, log, fps, events, s1, l1, s2, log2, urgent);
        assert(f2 == f0);
        lemma_grew_same(log2);
        lemma_taken_before(log2, log2, log.len(), l1.len());
        lemma_commit_asks(g, log, fps, e, s1, l1, s2, log2, urgent);
        lemma_adds_later(log2, log2, l1.len(), log.len());
    } else {
        let (sg, lg, fg) = choose|sg: SyncerModel, lg: Seq<Op>, fg: Option<Errno>|
            {
                &&& #[trigger] growth_settled(t, pfs, fps, events, s1, l1, sg, lg, fg)
                &&& match fg {
                    Some(e) => r == Err::<Urgency, Errno>(e) && s2 == sg && log2 == lg,
                    None => exists|urgent: bool| #[trigger]
                        batch_committed(
                            t,
                            reskipped(t, sg.exclude, sg.vf_answer(), fps),
                            events,
                            sg,
                            lg,
                            s2,
                            log2,
                            urgent,
                        ) && r == Ok::<Urgency, Errno>(
                            urgency_of(urgency_of(Urgency::Nothing, ur), urgent),
                        ),
                }
            };
        assert(held_within(s, s1));
        lemma_grown_carried(g, log, pfs, fps, events, s, s1, l1, sg, lg, fg);
        let again = reskipped(t, sg.exclude, sg.vf_answer(), fps);
        let urgent = choose|urgent: bool| #[trigger]
            batch_committed(t, again, events, sg, lg, s2, log2, urgent) && r == Ok::<
                Urgency,
                Errno,
            >(urgency_of(urgency_of(Urgency::Nothing, ur), urgent));
        lemma_reskipped_is_from(
            t,
            s.exclude,
            s1.vf_answer(),
            true,
            sg.vf_answer(),
            events,
            s.pairs,
        );
        lemma_batch_committed(g, log, again, events, sg, lg, s2, log2, urgent);
        assert(again[0] == f2);
        lemma_grew_same(log2);
        lemma_taken_before(log2, log2, log.len(), lg.len());
        lemma_commit_asks(g, log, again, e, sg, lg, s2, log2, urgent);
        lemma_adds_later(log2, log2, lg.len(), log.len());
    }
}

/// Whatever arrives as an event is put into the card exactly when the full pass
/// over the same tables would want it there, the driver saying the same of its
/// functions: for a daemon of one pair that pins no address, whose last pass saw
/// this forwarding table, and whose note takes what it is asked to.
pub proof fn the_fast_path_agrees_with_the_full_pass(
    t: TopologyModel,
    pair: PairModel,
    anat: AnatomyModel,
    fdb: Seq<FdbEntry>,
    e: FdbEntry,
    s: SyncerModel,
    log: Seq<Op>,
    s2: SyncerModel,
    log2: Seq<Op>,
    r: Result<Urgency, Errno>,
)
    requires
        fast_applied(t, seq![(RTM_NEWNEIGH, e)], s, log, s2, log2, r),
        !s.dry_run,
        s.pairs == seq![pair],
        s.extra == Set::<Mac>::empty(),
        place_of(t, pair) == Some(anat),
        t.links.dom().finite(),
        plain_table(t, fdb),
        fdb.contains(e),
        s.carried_wire.contains_key(pair.dev),
        s.carried_wire[pair.dev] == wire_set(t.links, anat, fdb),
        r is Ok,
        s2.book.readable(pair.dev),
        appends_taken(log2, log.len()),
    ensures
        adds_after(log2, log.len()) <==> e.learnt() && desired_set(
            s.rules(),
            t.links,
            anat,
            fdb,
            s2.vf_answer(),
        ).contains(e.mac),
        forall|k: int|
            log.len() <= k < log2.len() ==> ((#[trigger] log2[k]) matches Op::Card {
                ifindex,
                mac,
                add: true,
                ..
            } ==> ifindex == anat.dev && mac == e.mac),
{
    let events = seq![(RTM_NEWNEIGH, e)];
    let g = Ground { t, dir: s.book.dir, quiet: kept_quiet(t, s) };
    let wanted = e.learnt() && desired_set(
        s.rules(),
        t.links,
        anat,
        fdb,
        s2.vf_answer(),
    ).contains(e.mac);
    lemma_bridge_known(t.links, t.names[pair.dev], Set::empty());
    a_batch_keeps_the_rules(t, events, s, log, s2, log2, r);
    assert forall|k: int| log.len() <= k < log2.len() implies ((#[trigger] log2[k])
        matches Op::Card { ifindex, mac, add: true, .. } ==> ifindex == anat.dev && mac == e.mac
        && wanted) by {
        if let Op::Card { ifindex, mac, add, .. } = log2[k] {
            if add {
                let ops = since(log, log2);
                let i = k - log.len();
                assert(ops[i] == log2[k]);
                assert(batch_may(g, s, s2, events, ops, i));
                let p = choose|p: int|
                    0 <= p < s.pairs.len() && may_add(
                        g,
                        s,
                        s2,
                        events,
                        ops.take(i),
                        #[trigger] s.pairs[p],
                        ifindex,
                        mac,
                    );
                assert(s.pairs[p] == pair);
                let f = fast_model(t, s.exclude, s2.vf_answer(), false, events, pair.dev, anat);
                lemma_heard_is_wanted(t, s.rules(), s2.vf_answer(), fdb, f, e, mac);
            }
        }
    }
    if wanted {
        lemma_sound_start(g, log);
        lemma_grew_same(log);
        assert(events[0].0 == RTM_NEWNEIGH);
        assert(has_kind(events, RTM_NEWNEIGH));
        assert(!has_kind(events, RTM_DELNEIGH));
        lemma_wanted_is_asked(g, pair, anat, fdb, e, s, log, s2, log2, r);
    }
}

} // verus!
