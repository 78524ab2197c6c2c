//! What a batch of notifications does for every uplink of a bridge.

use vstd::prelude::*;

use crate::mac::Mac;
use crate::netlink::{Errno, FdbEntry, Moment, Op, RTM_DELNEIGH, RTM_NEWNEIGH};
use crate::sync::apply::{
    all_reflected, answer_refreshed, answer_without, base_urgency, batch_committed, batch_grown,
    bursts_registered, doubted, fast_applied, growth_found, growth_settled, learns_answered,
    learns_worked, picked, reflections_answered, silences_dated, timed, urgency_of, At,
};
use crate::sync::batch::{
    burst_fresh, burst_over, burst_registered, burst_written, held_by, keeps_shed, learns_of,
    lists_devs, offered_to, pair_of, reflected_out, reflection_answered, reflection_found,
    reflection_remembered, room_made, stamped, tight_said,
};
use crate::sync::card::{
    batch_noted, batch_registered, batch_settled, lemma_answered, lemma_sound_start, outcome_of,
    outcome_said, sets_all, taken_out, Ground, OutcomeModel, RegisteredModel, Why,
};
use crate::sync::decide::{excluded, live_functions};
use crate::sync::fast::{
    batch_concerns, batch_disputes, concerns, disputes, fast_list, fast_model, has_kind, offered,
    offers, on_wire, reflected_on, reskipped, FastModel, OfferModel,
};
use crate::sync::fast_laws::{
    all_from, all_placed, batch_holds, held_within, is_from, is_placed, kept_quiet,
    lemma_all_reflected, lemma_batch_committed, lemma_bursts_registered, lemma_grown_carried,
    lemma_holds_ask, lemma_holds_files, lemma_is_offered, lemma_list_is_from, lemma_pair_of,
    lemma_reflections_answered, lemma_reskipped_is_from, lemma_room_made,
    reflected_addresses_are_taken_out,
};
use crate::sync::files::{grew, lemma_grew_same, lemma_grew_trans, replay, since};
use crate::sync::filter_laws::{
    can_stand, driver_names, is_behind, is_learn, kept_out, lemma_bits, lemma_stands,
    only_the_uplinks_own_side_is_kept_out,
};
use crate::sync::journal::unnoted_text;
use crate::sync::notes::{
    index_noted, lemma_filework_index, lemma_filework_looked, lemma_filework_one,
    lemma_filework_same, lock_asked, looked_each, note_appended, note_extended, note_forgets,
    note_looked, note_name, owned_in, sorted_list, BookModel, Stage,
};
use crate::sync::orphans::{lemma_removals_trans, removals_only, same_setup};
use crate::sync::pass::{lists, place_of};
use crate::sync::pass_laws::{asked_out, just_seen, lemma_batch_row, never_named};
use crate::sync::reconcile::{answer_first, pair_devs};
use crate::sync::syncer::SyncerModel;
use crate::sync::types::{PairModel, Urgency};
use crate::topology::{AnatomyModel, TopologyModel};
use crate::topology::path_laws::a_learn_is_where_its_port_is;

verus! {

/// Whether a batch holds a learn of this address on this port.
pub open spec fn arrived_on(events: Seq<(u16, FdbEntry)>, port: u32, m: Mac) -> bool {
    exists|i: int|
        0 <= i < events.len() && (#[trigger] events[i]).0 == RTM_NEWNEIGH && events[i].1.state
            & 0x80 == 0 && events[i].1.flags & 0x02 == 0 && m[0] & 1 == 0 && events[i].1.ifindex
            == port && events[i].1.mac == m
}

proof fn lemma_arrived(events: Seq<(u16, FdbEntry)>, port: u32, m: Mac)
    ensures
        reflected_on(events, port).contains(m) <==> arrived_on(events, port, m),
{
    if reflected_on(events, port).contains(m) {
        let i = choose|i: int|
            0 <= i < events.len() && (#[trigger] events[i]).0 == RTM_NEWNEIGH
                && events[i].1.learnt() && crate::mac::unicast(events[i].1.mac)
                && events[i].1.ifindex == port && events[i].1.mac == m;
        assert(events[i].0 == RTM_NEWNEIGH);
    }
    if arrived_on(events, port, m) {
        let i = choose|i: int|
            0 <= i < events.len() && (#[trigger] events[i]).0 == RTM_NEWNEIGH && events[i].1.state
                & 0x80 == 0 && events[i].1.flags & 0x02 == 0 && m[0] & 1 == 0
                && events[i].1.ifindex == port && events[i].1.mac == m;
        assert(events[i].1.learnt());
    }
}

proof fn lemma_in_list(
    t: TopologyModel,
    exclude: Set<Mac>,
    vf: Seq<(u32, Mac)>,
    carried: bool,
    events: Seq<(u16, FdbEntry)>,
    pairs: Seq<PairModel>,
    i: int,
    anat: AnatomyModel,
) -> (k: int)
    requires
        0 <= i < pairs.len(),
        place_of(t, pairs[i]) == Some(anat),
    ensures
        0 <= k < fast_list(t, exclude, vf, carried, events, pairs).len(),
        fast_list(t, exclude, vf, carried, events, pairs)[k] == fast_model(
            t,
            exclude,
            vf,
            carried,
            events,
            pairs[i].dev,
            anat,
        ),
    decreases pairs.len(),
{
    let front = pairs.drop_last();
    let head = fast_list(t, exclude, vf, carried, events, front);
    if i < front.len() {
        assert(front[i] == pairs[i]);
        lemma_in_list(t, exclude, vf, carried, events, front, i, anat)
    } else {
        assert(pairs.last() == pairs[i]);
        head.len() as int
    }
}

/// Every pair whose device stands under its bridge takes part in a batch, however
/// many share the bridge: with its own anatomy, with what is kept out of its own
/// filter, and with what the batch saw arrive on its own port. And nobody else
/// does.
pub proof fn every_pair_takes_part_in_a_batch(
    t: TopologyModel,
    exclude: Set<Mac>,
    vf: Seq<(u32, Mac)>,
    carried: bool,
    events: Seq<(u16, FdbEntry)>,
    pairs: Seq<PairModel>,
    i: int,
    anat: AnatomyModel,
) -> (k: int)
    requires
        0 <= i < pairs.len(),
        place_of(t, pairs[i]) == Some(anat),
    ensures
        ({
            let fps = fast_list(t, exclude, vf, carried, events, pairs);
            &&& 0 <= k < fps.len()
            &&& fps[k].dev == pairs[i].dev
            &&& fps[k].anat == anat
            &&& forall|m: Mac| #[trigger]
                fps[k].skip.contains(m) <==> kept_out(exclude, t.links, anat, vf, m)
            &&& forall|m: Mac| #[trigger]
                fps[k].reflected.contains(m) <==> arrived_on(events, anat.port, m)
            &&& forall|j: int|
                0 <= j < fps.len() ==> exists|q: int|
                    0 <= q < pairs.len() && place_of(t, #[trigger] pairs[q]) == Some(
                        (#[trigger] fps[j]).anat,
                    ) && pairs[q].dev == fps[j].dev
        }),
{
    let fps = fast_list(t, exclude, vf, carried, events, pairs);
    let k = lemma_in_list(t, exclude, vf, carried, events, pairs, i, anat);
    assert forall|m: Mac| #[trigger]
        fps[k].skip.contains(m) <==> kept_out(exclude, t.links, anat, vf, m) by {
        only_the_uplinks_own_side_is_kept_out(exclude, t.links, anat, vf, m);
    }
    assert forall|m: Mac| #[trigger]
        fps[k].reflected.contains(m) <==> arrived_on(events, anat.port, m) by {
        lemma_arrived(events, anat.port, m);
    }
    lemma_list_is_from(t, exclude, vf, carried, events, pairs);
    assert forall|j: int| 0 <= j < fps.len() implies exists|q: int|
        0 <= q < pairs.len() && place_of(t, #[trigger] pairs[q]) == Some((#[trigger] fps[j]).anat)
            && pairs[q].dev == fps[j].dev by {
        let q = choose|q: int|
            0 <= q < pairs.len() && is_from(t, exclude, vf, events, #[trigger] pairs[q], fps[j]);
        assert(place_of(t, pairs[q]) == Some(fps[j].anat));
    }
    k
}

/// Whether a card was asked between two states of the log to take an address.
pub open spec fn asked_in(log: Seq<Op>, log2: Seq<Op>, index: u32, m: Mac) -> bool {
    exists|k: int|
        log.len() <= k < log2.len() && ((#[trigger] log2[k]) matches Op::Card {
            ifindex,
            mac,
            add: true,
            ..
        } && ifindex == index && mac == m)
}

/// Whether a device's note refused an addition between two states of the log.
pub open spec fn note_refused(log: Seq<Op>, log2: Seq<Op>, dev: Seq<char>) -> bool {
    exists|k: int|
        log.len() <= k < log2.len() && ((#[trigger] log2[k]) matches Op::Append {
            name,
            refused: Some(_),
            ..
        } && name == note_name(dev))
}

proof fn lemma_batch_asks(
    b: BookModel,
    log: Seq<Op>,
    dev: Seq<char>,
    index: u32,
    macs: Seq<Mac>,
    b2: BookModel,
    log2: Seq<Op>,
    r: Option<RegisteredModel>,
    m: Mac,
)
    requires
        batch_registered(b, log, dev, index, macs, b2, log2, r),
        macs.contains(m),
    ensures
        asked_in(log, log2, index, m) || note_refused(log, log2, dev) || !b2.readable(dev),
{
    if let Some(x) = r {
        let k = lemma_batch_row(b, log, dev, index, macs, b2, log2, x, m);
        assert(log2[k] is Card);
    } else {
        let (bl, ll, l3) = choose|bl: BookModel, ll: Seq<Op>, l2: Seq<Op>|
            {
                &&& #[trigger] lock_asked(b, log, dev, bl, ll)
                &&& #[trigger] batch_noted(bl, ll, dev, index, macs, b2, l2, r)
                &&& log2 == l2.push(Op::Unlock { dev })
            };
        let (b1, l1, fresh) = choose|b1: BookModel, l1: Seq<Op>, fresh: Option<Seq<Mac>>|
            {
                &&& #[trigger] note_extended(bl, ll, dev, macs, b1, l1, fresh)
                &&& match (fresh, r) {
                    (None, None) => b2 == b1.saying(unnoted_text(dev, macs.len())) && l3 == l1,
                    (Some(f), Some(reg)) => batch_settled(
                        b1,
                        l1,
                        dev,
                        index,
                        macs,
                        f,
                        b2,
                        l3,
                        reg,
                    ),
                    _ => false,
                }
            };
        let (bx, lx) = choose|bx: BookModel, lx: Seq<Op>| #[trigger]
            note_looked(bl, ll, dev, bx, lx) && note_appended(bx, lx, dev, macs, b1, l1, fresh);
        lemma_filework_looked(bl, ll, dev, bx, lx);
        if bx.readable(dev) {
            let ops = since(lx, l1);
            assert(ops[0] is Append);
            assert(l1[lx.len() as int] == ops[0]);
            assert(log2[lx.len() as int] == ops[0]);
        }
    }
}

proof fn lemma_burst_asks(
    g: Ground,
    l0: Seq<Op>,
    f: FastModel,
    learnt: Map<Mac, u32>,
    m: Mac,
    s: SyncerModel,
    log: Seq<Op>,
    s2: SyncerModel,
    log2: Seq<Op>,
)
    requires
        batch_holds(g, l0, s, log),
        burst_registered(g.t, f, learnt, s, log, s2, log2),
        is_placed(g.t, f),
        learnt.contains_key(m),
    ensures
        asked_in(log, log2, f.anat.dev, m) || note_refused(log, log2, f.dev)
            || !s2.book.readable(f.dev),
{
    let (now, macs, s1, l1) = choose|now: Moment, macs: Seq<Mac>, s1: SyncerModel, l1: Seq<Op>|
        {
            &&& sorted_list(macs, learnt.dom())
            &&& #[trigger] room_made(
                g.t,
                f.dev,
                f.anat.dev,
                burst_over(stamped(s, f.dev, learnt, now.boot_millis), f.dev, learnt.dom()),
                burst_fresh(stamped(s, f.dev, learnt, now.boot_millis), f.dev, learnt.dom()),
                stamped(s, f.dev, learnt, now.boot_millis),
                log.push(Op::Clock { reading: now }),
                s1,
                l1,
            )
            &&& #[trigger] burst_written(f.dev, f.anat.dev, macs, s1, l1, s2, log2)
        };
    let sa = stamped(s, f.dev, learnt, now.boot_millis);
    let clock = Op::Clock { reading: now };
    let lc = log.push(clock);
    lemma_filework_one(s.book.dir, log, clock);
    lemma_holds_files(g, l0, s, log, sa, lc);
    lemma_room_made(
        g,
        l0,
        f.dev,
        f.anat.dev,
        burst_over(sa, f.dev, learnt.dom()),
        burst_fresh(sa, f.dev, learnt.dom()),
        sa,
        lc,
        s1,
        l1,
    );
    let (b1, l2, b2, reg) = choose|
        b1: BookModel,
        l1p: Seq<Op>,
        b2: BookModel,
        reg: Option<RegisteredModel>,
    |
        {
            &&& #[trigger] index_noted(s1.book, l1, f.dev, f.anat.dev, b1, l1p)
            &&& #[trigger] batch_registered(b1, l1p, f.dev, f.anat.dev, macs, b2, log2, reg)
            &&& s2 == s1.with_book(b2).holding(f.dev, held_by(reg))
        };
    lemma_filework_index(s1.book, l1, f.dev, f.anat.dev, b1, l2);
    assert(macs.to_set().contains(m));
    assert(macs.contains(m));
    lemma_batch_asks(b1, l2, f.dev, f.anat.dev, macs, b2, log2, reg, m);
    assert(log.len() <= l2.len());
    if asked_in(l2, log2, f.anat.dev, m) {
        let k = choose|k: int|
            l2.len() <= k < log2.len() && ((#[trigger] log2[k]) matches Op::Card {
                ifindex,
                mac,
                add: true,
                ..
            } && ifindex == f.anat.dev && mac == m);
        assert(log.len() <= k);
    }
    if note_refused(l2, log2, f.dev) {
        let k = choose|k: int|
            l2.len() <= k < log2.len() && ((#[trigger] log2[k]) matches Op::Append {
                name,
                refused: Some(_),
                ..
            } && name == note_name(f.dev));
        assert(log.len() <= k);
    }
}

proof fn lemma_learnt_of(all: Seq<OfferModel>, j: int)
    requires
        0 <= j < all.len(),
    ensures
        learns_of(all, all[j].0).contains_key(all[j].1),
    decreases all.len(),
{
    if j < all.len() - 1 {
        lemma_learnt_of(all.drop_last(), j);
    }
}

proof fn lemma_pair_found(fps: Seq<FastModel>, k: int)
    requires
        0 <= k < fps.len(),
    ensures
        pair_of(fps, fps[k].dev) is Some,
    decreases fps.len(),
{
    if k < fps.len() - 1 {
        lemma_pair_found(fps.drop_last(), k);
    }
}

/// Whether a burst that holds an address was taken to the card of an uplink
/// between two states of the log: the card was asked for it, unless the uplink's
/// note would not take it or could not be read.
pub open spec fn burst_taken(
    t: TopologyModel,
    dev: Seq<char>,
    index: u32,
    m: Mac,
    log: Seq<Op>,
    log2: Seq<Op>,
    a: At,
    b: At,
) -> bool {
    &&& grew(log, a.log)
    &&& grew(a.log, b.log)
    &&& grew(b.log, log2)
    &&& exists|f: FastModel, learnt: Map<Mac, u32>| #[trigger]
        burst_registered(t, f, learnt, a.s, a.log, b.s, b.log) && f.dev == dev && f.anat.dev
            == index && learnt.contains_key(m)
    &&& asked_in(a.log, b.log, index, m) || note_refused(a.log, b.log, dev)
        || !b.s.book.readable(dev)
}

proof fn lemma_commit_asks(
    g: Ground,
    l0: Seq<Op>,
    fps: Seq<FastModel>,
    events: Seq<(u16, FdbEntry)>,
    i: int,
    k: int,
    s: SyncerModel,
    log: Seq<Op>,
    s2: SyncerModel,
    log2: Seq<Op>,
    urgent: bool,
) -> (r: (At, At))
    requires
        batch_holds(g, l0, s, log),
        all_placed(g.t, fps),
        0 <= k < fps.len(),
        0 <= i < events.len(),
        events[i].0 == RTM_NEWNEIGH,
        offers(g.t, s.carried_wire, fps[k], events[i].1, false),
        batch_committed(g.t, fps, events, s, log, s2, log2, urgent),
    ensures
        burst_taken(
            g.t,
            fps[k].dev,
            fps[k].anat.dev,
            events[i].1.mac,
            log,
            log2,
            r.0,
            r.1,
        ),
{
    let all = offered(g.t, s.carried_wire, fps, events, false);
    let s1 = doubted(g.t, events, s);
    let m = events[i].1.mac;
    let dev = fps[k].dev;
    let j = lemma_is_offered(g.t, s.carried_wire, fps, events, false, i, k);
    lemma_learnt_of(all, j);
    let (devs, ats) = choose|devs: Seq<Seq<char>>, ats: Seq<At>|
        {
            &&& lists_devs(devs, all)
            &&& #[trigger] bursts_registered(g.t, fps, all, devs, ats)
            &&& ats[0] == (At { s: s1, log })
            &&& ats.last() == (At { s: s2, log: log2 })
        };
    assert(all[j].0 == dev);
    assert(offered_to(all, dev));
    assert(devs.contains(dev));
    let q = choose|q: int| 0 <= q < devs.len() && devs[q] == dev;
    assert(is_placed(g.t, fps[k]));
    lemma_pair_of(g.t, fps, dev);
    let f = pair_of(fps, devs[q])->0;
    assert(f.anat.dev == fps[k].anat.dev);
    lemma_bursts_registered(g, l0, fps, all, devs, ats, q);
    let (a, b) = (ats[q], ats[q + 1]);
    assert(burst_registered(g.t, f, learns_of(all, dev), a.s, a.log, b.s, b.log));
    lemma_burst_asks(g, l0, f, learns_of(all, dev), m, a.s, a.log, b.s, b.log);
    lemma_bursts_registered(g, l0, fps, all, devs, ats, q + 1);
    lemma_rest_grew(g, l0, fps, all, devs, ats, q, devs.len() as int);
    lemma_rest_grew(g, l0, fps, all, devs, ats, q, q + 1);
    lemma_rest_grew(g, l0, fps, all, devs, ats, q + 1, devs.len() as int);
    assert(ats[devs.len() as int] == ats.last());
    (a, b)
}

proof fn lemma_rest_grew(
    g: Ground,
    l0: Seq<Op>,
    fps: Seq<FastModel>,
    all: Seq<OfferModel>,
    devs: Seq<Seq<char>>,
    ats: Seq<At>,
    a: int,
    b: int,
)
    requires
        all_placed(g.t, fps),
        bursts_registered(g.t, fps, all, devs, ats),
        0 <= a <= b <= devs.len(),
        batch_holds(g, l0, ats[0].s, ats[0].log),
    ensures
        grew(ats[a].log, ats[b].log),
    decreases b - a,
{
    lemma_grew_same(ats[a].log);
    if a < b {
        lemma_rest_grew(g, l0, fps, all, devs, ats, a, b - 1);
        lemma_bursts_registered(g, l0, fps, all, devs, ats, b - 1);
        let d = devs[b - 1];
        lemma_pair_of(g.t, fps, d);
        let f = pair_of(fps, d)->0;
        crate::sync::fast_laws::lemma_burst_registered(
            g,
            l0,
            f,
            all,
            ats[b - 1].s,
            ats[b - 1].log,
            ats[b].s,
            ats[b].log,
        );
        lemma_grew_trans(ats[a].log, ats[b - 1].log, ats[b].log);
    }
}

proof fn lemma_reflection_seen(
    g: Ground,
    l0: Seq<Op>,
    f: FastModel,
    s: SyncerModel,
    log: Seq<Op>,
    s2: SyncerModel,
    log2: Seq<Op>,
    urgent: bool,
    m: Mac,
) -> (k: int)
    requires
        batch_holds(g, l0, s, log),
        is_placed(g.t, f),
        reflection_answered(g.t, f, s, log, s2, log2, urgent),
        f.reflected.contains(m),
    ensures
        log.len() < k <= log2.len(),
        just_seen(log2, k, f.dev),
        owned_in(replay(g.dir, since(l0, log2.take(k))), f.dev).contains(m) ==> asked_out(
            log2.take(k),
            log2,
            f.anat.dev,
            m,
        ),
{
    assert(f.reflected != Set::<Mac>::empty());
    let (b1, l1) = choose|b1: BookModel, l1: Seq<Op>| #[trigger]
        note_looked(s.book, log, f.dev, b1, l1) && if owned_in(b1.dir, f.dev).disjoint(
            f.reflected,
        ) {
            s2 == s.with_book(b1) && log2 == l1 && !urgent
        } else {
            reflection_found(g.t, f, b1, s, l1, s2, log2, urgent)
        };
    let s1 = s.with_book(b1);
    lemma_filework_looked(s.book, log, f.dev, b1, l1);
    lemma_holds_files(g, l0, s, log, s1, l1);
    lemma_look_seen(s.book, log, f.dev, b1, l1);
    if owned_in(b1.dir, f.dev).disjoint(f.reflected) {
        let k = l1.len() as int;
        assert(log2.take(k) =~= l1);
        assert(!owned_in(b1.dir, f.dev).contains(m));
        k
    } else {
        let (b2, l2) = choose|b2: BookModel, l2: Seq<Op>| #[trigger]
            note_looked(b1, l1, f.dev, b2, l2) && reflected_out(
                g.t,
                f,
                f.reflected.intersect(owned_in(b2.dir, f.dev)),
                s.with_book(b2),
                l2,
                s2,
                log2,
                urgent,
            );
        let sb = s.with_book(b2);
        lemma_filework_looked(b1, l1, f.dev, b2, l2);
        lemma_holds_files(g, l0, s1, l1, sb, l2);
        lemma_look_seen(b1, l1, f.dev, b2, l2);
        let ours = f.reflected.intersect(owned_in(b2.dir, f.dev));
        crate::sync::fast_laws::lemma_reflected_out(g, l0, f, ours, sb, l2, s2, log2, urgent);
        let k = l2.len() as int;
        assert(log2.take(k) =~= l2);
        assert(l2[k - 1] == log2[k - 1]);
        if k >= 3 {
            assert(l2[k - 3] == log2[k - 3]);
        }
        if owned_in(b2.dir, f.dev).contains(m) {
            reflected_addresses_are_taken_out(g.t, f, ours, sb, l2, s2, log2, urgent, m);
        }
        k
    }
}

pub(crate) proof fn lemma_look_seen(
    b: BookModel,
    log: Seq<Op>,
    dev: Seq<char>,
    b2: BookModel,
    log2: Seq<Op>,
)
    requires
        note_looked(b, log, dev, b2, log2),
    ensures
        log.len() < log2.len(),
        just_seen(log2, log2.len() as int, dev),
{
    let ops = since(log, log2);
    assert(log2[log.len() as int] == ops[0]);
    if ops.len() == 5 {
        assert(log2[log.len() as int + 2] == ops[2]);
    }
}

proof fn lemma_reflections_grew(
    g: Ground,
    l0: Seq<Op>,
    fps: Seq<FastModel>,
    ats: Seq<At>,
    urgents: Seq<bool>,
    a: int,
    b: int,
)
    requires
        all_placed(g.t, fps),
        reflections_answered(g.t, fps, ats, urgents),
        0 <= a <= b <= fps.len(),
        batch_holds(g, l0, ats[0].s, ats[0].log),
    ensures
        grew(ats[a].log, ats[b].log),
    decreases b - a,
{
    lemma_grew_same(ats[a].log);
    if a < b {
        lemma_reflections_grew(g, l0, fps, ats, urgents, a, b - 1);
        lemma_reflections_answered(g, l0, fps, ats, urgents, b - 1);
        let f = fps[b - 1];
        crate::sync::fast_laws::lemma_reflection_answered(
            g,
            l0,
            f,
            ats[b - 1].s,
            ats[b - 1].log,
            ats[b].s,
            ats[b].log,
            urgents[b - 1],
        );
        lemma_grew_trans(ats[a].log, ats[b - 1].log, ats[b].log);
    }
}

proof fn lemma_all_seen(
    g: Ground,
    l0: Seq<Op>,
    fps: Seq<FastModel>,
    s: SyncerModel,
    log: Seq<Op>,
    s2: SyncerModel,
    log2: Seq<Op>,
    urgent: bool,
    q: int,
    m: Mac,
) -> (k: int)
    requires
        all_placed(g.t, fps),
        batch_holds(g, l0, s, log),
        all_reflected(g.t, fps, s, log, s2, log2, urgent),
        0 <= q < fps.len(),
        fps[q].reflected.contains(m),
    ensures
        log.len() < k <= log2.len(),
        just_seen(log2, k, fps[q].dev),
        owned_in(replay(g.dir, since(l0, log2.take(k))), fps[q].dev).contains(m) ==> asked_out(
            log2.take(k),
            log2,
            fps[q].anat.dev,
            m,
        ),
{
    let (ats, urgents) = choose|ats: Seq<At>, urgents: Seq<bool>|
        {
            &&& #[trigger] reflections_answered(g.t, fps, ats, urgents)
            &&& ats[0] == (At { s, log })
            &&& ats.last() == (At { s: s2, log: log2 })
            &&& urgent == exists|i: int| 0 <= i < urgents.len() && #[trigger] urgents[i]
        };
    let n = fps.len() as int;
    lemma_reflections_answered(g, l0, fps, ats, urgents, q);
    lemma_reflections_grew(g, l0, fps, ats, urgents, 0, q);
    lemma_reflections_grew(g, l0, fps, ats, urgents, q + 1, n);
    assert(ats.last() == ats[n]);
    let f = fps[q];
    let (a, b) = (ats[q], ats[q + 1]);
    assert(is_placed(g.t, f));
    let k = lemma_reflection_seen(g, l0, f, a.s, a.log, b.s, b.log, urgents[q], m);
    lemma_seen_later(b.log, log2, k, f.dev, f.anat.dev, m);
    k
}

pub(crate) proof fn lemma_seen_later(
    a: Seq<Op>,
    b: Seq<Op>,
    k: int,
    dev: Seq<char>,
    index: u32,
    m: Mac,
)
    requires
        grew(a, b),
        0 <= k <= a.len(),
    ensures
        b.take(k) == a.take(k),
        just_seen(a, k, dev) ==> just_seen(b, k, dev),
        asked_out(a.take(k), a, index, m) ==> asked_out(b.take(k), b, index, m),
{
    assert(b.take(a.len() as int) == a);
    assert forall|i: int| 0 <= i < a.len() implies #[trigger] a[i] == b[i] by {
        assert(b.take(a.len() as int)[i] == b[i]);
    }
    assert(b.take(k) =~= a.take(k));
    if asked_out(a.take(k), a, index, m) {
        let j = choose|j: int|
            k <= j < a.len() && ((#[trigger] a[j]) matches Op::Card {
                ifindex,
                mac,
                add: false,
                ..
            } && ifindex == index && mac == m);
        assert(b[j] == a[j]);
    }
}

/// What a batch was answered with, opened up as far as the driver's first answer.
proof fn lemma_answered_first(
    t: TopologyModel,
    events: Seq<(u16, FdbEntry)>,
    s: SyncerModel,
    log: Seq<Op>,
    s2: SyncerModel,
    log2: Seq<Op>,
    u: Urgency,
) -> (r: (At, bool, Urgency))
    requires
        fast_applied(t, events, s, log, s2, log2, Ok(u)),
        !s.dry_run,
        has_kind(events, RTM_NEWNEIGH),
    ensures
        learns_worked(
            t,
            events,
            r.2,
            live_functions(t, pair_devs(s.pairs)),
            r.1,
            r.0.s,
            r.0.log,
            s2,
            log2,
            Ok(u),
        ),
        r.2 == base_urgency(events),
        r.0.s.disputed == s.disputed,
        r.0.s.pairs == s.pairs,
        r.0.s.exclude == s.exclude,
        r.0.s.carried_wire == s.carried_wire,
        r.0.s.carried == s.carried,
        batch_holds((Ground { t, dir: s.book.dir, quiet: kept_quiet(t, s) }), log, r.0.s, r.0.log),
        removals_only(since(log, r.0.log)),
        grew(log, r.0.log),
        if r.1 {
            !s.vf_stale && r.0.s.carried_vf == s.carried_vf
        } else {
            r.0.log.len() > log.len() && (r.0.log.last() matches Op::VfMacs { answer: Ok(v), .. }
                && r.0.s.vf_answer() == v)
        },
{
    let g = Ground { t, dir: s.book.dir, quiet: kept_quiet(t, s) };
    let r = Ok::<Urgency, Errno>(u);
    lemma_sound_start(g, log);
    lemma_grew_same(log);
    let now = choose|now: Moment|
        #![trigger silences_dated(t, events, s, now.boot_millis)]
        learns_answered(
            t,
            events,
            base_urgency(events),
            silences_dated(t, events, s, now.boot_millis),
            timed(events, log, now),
            s2,
            log2,
            r,
        );
    let sd = silences_dated(t, events, s, now.boot_millis);
    let lc = timed(events, log, now);
    if has_kind(events, RTM_DELNEIGH) {
        lemma_filework_one(s.book.dir, log, lc.last());
    } else {
        lemma_filework_same(s.book.dir, log);
    }
    lemma_holds_files(g, log, s, log, sd, lc);
    let pfs = live_functions(t, pair_devs(s.pairs));
    let carried = sd.vf_usable(pfs);
    let base = base_urgency(events);
    let (s1, l1, failed) = choose|s1: SyncerModel, l1: Seq<Op>, failed: Option<Errno>|
        {
            &&& #[trigger] answer_first(sd, lc, pfs, s1, l1, failed)
            &&& match failed {
                Some(e) => r == Err::<Urgency, Errno>(e) && s2 == s1 && log2 == l1,
                None => learns_worked(t, events, base, pfs, carried, s1, l1, s2, log2, r),
            }
        };
    lemma_grew_same(lc);
    if !carried {
        lemma_holds_ask(g, log, sd, lc, s1, l1.last());
    }
    lemma_grew_trans(log, lc, l1);
    (At { s: s1, log: l1 }, carried, base)
}

/// In a batch every uplink lets go of what is on its wire: an address that was
/// learnt on a pair's own port is asked out of that pair's card in that very
/// batch, if it is on the pair's note when the batch looks.
pub proof fn every_uplink_lets_go_of_its_wire(
    t: TopologyModel,
    events: Seq<(u16, FdbEntry)>,
    s: SyncerModel,
    log: Seq<Op>,
    s2: SyncerModel,
    log2: Seq<Op>,
    u: Urgency,
    i: int,
    anat: AnatomyModel,
    m: Mac,
)
    requires
        fast_applied(t, events, s, log, s2, log2, Ok(u)),
        !s.dry_run,
        0 <= i < s.pairs.len(),
        place_of(t, s.pairs[i]) == Some(anat),
        arrived_on(events, anat.port, m),
    ensures
        exists|k: int|
            log.len() < k <= log2.len() && #[trigger] just_seen(log2, k, s.pairs[i].dev) && (
            owned_in(replay(s.book.dir, since(log, log2.take(k))), s.pairs[i].dev).contains(m)
                ==> asked_out(log2.take(k), log2, anat.dev, m)),
{
    let g = Ground { t, dir: s.book.dir, quiet: kept_quiet(t, s) };
    let e = choose|e: int|
        0 <= e < events.len() && (#[trigger] events[e]).0 == RTM_NEWNEIGH && events[e].1.state
            & 0x80 == 0 && events[e].1.flags & 0x02 == 0 && m[0] & 1 == 0 && events[e].1.ifindex
            == anat.port && events[e].1.mac == m;
    assert(has_kind(events, RTM_NEWNEIGH));
    let (at, carried, base) = lemma_answered_first(t, events, s, log, s2, log2, u);
    let (s1, l1) = (at.s, at.log);
    let pfs = live_functions(t, pair_devs(s.pairs));
    let fps = fast_list(t, s1.exclude, s1.vf_answer(), carried, events, s1.pairs);
    let (sr, lr, ur) = choose|sr: SyncerModel, lr: Seq<Op>, ur: bool|
        {
            &&& #[trigger] all_reflected(t, fps, s1, l1, sr, lr, ur)
            &&& batch_grown(
                t,
                pfs,
                carried,
                fps,
                events,
                urgency_of(base, ur),
                sr,
                lr,
                s2,
                log2,
                Ok(u),
            )
        };
    let q = lemma_in_list(t, s1.exclude, s1.vf_answer(), carried, events, s1.pairs, i, anat);
    lemma_list_is_from(t, s1.exclude, s1.vf_answer(), carried, events, s1.pairs);
    lemma_arrived(events, anat.port, m);
    let k = lemma_all_seen(g, log, fps, s1, l1, sr, lr, ur, q, m);
    lemma_all_reflected(g, log, fps, s1, l1, sr, lr, ur);
    lemma_removals_trans(log, l1, lr);
    lemma_grown_grew(
        g,
        log,
        pfs,
        carried,
        fps,
        events,
        urgency_of(base, ur),
        s,
        s1,
        sr,
        lr,
        s2,
        log2,
        u,
    );
    lemma_seen_later(lr, log2, k, s.pairs[i].dev, anat.dev, m);
    assert(just_seen(log2, k, s.pairs[i].dev));
}

proof fn lemma_grown_grew(
    g: Ground,
    l0: Seq<Op>,
    pfs: Seq<u32>,
    carried: bool,
    fps: Seq<FastModel>,
    events: Seq<(u16, FdbEntry)>,
    base: Urgency,
    s0: SyncerModel,
    s1: SyncerModel,
    s: SyncerModel,
    log: Seq<Op>,
    s2: SyncerModel,
    log2: Seq<Op>,
    u: Urgency,
)
    requires
        batch_grown(g.t, pfs, carried, fps, events, base, s, log, s2, log2, Ok(u)),
        fps == fast_list(g.t, s1.exclude, s1.vf_answer(), carried, events, s1.pairs),
        s1.pairs == s0.pairs,
        s1.exclude == s0.exclude,
        s1.carried == s0.carried,
        same_setup(s1, s),
        held_within(s1, s),
        batch_holds(g, l0, s, log),
        removals_only(since(l0, log)),
    ensures
        grew(log, log2),
{
    let t = g.t;
    let r = Ok::<Urgency, Errno>(u);
    lemma_list_is_from(t, s1.exclude, s1.vf_answer(), carried, events, s1.pairs);
    if !carried {
        let urgent = choose|urgent: bool| #[trigger]
            batch_committed(t, fps, events, s, log, s2, log2, urgent) && r == Ok::<
                Urgency,
                Errno,
            >(urgency_of(base, urgent));
        lemma_batch_committed(g, l0, fps, events, s, log, s2, log2, urgent);
    } else {
        let (sg, lg, fg) = choose|sg: SyncerModel, lg: Seq<Op>, fg: Option<Errno>|
            {
                &&& #[trigger] growth_settled(t, pfs, fps, events, s, log, sg, lg, fg)
                &&& match fg {
                    Some(e) => r == Err::<Urgency, Errno>(e) && s2 == sg && log2 == lg,
                    None => exists|urgent: bool| #[trigger]
                        batch_committed(
                            t,
                            reskipped(t, sg.exclude, sg.vf_answer(), fps),
                            events,
                            sg,
                            lg,
                            s2,
                            log2,
                            urgent,
                        ) && r == Ok::<Urgency, Errno>(urgency_of(base, urgent)),
                }
            };
        lemma_grown_carried(g, l0, pfs, fps, events, s0, s, log, sg, lg, fg);
        let again = reskipped(t, sg.exclude, sg.vf_answer(), fps);
        let urgent = choose|urgent: bool| #[trigger]
            batch_committed(t, again, events, sg, lg, s2, log2, urgent) && r == Ok::<
                Urgency,
                Errno,
            >(urgency_of(base, urgent));
        lemma_reskipped_is_from(
            t,
            s1.exclude,
            s1.vf_answer(),
            true,
            sg.vf_answer(),
            events,
            s1.pairs,
        );
        lemma_batch_committed(g, l0, again, events, sg, lg, s2, log2, urgent);
        lemma_grew_trans(log, lg, log2);
    }
}

proof fn lemma_wires_out(
    t: TopologyModel,
    f: FastModel,
    ours: Set<Mac>,
    s: SyncerModel,
    log: Seq<Op>,
    s2: SyncerModel,
    log2: Seq<Op>,
    urgent: bool,
    dev: Seq<char>,
    m: Mac,
)
    requires
        reflected_out(t, f, ours, s, log, s2, log2, urgent),
        on_wire(s2.carried_wire, dev, m),
    ensures
        on_wire(s.carried_wire, dev, m) || (f.dev == dev && ours.contains(m)),
{
    let (v, b1, l1, o) = choose|v: Seq<Mac>, b1: BookModel, l1: Seq<Op>, o: OutcomeModel|
        {
            &&& lists(v, ours)
            &&& #[trigger] taken_out(s.book, log, f.dev, f.anat.dev, v, b1, l1, o, Why::Wire)
            &&& urgent == (o.done.len() > 0 || o.failed.len() > 0)
            &&& reflection_remembered(t, f.dev, v, o, s.with_book(b1), l1, s2, log2)
        };
    if v.len() > 0 {
        let (bl, ll, lm, l2) = choose|bl: BookModel, ll: Seq<Op>, l1: Seq<Op>, l2: Seq<Op>|
            {
                &&& #[trigger] lock_asked(s.book, log, f.dev, bl, ll)
                &&& grew(ll, l1)
                &&& sets_all(since(ll, l1), f.anat.dev, v, false)
                &&& o == outcome_of(since(ll, l1))
                &&& #[trigger] note_forgets(
                    outcome_said(bl, f.dev, o, Why::Wire),
                    l1,
                    f.dev,
                    o.settled,
                    b1,
                    l2,
                )
            };
        lemma_answered(since(ll, lm), f.anat.dev, v, false);
        if o.done.contains(m) {
            assert(v.contains(m));
            assert(v.to_set().contains(m));
        }
        assert(o.done.to_set().contains(m) <==> o.done.contains(m));
    }
}

proof fn lemma_wires(
    g: Ground,
    fps: Seq<FastModel>,
    ats: Seq<At>,
    urgents: Seq<bool>,
    n: int,
    dev: Seq<char>,
    m: Mac,
)
    requires
        reflections_answered(g.t, fps, ats, urgents),
        0 <= n <= fps.len(),
        on_wire(ats[n].s.carried_wire, dev, m),
        forall|q: int|
            0 <= q < fps.len() && (#[trigger] fps[q]).dev == dev ==> !fps[q].reflected.contains(m),
    ensures
        on_wire(ats[0].s.carried_wire, dev, m),
    decreases n,
{
    if n > 0 {
        let f = fps[n - 1];
        let (a, b) = (ats[n - 1], ats[n]);
        assert(reflection_answered(g.t, f, a.s, a.log, b.s, b.log, urgents[n - 1]));
        if f.reflected != Set::<Mac>::empty() {
            let (b1, l1) = choose|b1: BookModel, l1: Seq<Op>| #[trigger]
                note_looked(a.s.book, a.log, f.dev, b1, l1) && if owned_in(
                    b1.dir,
                    f.dev,
                ).disjoint(f.reflected) {
                    b.s == a.s.with_book(b1) && b.log == l1 && !urgents[n - 1]
                } else {
                    reflection_found(g.t, f, b1, a.s, l1, b.s, b.log, urgents[n - 1])
                };
            if !owned_in(b1.dir, f.dev).disjoint(f.reflected) {
                let (b2, l2) = choose|b2: BookModel, l2: Seq<Op>| #[trigger]
                    note_looked(b1, l1, f.dev, b2, l2) && reflected_out(
                        g.t,
                        f,
                        f.reflected.intersect(owned_in(b2.dir, f.dev)),
                        a.s.with_book(b2),
                        l2,
                        b.s,
                        b.log,
                        urgents[n - 1],
                    );
                lemma_wires_out(
                    g.t,
                    f,
                    f.reflected.intersect(owned_in(b2.dir, f.dev)),
                    a.s.with_book(b2),
                    l2,
                    b.s,
                    b.log,
                    urgents[n - 1],
                    dev,
                    m,
                );
            }
        }
        lemma_wires(g, fps, ats, urgents, n - 1, dev, m);
    }
}

/// A pair's place does not depend on which pair of its device is asked.
proof fn lemma_one_place(t: TopologyModel, a: PairModel, b: PairModel)
    requires
        place_of(t, a) is Some,
        place_of(t, b) is Some,
        a.dev == b.dev,
    ensures
        place_of(t, a) == place_of(t, b),
{
}

proof fn lemma_named_parts(
    vf: Seq<(u32, Mac)>,
    ask: Seq<u32>,
    v: Seq<(u32, Mac)>,
    functions: Set<u32>,
    m: Mac,
)
    requires
        driver_names(answer_without(vf, ask) + v, functions, m),
    ensures
        driver_names(vf, functions, m) || driver_names(v, functions, m),
{
    let both = answer_without(vf, ask) + v;
    let i = choose|i: int|
        0 <= i < both.len() && functions.contains((#[trigger] both[i]).0) && both[i].1 == m;
    if i < answer_without(vf, ask).len() {
        assert(answer_without(vf, ask)[i] == both[i]);
        lemma_named_before(vf, ask, functions, m);
    } else {
        assert(v[i - answer_without(vf, ask).len()] == both[i]);
    }
}

proof fn lemma_named_before(
    vf: Seq<(u32, Mac)>,
    ask: Seq<u32>,
    functions: Set<u32>,
    m: Mac,
)
    requires
        driver_names(answer_without(vf, ask), functions, m),
    ensures
        driver_names(vf, functions, m),
    decreases vf.len(),
{
    if vf.len() > 0 {
        let w = answer_without(vf, ask);
        let h = answer_without(vf.drop_last(), ask);
        let i = choose|i: int|
            0 <= i < w.len() && functions.contains((#[trigger] w[i]).0) && w[i].1 == m;
        if i < h.len() {
            assert(h[i] == w[i]);
            lemma_named_before(vf.drop_last(), ask, functions, m);
            let j = choose|j: int|
                0 <= j < vf.drop_last().len() && functions.contains(
                    (#[trigger] vf.drop_last()[j]).0,
                ) && vf.drop_last()[j].1 == m;
            assert(vf[j] == vf.drop_last()[j]);
        } else {
            assert(vf[vf.len() - 1] == w[i]);
        }
    }
}

/// In a batch every uplink of a bridge gets what was learnt behind it: an
/// admissible address is asked of the card of each pair that stands under its
/// bridge, unless that pair's note would not take it. Admissible is what can
/// stand in a filter, was learnt on a port that the picture knows, behind the
/// pair's bridge, is not kept out of the pair's filter by the operator, the
/// uplink's side or the driver, and was not seen on the pair's wire, by the last
/// pass or in this batch. Such a batch is worth a pass at once.
pub proof fn every_uplink_gets_what_is_behind_its_bridge(
    t: TopologyModel,
    events: Seq<(u16, FdbEntry)>,
    s: SyncerModel,
    log: Seq<Op>,
    s2: SyncerModel,
    log2: Seq<Op>,
    u: Urgency,
    i: int,
    anat: AnatomyModel,
    j: int,
) -> (r: (At, At))
    requires
        fast_applied(t, events, s, log, s2, log2, Ok(u)),
        !s.dry_run,
        0 <= i < s.pairs.len(),
        place_of(t, s.pairs[i]) == Some(anat),
        0 <= j < events.len(),
        events[j].0 == RTM_NEWNEIGH,
        is_learn(events[j].1),
        can_stand(events[j].1.mac),
        t.links.contains_key(events[j].1.ifindex),
        events[j].1.master matches Some(master) && is_behind(
            t.links,
            anat.bridge,
            anat.port,
            events[j].1.ifindex,
            master,
        ),
        !kept_out(s.exclude, t.links, anat, Seq::empty(), events[j].1.mac),
        never_named(s, log, log2, anat.functions, events[j].1.mac),
        s.carried_wire.contains_key(s.pairs[i].dev) ==> !s.carried_wire[s.pairs[i].dev].contains(
            events[j].1.mac,
        ),
        !arrived_on(events, anat.port, events[j].1.mac),
    ensures
        burst_taken(t, s.pairs[i].dev, anat.dev, events[j].1.mac, log, log2, r.0, r.1),
        u == Urgency::Now,
{
    let g = Ground { t, dir: s.book.dir, quiet: kept_quiet(t, s) };
    let e = events[j].1;
    let m = e.mac;
    let dev = s.pairs[i].dev;
    assert(has_kind(events, RTM_NEWNEIGH));
    let (at, carried, base) = lemma_answered_first(t, events, s, log, s2, log2, u);
    let (s1, l1) = (at.s, at.log);
    let pfs = live_functions(t, pair_devs(s.pairs));
    let fps = fast_list(t, s1.exclude, s1.vf_answer(), carried, events, s1.pairs);
    let (sr, lr, ur) = choose|sr: SyncerModel, lr: Seq<Op>, ur: bool|
        {
            &&& #[trigger] all_reflected(t, fps, s1, l1, sr, lr, ur)
            &&& batch_grown(
                t,
                pfs,
                carried,
                fps,
                events,
                urgency_of(base, ur),
                sr,
                lr,
                s2,
                log2,
                Ok(u),
            )
        };
    let q = lemma_in_list(t, s1.exclude, s1.vf_answer(), carried, events, s1.pairs, i, anat);
    lemma_list_is_from(t, s1.exclude, s1.vf_answer(), carried, events, s1.pairs);
    lemma_all_reflected(g, log, fps, s1, l1, sr, lr, ur);
    lemma_removals_trans(log, l1, lr);
    lemma_grown_grew(
        g,
        log,
        pfs,
        carried,
        fps,
        events,
        urgency_of(base, ur),
        s,
        s1,
        sr,
        lr,
        s2,
        log2,
        u,
    );
    lemma_grew_trans(l1, lr, log2);
    lemma_grew_trans(log, l1, lr);
    assert(!on_wire(sr.carried_wire, dev, m)) by {
        lemma_still_off_wire(g, fps, events, s1, l1, sr, lr, ur, s1.pairs, i, anat, m, carried);
    }
    assert(!driver_names(s1.vf_answer(), anat.functions, m)) by {
        if !carried {
            let k = l1.len() - 1;
            assert(log2.take(l1.len() as int)[k] == l1[k]);
            assert(log2[k] == l1.last());
        }
    }
    if !carried {
        let urgent = choose|urgent: bool| #[trigger]
            batch_committed(t, fps, events, sr, lr, s2, log2, urgent) && Ok::<Urgency, Errno>(u)
                == Ok::<Urgency, Errno>(urgency_of(urgency_of(base, ur), urgent));
        lemma_offers(t, s.exclude, s1.vf_answer(), sr.carried_wire, events, fps[q], anat, e);
        let r = lemma_commit_asks(g, log, fps, events, j, q, sr, lr, s2, log2, urgent);
        assert(concerns(t, sr.carried_wire, fps[q], events[j].1));
        lemma_grew_trans(log, lr, r.0.log);
        r
    } else {
        let (sg, lg, fg) = choose|sg: SyncerModel, lg: Seq<Op>, fg: Option<Errno>|
            {
                &&& #[trigger] growth_settled(t, pfs, fps, events, sr, lr, sg, lg, fg)
                &&& match fg {
                    Some(e) => Ok::<Urgency, Errno>(u) == Err::<Urgency, Errno>(e) && s2 == sg
                        && log2 == lg,
                    None => exists|urgent: bool| #[trigger]
                        batch_committed(
                            t,
                            reskipped(t, sg.exclude, sg.vf_answer(), fps),
                            events,
                            sg,
                            lg,
                            s2,
                            log2,
                            urgent,
                        ) && Ok::<Urgency, Errno>(u) == Ok::<Urgency, Errno>(
                            urgency_of(urgency_of(base, ur), urgent),
                        ),
                }
            };
        lemma_grown_carried(g, log, pfs, fps, events, s, sr, lr, sg, lg, fg);
        let again = reskipped(t, sg.exclude, sg.vf_answer(), fps);
        let urgent = choose|urgent: bool| #[trigger]
            batch_committed(t, again, events, sg, lg, s2, log2, urgent) && Ok::<Urgency, Errno>(u)
                == Ok::<Urgency, Errno>(urgency_of(urgency_of(base, ur), urgent));
        lemma_reskipped_is_from(
            t,
            s.exclude,
            s1.vf_answer(),
            true,
            sg.vf_answer(),
            events,
            s.pairs,
        );
        lemma_batch_committed(g, log, again, events, sg, lg, s2, log2, urgent);
        lemma_grew_trans(log, lr, lg);
        if lg.len() > log.len() {
            let k = lg.len() - 1;
            assert(log2.take(lg.len() as int)[k] == lg[k]);
            assert(log2[k] == lg.last());
        }
        lemma_last_unnamed(log, lg, log2, s, anat.functions, m, sr, lr, t, pfs, fps, events, sg);
        let f2 = again[q];
        assert(f2.anat == anat && f2.dev == dev);
        lemma_offers(t, s.exclude, sg.vf_answer(), sg.carried_wire, events, f2, anat, e);
        let r = lemma_commit_asks(g, log, again, events, j, q, sg, lg, s2, log2, urgent);
        assert(concerns(t, sg.carried_wire, again[q], events[j].1));
        lemma_grew_trans(log, lg, r.0.log);
        r
    }
}

proof fn lemma_last_unnamed(
    log: Seq<Op>,
    lg: Seq<Op>,
    log2: Seq<Op>,
    s: SyncerModel,
    functions: Set<u32>,
    m: Mac,
    sr: SyncerModel,
    lr: Seq<Op>,
    t: TopologyModel,
    pfs: Seq<u32>,
    fps: Seq<FastModel>,
    events: Seq<(u16, FdbEntry)>,
    sg: SyncerModel,
)
    requires
        growth_settled(t, pfs, fps, events, sr, lr, sg, lg, None),
        grew(log, lr),
        grew(lr, lg),
        grew(lg, log2),
        never_named(s, log, log2, functions, m),
        !driver_names(sr.vf_answer(), functions, m),
    ensures
        !driver_names(sg.vf_answer(), functions, m),
        sg.exclude == sr.exclude,
        sg.carried_wire == sr.carried_wire,
{
    let (b1, l1, growing, would) = choose|
        b1: BookModel,
        l1: Seq<Op>,
        growing: Seq<Seq<char>>,
        would: Seq<OfferModel>,
    |
        {
            &&& #[trigger] growth_found(
                offered(t, sr.carried_wire, fps, events, true),
                sr,
                lr,
                b1,
                l1,
                growing,
                would,
            )
            &&& #[trigger] answer_refreshed(
                t,
                pfs,
                fps,
                would,
                growing,
                doubted(t, events, sr).with_book(b1),
                l1,
                sg,
                lg,
                None,
            )
        };
    if growing.len() > 0 {
        lemma_growth_found_grew(offered(t, sr.carried_wire, fps, events, true), sr, lr, b1, l1, growing, would);
        let ask = live_functions(t, growing);
        let v = lg.last()->VfMacs_answer->Ok_0;
        let vf = answer_without(sr.vf_answer(), ask) + v;
        assert(sg.vf_answer() == vf);
        let k = lg.len() - 1;
        assert(log2.take(lg.len() as int)[k] == lg[k]);
        assert(log2[k] == lg.last());
        assert(log.len() <= k);
        if driver_names(vf, functions, m) {
            lemma_named_parts(sr.vf_answer(), ask, v, functions, m);
        }
    }
}

proof fn lemma_offers(
    t: TopologyModel,
    exclude: Set<Mac>,
    vf: Seq<(u32, Mac)>,
    wires: Map<Seq<char>, Set<Mac>>,
    events: Seq<(u16, FdbEntry)>,
    f: FastModel,
    anat: AnatomyModel,
    e: FdbEntry,
)
    requires
        f.anat == anat,
        f.skip == excluded(exclude, t.links, anat, vf),
        f.reflected == reflected_on(events, anat.port),
        is_learn(e),
        can_stand(e.mac),
        t.links.contains_key(e.ifindex),
        e.master matches Some(master) && is_behind(
            t.links,
            anat.bridge,
            anat.port,
            e.ifindex,
            master,
        ),
        !kept_out(exclude, t.links, anat, Seq::empty(), e.mac),
        !driver_names(vf, anat.functions, e.mac),
        !on_wire(wires, f.dev, e.mac),
        !arrived_on(events, anat.port, e.mac),
    ensures
        offers(t, wires, f, e, false),
{
    let m = e.mac;
    lemma_bits(e);
    lemma_stands(m);
    lemma_arrived(events, anat.port, m);
    only_the_uplinks_own_side_is_kept_out(exclude, t.links, anat, vf, m);
    assert(!kept_out(exclude, t.links, anat, vf, m));
    a_learn_is_where_its_port_is(t.links, anat.bridge, e.ifindex, e.master->0, anat.port);
}

proof fn lemma_still_off_wire(
    g: Ground,
    fps: Seq<FastModel>,
    events: Seq<(u16, FdbEntry)>,
    s: SyncerModel,
    log: Seq<Op>,
    s2: SyncerModel,
    log2: Seq<Op>,
    urgent: bool,
    pairs: Seq<PairModel>,
    i: int,
    anat: AnatomyModel,
    m: Mac,
    carried: bool,
)
    requires
        all_reflected(g.t, fps, s, log, s2, log2, urgent),
        fps == fast_list(g.t, s.exclude, s.vf_answer(), carried, events, pairs),
        0 <= i < pairs.len(),
        place_of(g.t, pairs[i]) == Some(anat),
        !on_wire(s.carried_wire, pairs[i].dev, m),
        !arrived_on(events, anat.port, m),
    ensures
        !on_wire(s2.carried_wire, pairs[i].dev, m),
{
    let t = g.t;
    let dev = pairs[i].dev;
    let (ats, urgents) = choose|ats: Seq<At>, urgents: Seq<bool>|
        {
            &&& #[trigger] reflections_answered(t, fps, ats, urgents)
            &&& ats[0] == (At { s, log })
            &&& ats.last() == (At { s: s2, log: log2 })
            &&& urgent == exists|i: int| 0 <= i < urgents.len() && #[trigger] urgents[i]
        };
    lemma_list_is_from(t, s.exclude, s.vf_answer(), carried, events, pairs);
    assert forall|q: int|
        0 <= q < fps.len() && (#[trigger] fps[q]).dev == dev implies !fps[q].reflected.contains(
        m,
    ) by {
        let k = choose|k: int|
            0 <= k < pairs.len() && is_from(
                t,
                s.exclude,
                s.vf_answer(),
                events,
                #[trigger] pairs[k],
                fps[q],
            );
        lemma_one_place(t, pairs[k], pairs[i]);
        lemma_arrived(events, anat.port, m);
    }
    if on_wire(s2.carried_wire, dev, m) {
        assert(ats.last() == ats[fps.len() as int]);
        lemma_wires(g, fps, ats, urgents, fps.len() as int, dev, m);
    }
}

proof fn lemma_growth_found_grew(
    offers: Seq<OfferModel>,
    s: SyncerModel,
    log: Seq<Op>,
    b2: BookModel,
    log2: Seq<Op>,
    growing: Seq<Seq<char>>,
    would: Seq<OfferModel>,
)
    requires
        growth_found(offers, s, log, b2, log2, growing, would),
    ensures
        log.len() <= log2.len(),
{
    let (devs, stages, which) = choose|
        devs: Seq<Seq<char>>,
        stages: Seq<Stage>,
        which: Seq<bool>,
    |
        {
            &&& #[trigger] looked_each(devs, stages)
            &&& stages[0] == (Stage { book: s.book, log })
            &&& stages.last() == (Stage { book: b2, log: log2 })
            &&& growing == #[trigger] picked(devs, which)
        };
    lemma_looks_grew(devs, stages, devs.len() as int);
}

proof fn lemma_looks_grew(devs: Seq<Seq<char>>, stages: Seq<Stage>, n: int)
    requires
        looked_each(devs, stages),
        0 <= n <= devs.len(),
    ensures
        stages[0].log.len() <= stages[n].log.len(),
    decreases n,
{
    if n > 0 {
        lemma_looks_grew(devs, stages, n - 1);
        let d = devs[n - 1];
        lemma_filework_looked(
            stages[n - 1].book,
            stages[n - 1].log,
            d,
            stages[n].book,
            stages[n].log,
        );
    }
}

/// Whether a learn has nothing to do with an uplink: it was neither on its port,
/// nor behind its bridge, nor is the address known to be on its wire.
pub open spec fn foreign_to(
    t: TopologyModel,
    wires: Map<Seq<char>, Set<Mac>>,
    dev: Seq<char>,
    anat: AnatomyModel,
    e: FdbEntry,
) -> bool {
    &&& e.ifindex != anat.port
    &&& !(wires.contains_key(dev) && wires[dev].contains(e.mac))
    &&& !(e.master matches Some(master) && is_behind(
        t.links,
        anat.bridge,
        anat.port,
        e.ifindex,
        master,
    ))
}

/// A batch that is somebody else's entirely is no reason to hurry: where no learn
/// of it has to do with any pair that stands under its bridge, all that can be
/// left is to look when convenient, which deletions are a reason for.
pub proof fn somebody_elses_batch_is_no_hurry(
    t: TopologyModel,
    events: Seq<(u16, FdbEntry)>,
    s: SyncerModel,
    log: Seq<Op>,
    s2: SyncerModel,
    log2: Seq<Op>,
    u: Urgency,
)
    requires
        fast_applied(t, events, s, log, s2, log2, Ok(u)),
        !s.dry_run,
        forall|i: int, j: int|
            #![trigger s.pairs[i], events[j]]
            0 <= i < s.pairs.len() && 0 <= j < events.len() && events[j].0 == RTM_NEWNEIGH ==> (
            place_of(t, s.pairs[i]) matches Some(anat) ==> foreign_to(
                t,
                s.carried_wire,
                s.pairs[i].dev,
                anat,
                events[j].1,
            )),
    ensures
        u == if exists|j: int| 0 <= j < events.len() && (#[trigger] events[j]).0 == RTM_DELNEIGH {
            Urgency::WhenConvenient
        } else {
            Urgency::Nothing
        },
{
    if events.len() > 0 && has_kind(events, RTM_NEWNEIGH) {
        let (at, carried, base) = lemma_answered_first(t, events, s, log, s2, log2, u);
        let (s1, l1) = (at.s, at.log);
        let pfs = live_functions(t, pair_devs(s.pairs));
        let fps = fast_list(t, s1.exclude, s1.vf_answer(), carried, events, s1.pairs);
        let (sr, lr, ur) = choose|sr: SyncerModel, lr: Seq<Op>, ur: bool|
            {
                &&& #[trigger] all_reflected(t, fps, s1, l1, sr, lr, ur)
                &&& batch_grown(
                    t,
                    pfs,
                    carried,
                    fps,
                    events,
                    urgency_of(base, ur),
                    sr,
                    lr,
                    s2,
                    log2,
                    Ok(u),
                )
            };
        lemma_list_is_from(t, s1.exclude, s1.vf_answer(), carried, events, s1.pairs);
        assert forall|q: int| 0 <= q < fps.len() implies (#[trigger] fps[q]).reflected == Set::<
            Mac,
        >::empty() by {
            let k = choose|k: int|
                0 <= k < s1.pairs.len() && is_from(
                    t,
                    s1.exclude,
                    s1.vf_answer(),
                    events,
                    #[trigger] s1.pairs[k],
                    fps[q],
                );
            assert forall|m: Mac| !fps[q].reflected.contains(m) by {
                lemma_arrived(events, fps[q].anat.port, m);
                if arrived_on(events, fps[q].anat.port, m) {
                    let e = choose|e: int|
                        0 <= e < events.len() && (#[trigger] events[e]).0 == RTM_NEWNEIGH
                            && events[e].1.state & 0x80 == 0 && events[e].1.flags & 0x02 == 0
                            && m[0] & 1 == 0 && events[e].1.ifindex == fps[q].anat.port
                            && events[e].1.mac == m;
                    assert(foreign_to(
                        t,
                        s.carried_wire,
                        s.pairs[k].dev,
                        fps[q].anat,
                        events[e].1,
                    ));
                }
            }
            assert(fps[q].reflected =~= Set::<Mac>::empty());
        }
        lemma_no_reflection(t, fps, s1, l1, sr, lr, ur);
        if !carried {
            let urgent = choose|urgent: bool| #[trigger]
                batch_committed(t, fps, events, sr, lr, s2, log2, urgent) && Ok::<Urgency, Errno>(
                    u,
                ) == Ok::<Urgency, Errno>(urgency_of(urgency_of(base, ur), urgent));
            lemma_unconcerned(t, s, events, fps, s.pairs, s1.exclude, s1.vf_answer());
        } else {
            let (sg, lg, fg) = choose|sg: SyncerModel, lg: Seq<Op>, fg: Option<Errno>|
                {
                    &&& #[trigger] growth_settled(t, pfs, fps, events, sr, lr, sg, lg, fg)
                    &&& match fg {
                        Some(e) => Ok::<Urgency, Errno>(u) == Err::<Urgency, Errno>(e) && s2 == sg
                            && log2 == lg,
                        None => exists|urgent: bool| #[trigger]
                            batch_committed(
                                t,
                                reskipped(t, sg.exclude, sg.vf_answer(), fps),
                                events,
                                sg,
                                lg,
                                s2,
                                log2,
                                urgent,
                            ) && Ok::<Urgency, Errno>(u) == Ok::<Urgency, Errno>(
                                urgency_of(urgency_of(base, ur), urgent),
                            ),
                    }
                };
            let again = reskipped(t, sg.exclude, sg.vf_answer(), fps);
            let urgent = choose|urgent: bool| #[trigger]
                batch_committed(t, again, events, sg, lg, s2, log2, urgent) && Ok::<Urgency, Errno>(
                    u,
                ) == Ok::<Urgency, Errno>(urgency_of(urgency_of(base, ur), urgent));
            assert(sg.exclude == sr.exclude && sg.carried_wire == sr.carried_wire);
            lemma_reskipped_is_from(
                t,
                s.exclude,
                s1.vf_answer(),
                true,
                sg.vf_answer(),
                events,
                s.pairs,
            );
            lemma_unconcerned(t, s, events, again, s.pairs, s.exclude, sg.vf_answer());
        }
    }
}

proof fn lemma_no_reflection(
    t: TopologyModel,
    fps: Seq<FastModel>,
    s: SyncerModel,
    log: Seq<Op>,
    s2: SyncerModel,
    log2: Seq<Op>,
    urgent: bool,
)
    requires
        all_reflected(t, fps, s, log, s2, log2, urgent),
        forall|q: int| 0 <= q < fps.len() ==> (#[trigger] fps[q]).reflected == Set::<Mac>::empty(),
    ensures
        s2 == s,
        log2 == log,
        !urgent,
{
    let (ats, urgents) = choose|ats: Seq<At>, urgents: Seq<bool>|
        {
            &&& #[trigger] reflections_answered(t, fps, ats, urgents)
            &&& ats[0] == (At { s, log })
            &&& ats.last() == (At { s: s2, log: log2 })
            &&& urgent == exists|i: int| 0 <= i < urgents.len() && #[trigger] urgents[i]
        };
    lemma_no_reflections(t, fps, ats, urgents, fps.len() as int);
}

proof fn lemma_no_reflections(
    t: TopologyModel,
    fps: Seq<FastModel>,
    ats: Seq<At>,
    urgents: Seq<bool>,
    n: int,
)
    requires
        reflections_answered(t, fps, ats, urgents),
        0 <= n <= fps.len(),
        forall|q: int| 0 <= q < fps.len() ==> (#[trigger] fps[q]).reflected == Set::<Mac>::empty(),
    ensures
        ats[n] == ats[0],
        forall|i: int| 0 <= i < n ==> !#[trigger] urgents[i],
    decreases n,
{
    if n > 0 {
        lemma_no_reflections(t, fps, ats, urgents, n - 1);
        assert(fps[n - 1].reflected == Set::<Mac>::empty());
    }
}

proof fn lemma_unconcerned(
    t: TopologyModel,
    s: SyncerModel,
    events: Seq<(u16, FdbEntry)>,
    fps: Seq<FastModel>,
    pairs: Seq<PairModel>,
    exclude: Set<Mac>,
    vf: Seq<(u32, Mac)>,
)
    requires
        all_from(t, exclude, vf, events, pairs, fps),
        forall|i: int, j: int|
            #![trigger pairs[i], events[j]]
            0 <= i < pairs.len() && 0 <= j < events.len() && events[j].0 == RTM_NEWNEIGH ==> (
            place_of(t, pairs[i]) matches Some(anat) ==> foreign_to(
                t,
                s.carried_wire,
                pairs[i].dev,
                anat,
                events[j].1,
            )),
    ensures
        !batch_concerns(t, s.carried_wire, fps, events),
{
    assert forall|i: int, k: int|
        #![trigger events[i], fps[k]]
        0 <= i < events.len() && 0 <= k < fps.len() && events[i].0
            == RTM_NEWNEIGH implies !concerns(t, s.carried_wire, fps[k], events[i].1) by {
        let q = choose|q: int|
            0 <= q < pairs.len() && is_from(t, exclude, vf, events, #[trigger] pairs[q], fps[k]);
        let e = events[i].1;
        let anat = fps[k].anat;
        assert(foreign_to(t, s.carried_wire, pairs[q].dev, anat, e));
        if let Some(master) = e.master {
            a_learn_is_where_its_port_is(t.links, anat.bridge, e.ifindex, master, anat.port);
        }
    }
}

proof fn lemma_keeps_shed_disputed(
    t: TopologyModel,
    dev: Seq<char>,
    index: u32,
    need: nat,
    s: SyncerModel,
    log: Seq<Op>,
    s2: SyncerModel,
    log2: Seq<Op>,
    freed: nat,
)
    requires
        keeps_shed(t, dev, index, need, s, log, s2, log2, freed),
    ensures
        s2.disputed == s.disputed,
{
}

proof fn lemma_burst_disputed(
    t: TopologyModel,
    f: FastModel,
    learnt: Map<Mac, u32>,
    s: SyncerModel,
    log: Seq<Op>,
    s2: SyncerModel,
    log2: Seq<Op>,
)
    requires
        burst_registered(t, f, learnt, s, log, s2, log2),
    ensures
        s2.disputed == s.disputed,
{
    let (now, macs, s1, l1) = choose|now: Moment, macs: Seq<Mac>, s1: SyncerModel, l1: Seq<Op>|
        {
            &&& sorted_list(macs, learnt.dom())
            &&& #[trigger] room_made(
                t,
                f.dev,
                f.anat.dev,
                burst_over(stamped(s, f.dev, learnt, now.boot_millis), f.dev, learnt.dom()),
                burst_fresh(stamped(s, f.dev, learnt, now.boot_millis), f.dev, learnt.dom()),
                stamped(s, f.dev, learnt, now.boot_millis),
                log.push(Op::Clock { reading: now }),
                s1,
                l1,
            )
            &&& #[trigger] burst_written(f.dev, f.anat.dev, macs, s1, l1, s2, log2)
        };
    let sa = stamped(s, f.dev, learnt, now.boot_millis);
    let over = burst_over(sa, f.dev, learnt.dom());
    if over > 0 {
        let fresh = burst_fresh(sa, f.dev, learnt.dom());
        let (sk, freed) = choose|sk: SyncerModel, freed: nat|
            {
                &&& #[trigger] keeps_shed(
                    t,
                    f.dev,
                    f.anat.dev,
                    over,
                    sa,
                    log.push(Op::Clock { reading: now }),
                    sk,
                    l1,
                    freed,
                )
                &&& s1 == if freed < over {
                    tight_said(sk, f.dev, fresh)
                } else {
                    sk
                }
            };
        lemma_keeps_shed_disputed(
            t,
            f.dev,
            f.anat.dev,
            over,
            sa,
            log.push(Op::Clock { reading: now }),
            sk,
            l1,
            freed,
        );
    }
}

proof fn lemma_bursts_disputed(
    t: TopologyModel,
    fps: Seq<FastModel>,
    all: Seq<OfferModel>,
    devs: Seq<Seq<char>>,
    ats: Seq<At>,
    n: int,
)
    requires
        bursts_registered(t, fps, all, devs, ats),
        0 <= n <= devs.len(),
    ensures
        ats[n].s.disputed == ats[0].s.disputed,
    decreases n,
{
    if n > 0 {
        lemma_bursts_disputed(t, fps, all, devs, ats, n - 1);
        let d = devs[n - 1];
        let f = pair_of(fps, d)->0;
        lemma_burst_disputed(
            t,
            f,
            learns_of(all, d),
            ats[n - 1].s,
            ats[n - 1].log,
            ats[n].s,
            ats[n].log,
        );
    }
}

proof fn lemma_committed_disputed(
    t: TopologyModel,
    fps: Seq<FastModel>,
    events: Seq<(u16, FdbEntry)>,
    s: SyncerModel,
    log: Seq<Op>,
    s2: SyncerModel,
    log2: Seq<Op>,
    urgent: bool,
)
    requires
        batch_committed(t, fps, events, s, log, s2, log2, urgent),
    ensures
        s2.disputed == (s.disputed || batch_disputes(t, events)),
{
    let all = offered(t, s.carried_wire, fps, events, false);
    let s1 = doubted(t, events, s);
    let (devs, ats) = choose|devs: Seq<Seq<char>>, ats: Seq<At>|
        {
            &&& lists_devs(devs, all)
            &&& #[trigger] bursts_registered(t, fps, all, devs, ats)
            &&& ats[0] == (At { s: s1, log })
            &&& ats.last() == (At { s: s2, log: log2 })
        };
    lemma_bursts_disputed(t, fps, all, devs, ats, devs.len() as int);
}

proof fn lemma_reflections_disputed(
    t: TopologyModel,
    fps: Seq<FastModel>,
    ats: Seq<At>,
    urgents: Seq<bool>,
    n: int,
)
    requires
        reflections_answered(t, fps, ats, urgents),
        0 <= n <= fps.len(),
    ensures
        ats[n].s.disputed == ats[0].s.disputed,
    decreases n,
{
    if n > 0 {
        lemma_reflections_disputed(t, fps, ats, urgents, n - 1);
        let f = fps[n - 1];
        assert(reflection_answered(
            t,
            f,
            ats[n - 1].s,
            ats[n - 1].log,
            ats[n].s,
            ats[n].log,
            urgents[n - 1],
        ));
    }
}

/// Whether a learn contradicts the picture: its port is not in it, or stands
/// there under another master.
pub open spec fn contradicts(t: TopologyModel, e: FdbEntry) -> bool {
    &&& is_learn(e)
    &&& can_stand(e.mac)
    &&& !(t.links.contains_key(e.ifindex) && t.links[e.ifindex].master == e.master)
}

/// A batch with a learn that contradicts the picture casts doubt on it, and no
/// other batch does.
pub proof fn a_contradiction_disputes_the_picture(
    t: TopologyModel,
    events: Seq<(u16, FdbEntry)>,
    s: SyncerModel,
    log: Seq<Op>,
    s2: SyncerModel,
    log2: Seq<Op>,
    u: Urgency,
)
    requires
        fast_applied(t, events, s, log, s2, log2, Ok(u)),
        !s.dry_run,
    ensures
        s2.disputed <==> s.disputed || exists|j: int|
            0 <= j < events.len() && (#[trigger] events[j]).0 == RTM_NEWNEIGH && contradicts(
                t,
                events[j].1,
            ),
{
    assert(batch_disputes(t, events) <==> exists|j: int|
        0 <= j < events.len() && (#[trigger] events[j]).0 == RTM_NEWNEIGH && contradicts(
            t,
            events[j].1,
        )) by {
        assert forall|j: int| 0 <= j < events.len() implies disputes(t, (#[trigger] events[j]).1)
            == contradicts(t, events[j].1) by {
            lemma_bits(events[j].1);
            lemma_stands(events[j].1.mac);
        }
    }
    if events.len() > 0 && has_kind(events, RTM_NEWNEIGH) {
        let (at, carried, base) = lemma_answered_first(t, events, s, log, s2, log2, u);
        let (s1, l1) = (at.s, at.log);
        let pfs = live_functions(t, pair_devs(s.pairs));
        let fps = fast_list(t, s1.exclude, s1.vf_answer(), carried, events, s1.pairs);
        let (sr, lr, ur) = choose|sr: SyncerModel, lr: Seq<Op>, ur: bool|
            {
                &&& #[trigger] all_reflected(t, fps, s1, l1, sr, lr, ur)
                &&& batch_grown(
                    t,
                    pfs,
                    carried,
                    fps,
                    events,
                    urgency_of(base, ur),
                    sr,
                    lr,
                    s2,
                    log2,
                    Ok(u),
                )
            };
        let (ats, urgents) = choose|ats: Seq<At>, urgents: Seq<bool>|
            {
                &&& #[trigger] reflections_answered(t, fps, ats, urgents)
                &&& ats[0] == (At { s: s1, log: l1 })
                &&& ats.last() == (At { s: sr, log: lr })
            };
        lemma_reflections_disputed(t, fps, ats, urgents, fps.len() as int);
        if !carried {
            let urgent = choose|urgent: bool| #[trigger]
                batch_committed(t, fps, events, sr, lr, s2, log2, urgent);
            lemma_committed_disputed(t, fps, events, sr, lr, s2, log2, urgent);
        } else {
            let (sg, lg, fg) = choose|sg: SyncerModel, lg: Seq<Op>, fg: Option<Errno>|
                {
                    &&& #[trigger] growth_settled(t, pfs, fps, events, sr, lr, sg, lg, fg)
                    &&& match fg {
                        Some(e) => Ok::<Urgency, Errno>(u) == Err::<Urgency, Errno>(e) && s2 == sg
                            && log2 == lg,
                        None => exists|urgent: bool| #[trigger]
                            batch_committed(
                                t,
                                reskipped(t, sg.exclude, sg.vf_answer(), fps),
                                events,
                                sg,
                                lg,
                                s2,
                                log2,
                                urgent,
                            ) && Ok::<Urgency, Errno>(u) == Ok::<Urgency, Errno>(
                                urgency_of(urgency_of(base, ur), urgent),
                            ),
                    }
                };
            let again = reskipped(t, sg.exclude, sg.vf_answer(), fps);
            let urgent = choose|urgent: bool| #[trigger]
                batch_committed(t, again, events, sg, lg, s2, log2, urgent);
            assert(sg.disputed == (sr.disputed || batch_disputes(t, events)));
            lemma_committed_disputed(t, again, events, sg, lg, s2, log2, urgent);
        }
    }
}

proof fn lemma_wires_urgent(
    t: TopologyModel,
    fps: Seq<FastModel>,
    ats: Seq<At>,
    urgents: Seq<bool>,
    n: int,
    dev: Seq<char>,
    m: Mac,
)
    requires
        reflections_answered(t, fps, ats, urgents),
        0 <= n <= fps.len(),
        on_wire(ats[n].s.carried_wire, dev, m),
        !on_wire(ats[0].s.carried_wire, dev, m),
    ensures
        exists|i: int| 0 <= i < urgents.len() && #[trigger] urgents[i],
    decreases n,
{
    if n > 0 {
        let f = fps[n - 1];
        let (a, b) = (ats[n - 1], ats[n]);
        assert(reflection_answered(t, f, a.s, a.log, b.s, b.log, urgents[n - 1]));
        if on_wire(a.s.carried_wire, dev, m) {
            lemma_wires_urgent(t, fps, ats, urgents, n - 1, dev, m);
        } else {
            assert(urgents[n - 1]) by {
                if f.reflected != Set::<Mac>::empty() {
                    let (b1, l1) = choose|b1: BookModel, l1: Seq<Op>| #[trigger]
                        note_looked(a.s.book, a.log, f.dev, b1, l1) && if owned_in(
                            b1.dir,
                            f.dev,
                        ).disjoint(f.reflected) {
                            b.s == a.s.with_book(b1) && b.log == l1 && !urgents[n - 1]
                        } else {
                            reflection_found(t, f, b1, a.s, l1, b.s, b.log, urgents[n - 1])
                        };
                    if !owned_in(b1.dir, f.dev).disjoint(f.reflected) {
                        let (b2, l2) = choose|b2: BookModel, l2: Seq<Op>| #[trigger]
                            note_looked(b1, l1, f.dev, b2, l2) && reflected_out(
                                t,
                                f,
                                f.reflected.intersect(owned_in(b2.dir, f.dev)),
                                a.s.with_book(b2),
                                l2,
                                b.s,
                                b.log,
                                urgents[n - 1],
                            );
                        lemma_wire_urgent(
                            t,
                            f,
                            f.reflected.intersect(owned_in(b2.dir, f.dev)),
                            a.s.with_book(b2),
                            l2,
                            b.s,
                            b.log,
                            urgents[n - 1],
                            dev,
                            m,
                        );
                    }
                }
            }
        }
    }
}

proof fn lemma_wire_urgent(
    t: TopologyModel,
    f: FastModel,
    ours: Set<Mac>,
    s: SyncerModel,
    log: Seq<Op>,
    s2: SyncerModel,
    log2: Seq<Op>,
    urgent: bool,
    dev: Seq<char>,
    m: Mac,
)
    requires
        reflected_out(t, f, ours, s, log, s2, log2, urgent),
        on_wire(s2.carried_wire, dev, m),
        !on_wire(s.carried_wire, dev, m),
    ensures
        urgent,
{
    let (v, b1, l1, o) = choose|v: Seq<Mac>, b1: BookModel, l1: Seq<Op>, o: OutcomeModel|
        {
            &&& lists(v, ours)
            &&& #[trigger] taken_out(s.book, log, f.dev, f.anat.dev, v, b1, l1, o, Why::Wire)
            &&& urgent == (o.done.len() > 0 || o.failed.len() > 0)
            &&& reflection_remembered(t, f.dev, v, o, s.with_book(b1), l1, s2, log2)
        };
    if o.done.len() == 0 {
        assert(s2.carried_wire == s.carried_wire);
    }
}

/// A batch that took something off a card because it is out on the wire is worth
/// a pass at once: whatever newly counts as on an uplink's wire makes it so, and
/// only what the batch saw arrive on that uplink's own port newly counts.
pub proof fn what_moved_to_the_wire_is_urgent(
    t: TopologyModel,
    events: Seq<(u16, FdbEntry)>,
    s: SyncerModel,
    log: Seq<Op>,
    s2: SyncerModel,
    log2: Seq<Op>,
    u: Urgency,
    dev: Seq<char>,
    m: Mac,
)
    requires
        fast_applied(t, events, s, log, s2, log2, Ok(u)),
        s2.carried_wire.contains_key(dev),
        s2.carried_wire[dev].contains(m),
        s.carried_wire.contains_key(dev) ==> !s.carried_wire[dev].contains(m),
    ensures
        u == Urgency::Now,
        exists|i: int|
            0 <= i < s.pairs.len() && (#[trigger] s.pairs[i]).dev == dev && (place_of(
                t,
                s.pairs[i],
            ) matches Some(anat) && arrived_on(events, anat.port, m)),
{
    let g = Ground { t, dir: s.book.dir, quiet: kept_quiet(t, s) };
    assert(!s.dry_run && events.len() > 0 && has_kind(events, RTM_NEWNEIGH));
    let (at, carried, base) = lemma_answered_first(t, events, s, log, s2, log2, u);
    let (s1, l1) = (at.s, at.log);
    let pfs = live_functions(t, pair_devs(s.pairs));
    let fps = fast_list(t, s1.exclude, s1.vf_answer(), carried, events, s1.pairs);
    let (sr, lr, ur) = choose|sr: SyncerModel, lr: Seq<Op>, ur: bool|
        {
            &&& #[trigger] all_reflected(t, fps, s1, l1, sr, lr, ur)
            &&& batch_grown(
                t,
                pfs,
                carried,
                fps,
                events,
                urgency_of(base, ur),
                sr,
                lr,
                s2,
                log2,
                Ok(u),
            )
        };
    lemma_list_is_from(t, s1.exclude, s1.vf_answer(), carried, events, s1.pairs);
    lemma_all_reflected(g, log, fps, s1, l1, sr, lr, ur);
    lemma_removals_trans(log, l1, lr);
    lemma_grown_wires(
        g,
        log,
        pfs,
        carried,
        fps,
        events,
        urgency_of(base, ur),
        s,
        s1,
        sr,
        lr,
        s2,
        log2,
        u,
    );
    let (ats, urgents) = choose|ats: Seq<At>, urgents: Seq<bool>|
        {
            &&& #[trigger] reflections_answered(t, fps, ats, urgents)
            &&& ats[0] == (At { s: s1, log: l1 })
            &&& ats.last() == (At { s: sr, log: lr })
            &&& ur == exists|i: int| 0 <= i < urgents.len() && #[trigger] urgents[i]
        };
    let n = fps.len() as int;
    assert(ats.last() == ats[n]);
    lemma_wires_urgent(t, fps, ats, urgents, n, dev, m);
    if forall|q: int|
        0 <= q < fps.len() && (#[trigger] fps[q]).dev == dev ==> !fps[q].reflected.contains(m) {
        lemma_wires(g, fps, ats, urgents, n, dev, m);
    }
    let q = choose|q: int|
        0 <= q < fps.len() && (#[trigger] fps[q]).dev == dev && fps[q].reflected.contains(m);
    let k = choose|k: int|
        0 <= k < s1.pairs.len() && is_from(
            t,
            s1.exclude,
            s1.vf_answer(),
            events,
            #[trigger] s1.pairs[k],
            fps[q],
        );
    lemma_arrived(events, fps[q].anat.port, m);
    assert(s.pairs[k].dev == dev);
}

proof fn lemma_grown_wires(
    g: Ground,
    l0: Seq<Op>,
    pfs: Seq<u32>,
    carried: bool,
    fps: Seq<FastModel>,
    events: Seq<(u16, FdbEntry)>,
    base: Urgency,
    s0: SyncerModel,
    s1: SyncerModel,
    s: SyncerModel,
    log: Seq<Op>,
    s2: SyncerModel,
    log2: Seq<Op>,
    u: Urgency,
)
    requires
        batch_grown(g.t, pfs, carried, fps, events, base, s, log, s2, log2, Ok(u)),
        fps == fast_list(g.t, s1.exclude, s1.vf_answer(), carried, events, s1.pairs),
        s1.pairs == s0.pairs,
        s1.exclude == s0.exclude,
        s1.carried == s0.carried,
        same_setup(s1, s),
        held_within(s1, s),
        batch_holds(g, l0, s, log),
        removals_only(since(l0, log)),
    ensures
        s2.carried_wire == s.carried_wire,
        base == Urgency::Now ==> u == Urgency::Now,
{
    let t = g.t;
    let r = Ok::<Urgency, Errno>(u);
    lemma_list_is_from(t, s1.exclude, s1.vf_answer(), carried, events, s1.pairs);
    if !carried {
        let urgent = choose|urgent: bool| #[trigger]
            batch_committed(t, fps, events, s, log, s2, log2, urgent) && r == Ok::<
                Urgency,
                Errno,
            >(urgency_of(base, urgent));
        lemma_batch_committed(g, l0, fps, events, s, log, s2, log2, urgent);
    } else {
        let (sg, lg, fg) = choose|sg: SyncerModel, lg: Seq<Op>, fg: Option<Errno>|
            {
                &&& #[trigger] growth_settled(t, pfs, fps, events, s, log, sg, lg, fg)
                &&& match fg {
                    Some(e) => r == Err::<Urgency, Errno>(e) && s2 == sg && log2 == lg,
                    None => exists|urgent: bool| #[trigger]
                        batch_committed(
                            t,
                            reskipped(t, sg.exclude, sg.vf_answer(), fps),
                            events,
                            sg,
                            lg,
                            s2,
                            log2,
                            urgent,
                        ) && r == Ok::<Urgency, Errno>(urgency_of(base, urgent)),
                }
            };
        lemma_grown_carried(g, l0, pfs, fps, events, s0, s, log, sg, lg, fg);
        let again = reskipped(t, sg.exclude, sg.vf_answer(), fps);
        let urgent = choose|urgent: bool| #[trigger]
            batch_committed(t, again, events, sg, lg, s2, log2, urgent) && r == Ok::<
                Urgency,
                Errno,
            >(urgency_of(base, urgent));
        lemma_reskipped_is_from(
            t,
            s1.exclude,
            s1.vf_answer(),
            true,
            sg.vf_answer(),
            events,
            s1.pairs,
        );
        lemma_batch_committed(g, l0, again, events, sg, lg, s2, log2, urgent);
    }
}

} // verus!
