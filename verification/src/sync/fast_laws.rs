//! What holds of every batch: what goes into a card is on record first and was
//! offered by a learn behind the bridge; only what is on record, or was being
//! kept, is taken out.

use vstd::prelude::*;

use crate::mac::{registerable, Mac};
use crate::netlink::{Errno, FdbEntry, Moment, Op, RTM_DELNEIGH, RTM_NEWNEIGH};
use crate::sync::apply::{
    all_reflected, answer_refreshed, base_urgency, batch_committed, batch_grown, batch_written,
    bursts_registered, doubted, fast_applied, growth_found, growth_settled, learns_answered,
    learns_answered_by, learns_worked, learns_worked_for, offers_growth, picked,
    reflections_answered, silences_dated, timed, urgency_of, At,
};
use crate::sync::batch::{
    burst_fresh, burst_over, burst_registered, burst_written, held_by, keeps_shed, keeps_shed_from,
    learns_of, lists_devs, offered_to, pair_of, reflected_out, reflection_answered,
    reflection_found, reflection_remembered, room_made, shed_out, shed_remembered, shed_said,
    sheddable, stamped, tight_said,
};
use crate::sync::card::{
    batch_registered, cards_only, ever_noted, lemma_ever_later, lemma_ever_now, lemma_sound_ask,
    lemma_sound_files, lemma_sound_start, lemma_taken_out_asks, noted_in,
    only_noted_addresses_are_taken_out, registering_notes_first, sound, taken_out, Ground,
    OutcomeModel, RegisteredModel, Why,
};
use crate::sync::decide::{excluded, live_functions};
use crate::sync::fast::{
    fast_list, fast_model, has_kind, learnt_inside, offered, offers, offers_of, on_wire,
    reflected_on, reskipped, FastModel, OfferModel,
};
use crate::sync::files::{grew, lemma_grew_push, lemma_grew_same, lemma_grew_trans, replay, since};
use crate::sync::memory::{lemma_filework_saved, memory_saved, MemoryModel};
use crate::sync::notes::{
    filework, index_noted, is_filework, lemma_filework_index, lemma_filework_looked,
    lemma_filework_one, lemma_filework_same, looked_each, note_looked, owned_in, sorted_list,
    BookModel, Stage,
};
use crate::sync::orphans::{lemma_removals_files, lemma_removals_trans, removals_only, same_setup};
use crate::sync::pass::{evicted, lists, place_of};
use crate::sync::reconcile::{answer_first, pair_devs};
use crate::sync::syncer::SyncerModel;
use crate::sync::types::{PairModel, Urgency};
use crate::sync::valve::released;
use crate::topology::TopologyModel;

verus! {

/// What a batch may take out on the strength of the last pass: what that pass
/// decided to keep quiet.
pub open spec fn kept_quiet(t: TopologyModel, s: SyncerModel) -> Set<(u32, Mac)> {
    Set::new(
        |x: (u32, Mac)|
            exists|dev: Seq<char>| #[trigger]
                s.carried.contains_key(dev) && s.carried[dev].quiet.contains(x.1)
                    && t.names.contains_key(dev) && t.names[dev] == x.0,
    )
}

/// Whether nothing is being kept that was not being kept at the start.
pub open spec fn quiet_within(g: Ground, s: SyncerModel) -> bool {
    kept_quiet(g.t, s).subset_of(g.quiet)
}

/// What holds throughout a batch.
pub open spec fn batch_holds(g: Ground, l0: Seq<Op>, s: SyncerModel, log: Seq<Op>) -> bool {
    &&& sound(g, l0, s.book.dir, log)
    &&& quiet_within(g, s)
}

/// Whether every address put into a card was offered to the device of that card.
pub open spec fn adds_offered(t: TopologyModel, offers: Seq<OfferModel>, ops: Seq<Op>) -> bool {
    forall|i: int|
        0 <= i < ops.len() ==> ((#[trigger] ops[i]) matches Op::Card { ifindex, mac, add: true, .. }
            ==> offered_for(t, offers, ifindex, mac))
}

/// Whether an address is offered to the device that an interface is.
pub open spec fn offered_for(
    t: TopologyModel,
    offers: Seq<OfferModel>,
    index: u32,
    mac: Mac,
) -> bool {
    exists|j: int|
        0 <= j < offers.len() && (#[trigger] offers[j]).1 == mac && t.names.contains_key(
            offers[j].0,
        ) && t.names[offers[j].0] == index
}

proof fn lemma_adds_none(t: TopologyModel, offers: Seq<OfferModel>, ops: Seq<Op>)
    requires
        removals_only(ops),
    ensures
        adds_offered(t, offers, ops),
{
    assert forall|i: int| 0 <= i < ops.len() implies ((#[trigger] ops[i]) matches Op::Card {
        ifindex,
        mac,
        add: true,
        ..
    } ==> offered_for(t, offers, ifindex, mac)) by {
        let o = ops[i];
    }
}

proof fn lemma_adds_trans(
    t: TopologyModel,
    offers: Seq<OfferModel>,
    l0: Seq<Op>,
    l1: Seq<Op>,
    l2: Seq<Op>,
)
    requires
        grew(l0, l1),
        grew(l1, l2),
        adds_offered(t, offers, since(l0, l1)),
        adds_offered(t, offers, since(l1, l2)),
    ensures
        grew(l0, l2),
        adds_offered(t, offers, since(l0, l2)),
{
    lemma_grew_trans(l0, l1, l2);
    let a = since(l0, l1);
    let b = since(l1, l2);
    let c = since(l0, l2);
    assert forall|i: int| 0 <= i < c.len() implies ((#[trigger] c[i]) matches Op::Card {
        ifindex,
        mac,
        add: true,
        ..
    } ==> offered_for(t, offers, ifindex, mac)) by {
        if i < a.len() {
            assert(c[i] == a[i]);
        } else {
            assert(c[i] == b[i - a.len()]);
        }
    }
}

proof fn lemma_quiet_less(g: Ground, s: SyncerModel, s2: SyncerModel)
    requires
        quiet_within(g, s),
        forall|d: Seq<char>, m: Mac|
            #![trigger s2.carried[d].quiet.contains(m)]
            s2.carried.contains_key(d) && s2.carried[d].quiet.contains(m)
                ==> s.carried.contains_key(d) && s.carried[d].quiet.contains(m),
    ensures
        quiet_within(g, s2),
{
    assert forall|x: (u32, Mac)| kept_quiet(g.t, s2).contains(x) implies g.quiet.contains(x) by {
        let d = choose|d: Seq<char>| #[trigger]
            s2.carried.contains_key(d) && s2.carried[d].quiet.contains(x.1)
                && g.t.names.contains_key(d) && g.t.names[d] == x.0;
        assert(s.carried.contains_key(d));
        assert(kept_quiet(g.t, s).contains(x));
    }
}

pub(crate) proof fn lemma_holds_files(
    g: Ground,
    l0: Seq<Op>,
    s: SyncerModel,
    log: Seq<Op>,
    s2: SyncerModel,
    log2: Seq<Op>,
)
    requires
        batch_holds(g, l0, s, log),
        filework(s.book.dir, log, s2.book.dir, log2),
        forall|d: Seq<char>, m: Mac|
            #![trigger s2.carried[d].quiet.contains(m)]
            s2.carried.contains_key(d) && s2.carried[d].quiet.contains(m)
                ==> s.carried.contains_key(d) && s.carried[d].quiet.contains(m),
    ensures
        batch_holds(g, l0, s2, log2),
        grew(log, log2),
        removals_only(since(log, log2)),
{
    lemma_sound_files(g, l0, s.book.dir, log, s2.book.dir, log2);
    lemma_removals_files(s.book.dir, log, s2.book.dir, log2);
    lemma_quiet_less(g, s, s2);
}

/// Whether what a batch must not change on the way is the same.
pub open spec fn same_ground(s: SyncerModel, s2: SyncerModel) -> bool {
    &&& same_setup(s, s2)
    &&& s2.carried_wire == s.carried_wire
}

proof fn lemma_cards_only_removals(ops: Seq<Op>, index: u32, macs: Set<Mac>)
    requires
        cards_only(ops, index, macs, false),
    ensures
        removals_only(ops),
{
    assert forall|i: int| 0 <= i < ops.len() implies ((#[trigger] ops[i]) matches Op::Card {
        add,
        ..
    } ==> !add) by {}
}

proof fn lemma_shed_out(
    g: Ground,
    l0: Seq<Op>,
    dev: Seq<char>,
    index: u32,
    shed: Seq<Mac>,
    s: SyncerModel,
    log: Seq<Op>,
    s2: SyncerModel,
    log2: Seq<Op>,
    freed: nat,
)
    requires
        batch_holds(g, l0, s, log),
        shed_out(g.t, dev, index, shed, s, log, s2, log2, freed),
        forall|m: Mac| #[trigger] shed.contains(m) ==> ever_noted(g, since(l0, log), index, m),
    ensures
        batch_holds(g, l0, s2, log2),
        grew(log, log2),
        removals_only(since(log, log2)),
        same_ground(s, s2),
{
    let (b1, l1, o) = choose|b1: BookModel, l1: Seq<Op>, o: OutcomeModel|
        {
            &&& #[trigger] taken_out(s.book, log, dev, index, shed, b1, l1, o, Why::Quiet)
            &&& if o.settled.len() == 0 {
                s2 == s.with_book(b1) && log2 == l1 && freed == 0
            } else {
                &&& shed_remembered(
                    g.t,
                    dev,
                    SyncerModel {
                        book: b1,
                        memory: evicted(s.memory, dev, o.settled.to_set()),
                        ..s
                    },
                    l1,
                    o.settled,
                    s2,
                    log2,
                )
                &&& freed == o.settled.to_set().intersect(s.held(dev)).len()
            }
        };
    only_noted_addresses_are_taken_out(g, l0, s.book, log, dev, index, shed, b1, l1, o, Why::Quiet);
    lemma_cards_only_removals(since(log, l1), index, shed.to_set());
    let s1 = SyncerModel {
        book: b1,
        memory: evicted(s.memory, dev, o.settled.to_set()),
        ..s
    };
    lemma_quiet_less(g, s, s1);
    if o.settled.len() > 0 {
        let b3 = choose|b3: BookModel| #[trigger]
            memory_saved(
                s1.memory,
                s1.book,
                l1,
                g.t,
                dev,
                s1.passed_at(dev),
                s1.dry_run,
                s2.memory,
                b3,
                log2,
            ) && s2 == (SyncerModel {
                memory: s2.memory,
                book: shed_said(b3, dev, s1.limit(dev), o.settled.len()),
                ..s1.not_holding(dev, o.settled.to_set())
            });
        lemma_filework_saved(
            s1.memory,
            s1.book,
            l1,
            g.t,
            dev,
            s1.passed_at(dev),
            s1.dry_run,
            s2.memory,
            b3,
            log2,
        );
        lemma_holds_files(g, l0, s1, l1, s2, log2);
        lemma_removals_trans(log, l1, log2);
    } else {
        lemma_quiet_less(g, s, s2);
    }
}

proof fn lemma_keeps_shed(
    g: Ground,
    l0: Seq<Op>,
    dev: Seq<char>,
    index: u32,
    need: nat,
    s: SyncerModel,
    log: Seq<Op>,
    s2: SyncerModel,
    log2: Seq<Op>,
    freed: nat,
)
    requires
        batch_holds(g, l0, s, log),
        keeps_shed(g.t, dev, index, need, s, log, s2, log2, freed),
        g.t.names.contains_key(dev),
        g.t.names[dev] == index,
    ensures
        batch_holds(g, l0, s2, log2),
        grew(log, log2),
        removals_only(since(log, log2)),
        same_ground(s, s2),
{
    let (b1, l1) = choose|b1: BookModel, l1: Seq<Op>| #[trigger]
        note_looked(s.book, log, dev, b1, l1) && keeps_shed_from(
            g.t,
            dev,
            index,
            need,
            s.with_book(b1),
            l1,
            s2,
            log2,
            freed,
        );
    let s1 = s.with_book(b1);
    lemma_filework_looked(s.book, log, dev, b1, l1);
    lemma_holds_files(g, l0, s, log, s1, l1);
    lemma_grew_same(l1);
    if s1.book.readable(dev) && need > 0 && sheddable(s1, dev) != Set::<Mac>::empty() {
        let shed = choose|shed: Seq<Mac>|
            {
                &&& #[trigger] released(sheddable(s1, dev), s1.memory.ports(dev), need, shed)
                &&& shed_out(g.t, dev, index, shed, s1, l1, s2, log2, freed)
            };
        assert forall|m: Mac| #[trigger] shed.contains(m) implies ever_noted(
            g,
            since(l0, l1),
            index,
            m,
        ) by {
            assert(shed.to_set().contains(m));
            assert(sheddable(s1, dev).contains(m));
            assert(s1.carried.contains_key(dev));
            assert(kept_quiet(g.t, s1).contains((index, m)));
        }
        lemma_shed_out(g, l0, dev, index, shed, s1, l1, s2, log2, freed);
        lemma_removals_trans(log, l1, log2);
    }
}

pub(crate) proof fn lemma_room_made(
    g: Ground,
    l0: Seq<Op>,
    dev: Seq<char>,
    index: u32,
    over: nat,
    fresh: nat,
    s: SyncerModel,
    log: Seq<Op>,
    s2: SyncerModel,
    log2: Seq<Op>,
)
    requires
        batch_holds(g, l0, s, log),
        room_made(g.t, dev, index, over, fresh, s, log, s2, log2),
        g.t.names.contains_key(dev),
        g.t.names[dev] == index,
    ensures
        batch_holds(g, l0, s2, log2),
        grew(log, log2),
        removals_only(since(log, log2)),
        same_ground(s, s2),
{
    lemma_grew_same(log);
    if over > 0 {
        let (s1, freed) = choose|s1: SyncerModel, freed: nat|
            {
                &&& #[trigger] keeps_shed(g.t, dev, index, over, s, log, s1, log2, freed)
                &&& s2 == if freed < over {
                    tight_said(s1, dev, fresh)
                } else {
                    s1
                }
            };
        lemma_keeps_shed(g, l0, dev, index, over, s, log, s1, log2, freed);
        lemma_quiet_less(g, s1, s2);
    }
}

proof fn lemma_burst_written(
    g: Ground,
    l0: Seq<Op>,
    dev: Seq<char>,
    index: u32,
    macs: Seq<Mac>,
    s: SyncerModel,
    log: Seq<Op>,
    s2: SyncerModel,
    log2: Seq<Op>,
)
    requires
        batch_holds(g, l0, s, log),
        burst_written(dev, index, macs, s, log, s2, log2),
        g.t.names.contains_key(dev),
        g.t.names[dev] == index,
    ensures
        batch_holds(g, l0, s2, log2),
        grew(log, log2),
        cards_only(since(log, log2), index, macs.to_set(), true),
        same_ground(s, s2),
{
    let (b1, l1, b2, reg) = choose|
        b1: BookModel,
        l1: Seq<Op>,
        b2: BookModel,
        reg: Option<RegisteredModel>,
    |
        {
            &&& #[trigger] index_noted(s.book, log, dev, index, b1, l1)
            &&& #[trigger] batch_registered(b1, l1, dev, index, macs, b2, log2, reg)
            &&& s2 == s.with_book(b2).holding(dev, held_by(reg))
        };
    let s1 = s.with_book(b1);
    lemma_filework_index(s.book, log, dev, index, b1, l1);
    lemma_holds_files(g, l0, s, log, s1, l1);
    registering_notes_first(g, l0, b1, l1, dev, index, macs, b2, log2, reg);
    lemma_quiet_less(g, s, s2);
    lemma_grew_trans(log, l1, log2);
    let a = since(log, l1);
    let b = since(l1, log2);
    let c = since(log, log2);
    assert forall|i: int| 0 <= i < c.len() implies ((#[trigger] c[i]) matches Op::Card {
        ifindex,
        mac,
        add: x,
        ..
    } ==> ifindex == index && macs.to_set().contains(mac) && x) by {
        if i < a.len() {
            assert(c[i] == a[i]);
            assert(is_filework(a[i]));
        } else {
            assert(c[i] == b[i - a.len()]);
        }
    }
}

pub(crate) proof fn lemma_burst_registered(
    g: Ground,
    l0: Seq<Op>,
    f: FastModel,
    all: Seq<OfferModel>,
    s: SyncerModel,
    log: Seq<Op>,
    s2: SyncerModel,
    log2: Seq<Op>,
)
    requires
        batch_holds(g, l0, s, log),
        burst_registered(g.t, f, learns_of(all, f.dev), s, log, s2, log2),
        g.t.names.contains_key(f.dev),
        g.t.names[f.dev] == f.anat.dev,
    ensures
        batch_holds(g, l0, s2, log2),
        grew(log, log2),
        adds_offered(g.t, all, since(log, log2)),
        same_ground(s, s2),
{
    let learnt = learns_of(all, f.dev);
    let (now, macs, s1, l1) = choose|now: Moment, macs: Seq<Mac>, s1: SyncerModel, l1: Seq<Op>|
        {
            &&& sorted_list(macs, learnt.dom())
            &&& #[trigger] room_made(
                g.t,
                f.dev,
                f.anat.dev,
                burst_over(stamped(s, f.dev, learnt, now.boot_millis), f.dev, learnt.dom()),
                burst_fresh(stamped(s, f.dev, learnt, now.boot_millis), f.dev, learnt.dom()),
                stamped(s, f.dev, learnt, now.boot_millis),
                log.push(Op::Clock { reading: now }),
                s1,
                l1,
            )
            &&& #[trigger] burst_written(f.dev, f.anat.dev, macs, s1, l1, s2, log2)
        };
    let sa = stamped(s, f.dev, learnt, now.boot_millis);
    let clock = Op::Clock { reading: now };
    let lc = log.push(clock);
    lemma_filework_one(s.book.dir, log, clock);
    lemma_holds_files(g, l0, s, log, sa, lc);
    lemma_removals_files(s.book.dir, log, s.book.dir, lc);
    lemma_room_made(
        g,
        l0,
        f.dev,
        f.anat.dev,
        burst_over(sa, f.dev, learnt.dom()),
        burst_fresh(sa, f.dev, learnt.dom()),
        sa,
        lc,
        s1,
        l1,
    );
    lemma_removals_trans(log, lc, l1);
    lemma_grew_trans(log, lc, l1);
    lemma_burst_written(g, l0, f.dev, f.anat.dev, macs, s1, l1, s2, log2);
    lemma_adds_none(g.t, all, since(log, l1));
    let b = since(l1, log2);
    assert forall|i: int| 0 <= i < b.len() implies ((#[trigger] b[i]) matches Op::Card {
        ifindex,
        mac,
        add: true,
        ..
    } ==> offered_for(g.t, all, ifindex, mac)) by {
        if let Op::Card { ifindex, mac, add, .. } = b[i] {
            if add {
                assert(macs.to_set().contains(mac));
                assert(learnt.contains_key(mac));
                lemma_learns_of(all, f.dev, mac);
            }
        }
    }
    lemma_adds_trans(g.t, all, log, l1, log2);
}

/// What is learnt for a device was offered to it.
proof fn lemma_learns_of(all: Seq<OfferModel>, dev: Seq<char>, m: Mac)
    requires
        learns_of(all, dev).contains_key(m),
    ensures
        exists|j: int| 0 <= j < all.len() && (#[trigger] all[j]).0 == dev && all[j].1 == m,
    decreases all.len(),
{
    if all.len() > 0 {
        let front = all.drop_last();
        if all.last().0 == dev && all.last().1 == m {
            assert(all[all.len() - 1].0 == dev);
        } else {
            lemma_learns_of(front, dev, m);
            let j = choose|j: int|
                0 <= j < front.len() && (#[trigger] front[j]).0 == dev && front[j].1 == m;
            assert(all[j] == front[j]);
        }
    }
}

/// Whether a pair stands where the picture says.
pub open spec fn is_placed(t: TopologyModel, f: FastModel) -> bool {
    t.names.contains_key(f.dev) && t.names[f.dev] == f.anat.dev
}

/// Whether all of these do.
pub open spec fn all_placed(t: TopologyModel, fps: Seq<FastModel>) -> bool {
    forall|i: int| 0 <= i < fps.len() ==> is_placed(t, #[trigger] fps[i])
}

pub(crate) proof fn lemma_pair_of(t: TopologyModel, fps: Seq<FastModel>, dev: Seq<char>)
    requires
        all_placed(t, fps),
    ensures
        pair_of(fps, dev) matches Some(f) ==> f.dev == dev && is_placed(t, f),
    decreases fps.len(),
{
    if fps.len() > 0 {
        let front = fps.drop_last();
        assert forall|i: int| 0 <= i < front.len() implies is_placed(t, #[trigger] front[i]) by {
            assert(front[i] == fps[i]);
        }
        lemma_pair_of(t, front, dev);
        assert(is_placed(t, fps[fps.len() - 1]));
    }
}

pub(crate) proof fn lemma_bursts_registered(
    g: Ground,
    l0: Seq<Op>,
    fps: Seq<FastModel>,
    all: Seq<OfferModel>,
    devs: Seq<Seq<char>>,
    ats: Seq<At>,
    n: int,
)
    requires
        all_placed(g.t, fps),
        bursts_registered(g.t, fps, all, devs, ats),
        0 <= n <= devs.len(),
        batch_holds(g, l0, ats[0].s, ats[0].log),
    ensures
        batch_holds(g, l0, ats[n].s, ats[n].log),
        grew(ats[0].log, ats[n].log),
        adds_offered(g.t, all, since(ats[0].log, ats[n].log)),
        same_ground(ats[0].s, ats[n].s),
    decreases n,
{
    if n == 0 {
        lemma_grew_same(ats[0].log);
    } else {
        lemma_bursts_registered(g, l0, fps, all, devs, ats, n - 1);
        let dev = devs[n - 1];
        lemma_pair_of(g.t, fps, dev);
        let f = pair_of(fps, dev)->0;
        lemma_burst_registered(
            g,
            l0,
            f,
            all,
            ats[n - 1].s,
            ats[n - 1].log,
            ats[n].s,
            ats[n].log,
        );
        lemma_adds_trans(g.t, all, ats[0].log, ats[n - 1].log, ats[n].log);
    }
}

pub(crate) proof fn lemma_batch_committed(
    g: Ground,
    l0: Seq<Op>,
    fps: Seq<FastModel>,
    events: Seq<(u16, FdbEntry)>,
    s: SyncerModel,
    log: Seq<Op>,
    s2: SyncerModel,
    log2: Seq<Op>,
    urgent: bool,
)
    requires
        all_placed(g.t, fps),
        batch_holds(g, l0, s, log),
        batch_committed(g.t, fps, events, s, log, s2, log2, urgent),
    ensures
        batch_holds(g, l0, s2, log2),
        grew(log, log2),
        adds_offered(
            g.t,
            offered(g.t, s.carried_wire, fps, events, false),
            since(log, log2),
        ),
        same_ground(s, s2),
{
    let all = offered(g.t, s.carried_wire, fps, events, false);
    let s1 = doubted(g.t, events, s);
    assert(batch_written(g.t, fps, all, s1, log, s2, log2));
    lemma_batch_written(g, l0, fps, all, s1, log, s2, log2);
}

proof fn lemma_batch_written(
    g: Ground,
    l0: Seq<Op>,
    fps: Seq<FastModel>,
    all: Seq<OfferModel>,
    s: SyncerModel,
    log: Seq<Op>,
    s2: SyncerModel,
    log2: Seq<Op>,
)
    requires
        all_placed(g.t, fps),
        batch_holds(g, l0, s, log),
        batch_written(g.t, fps, all, s, log, s2, log2),
    ensures
        batch_holds(g, l0, s2, log2),
        grew(log, log2),
        adds_offered(g.t, all, since(log, log2)),
        same_ground(s, s2),
{
    let (devs, ats) = choose|devs: Seq<Seq<char>>, ats: Seq<At>|
        {
            &&& lists_devs(devs, all)
            &&& #[trigger] bursts_registered(g.t, fps, all, devs, ats)
            &&& ats[0] == (At { s, log })
            &&& ats.last() == (At { s: s2, log: log2 })
        };
    lemma_bursts_registered(g, l0, fps, all, devs, ats, devs.len() as int);
}

/// Whether nothing is held that was not held at the start.
pub open spec fn held_within(s0: SyncerModel, s: SyncerModel) -> bool {
    forall|d: Seq<char>, m: Mac| #[trigger] s.held(d).contains(m) ==> s0.held(d).contains(m)
}

pub(crate) proof fn lemma_reflected_out(
    g: Ground,
    l0: Seq<Op>,
    f: FastModel,
    ours: Set<Mac>,
    s: SyncerModel,
    log: Seq<Op>,
    s2: SyncerModel,
    log2: Seq<Op>,
    urgent: bool,
)
    requires
        batch_holds(g, l0, s, log),
        is_placed(g.t, f),
        reflected_out(g.t, f, ours, s, log, s2, log2, urgent),
        ours.subset_of(owned_in(s.book.dir, f.dev)),
    ensures
        batch_holds(g, l0, s2, log2),
        grew(log, log2),
        removals_only(since(log, log2)),
        same_setup(s, s2),
        held_within(s, s2),
{
    let (v, b1, l1, o) = choose|v: Seq<Mac>, b1: BookModel, l1: Seq<Op>, o: OutcomeModel|
        {
            &&& lists(v, ours)
            &&& #[trigger] taken_out(s.book, log, f.dev, f.anat.dev, v, b1, l1, o, Why::Wire)
            &&& urgent == (o.done.len() > 0 || o.failed.len() > 0)
            &&& reflection_remembered(g.t, f.dev, v, o, s.with_book(b1), l1, s2, log2)
        };
    assert forall|m: Mac| #[trigger] v.contains(m) implies ever_noted(
        g,
        since(l0, log),
        f.anat.dev,
        m,
    ) by {
        assert(v.to_set().contains(m));
        assert(noted_in(g.t, replay(g.dir, since(l0, log)), f.dev, f.anat.dev, m));
        lemma_ever_now(g, since(l0, log), f.dev, f.anat.dev, m);
    }
    only_noted_addresses_are_taken_out(
        g,
        l0,
        s.book,
        log,
        f.dev,
        f.anat.dev,
        v,
        b1,
        l1,
        o,
        Why::Wire,
    );
    lemma_cards_only_removals(since(log, l1), f.anat.dev, v.to_set());
    let sb = s.with_book(b1);
    lemma_quiet_less(g, s, sb);
    if v.len() > 0 {
        let s1 = SyncerModel { memory: evicted(sb.memory, f.dev, v.to_set()), ..sb };
        lemma_filework_saved(
            s1.memory,
            s1.book,
            l1,
            g.t,
            f.dev,
            s1.passed_at(f.dev),
            s1.dry_run,
            s2.memory,
            s2.book,
            log2,
        );
        lemma_quiet_less(g, sb, s1);
        lemma_holds_files(g, l0, s1, l1, s2, log2);
        lemma_removals_trans(log, l1, log2);
    }
}

pub(crate) proof fn lemma_reflection_answered(
    g: Ground,
    l0: Seq<Op>,
    f: FastModel,
    s: SyncerModel,
    log: Seq<Op>,
    s2: SyncerModel,
    log2: Seq<Op>,
    urgent: bool,
)
    requires
        batch_holds(g, l0, s, log),
        is_placed(g.t, f),
        reflection_answered(g.t, f, s, log, s2, log2, urgent),
    ensures
        batch_holds(g, l0, s2, log2),
        grew(log, log2),
        removals_only(since(log, log2)),
        same_setup(s, s2),
        held_within(s, s2),
{
    lemma_grew_same(log);
    if f.reflected != Set::<Mac>::empty() {
        let (b1, l1) = choose|b1: BookModel, l1: Seq<Op>| #[trigger]
            note_looked(s.book, log, f.dev, b1, l1) && if owned_in(b1.dir, f.dev).disjoint(
                f.reflected,
            ) {
                s2 == s.with_book(b1) && log2 == l1 && !urgent
            } else {
                reflection_found(g.t, f, b1, s, l1, s2, log2, urgent)
            };
        let s1 = s.with_book(b1);
        lemma_filework_looked(s.book, log, f.dev, b1, l1);
        lemma_holds_files(g, l0, s, log, s1, l1);
        if !owned_in(b1.dir, f.dev).disjoint(f.reflected) {
            let (b2, l2) = choose|b2: BookModel, l2: Seq<Op>| #[trigger]
                note_looked(b1, l1, f.dev, b2, l2) && reflected_out(
                    g.t,
                    f,
                    f.reflected.intersect(owned_in(b2.dir, f.dev)),
                    s.with_book(b2),
                    l2,
                    s2,
                    log2,
                    urgent,
                );
            let sb = s.with_book(b2);
            lemma_filework_looked(b1, l1, f.dev, b2, l2);
            lemma_holds_files(g, l0, s1, l1, sb, l2);
            lemma_removals_trans(log, l1, l2);
            lemma_reflected_out(
                g,
                l0,
                f,
                f.reflected.intersect(owned_in(b2.dir, f.dev)),
                sb,
                l2,
                s2,
                log2,
                urgent,
            );
            lemma_removals_trans(log, l2, log2);
            assert forall|d: Seq<char>, m: Mac| #[trigger]
                s2.held(d).contains(m) implies s.held(d).contains(m) by {
                assert(sb.held(d).contains(m));
            }
        }
    }
}

pub(crate) proof fn lemma_reflections_answered(
    g: Ground,
    l0: Seq<Op>,
    fps: Seq<FastModel>,
    ats: Seq<At>,
    urgents: Seq<bool>,
    n: int,
)
    requires
        all_placed(g.t, fps),
        reflections_answered(g.t, fps, ats, urgents),
        0 <= n <= fps.len(),
        batch_holds(g, l0, ats[0].s, ats[0].log),
    ensures
        batch_holds(g, l0, ats[n].s, ats[n].log),
        grew(ats[0].log, ats[n].log),
        removals_only(since(ats[0].log, ats[n].log)),
        same_setup(ats[0].s, ats[n].s),
        held_within(ats[0].s, ats[n].s),
    decreases n,
{
    if n == 0 {
        lemma_grew_same(ats[0].log);
    } else {
        lemma_reflections_answered(g, l0, fps, ats, urgents, n - 1);
        let f = fps[n - 1];
        assert(is_placed(g.t, f));
        lemma_reflection_answered(
            g,
            l0,
            f,
            ats[n - 1].s,
            ats[n - 1].log,
            ats[n].s,
            ats[n].log,
            urgents[n - 1],
        );
        lemma_removals_trans(ats[0].log, ats[n - 1].log, ats[n].log);
        assert forall|d: Seq<char>, m: Mac| #[trigger]
            ats[n].s.held(d).contains(m) implies ats[0].s.held(d).contains(m) by {
            assert(ats[n - 1].s.held(d).contains(m));
        }
    }
}

pub(crate) proof fn lemma_all_reflected(
    g: Ground,
    l0: Seq<Op>,
    fps: Seq<FastModel>,
    s: SyncerModel,
    log: Seq<Op>,
    s2: SyncerModel,
    log2: Seq<Op>,
    urgent: bool,
)
    requires
        all_placed(g.t, fps),
        batch_holds(g, l0, s, log),
        all_reflected(g.t, fps, s, log, s2, log2, urgent),
    ensures
        batch_holds(g, l0, s2, log2),
        grew(log, log2),
        removals_only(since(log, log2)),
        same_setup(s, s2),
        held_within(s, s2),
{
    let (ats, urgents) = choose|ats: Seq<At>, urgents: Seq<bool>|
        {
            &&& #[trigger] reflections_answered(g.t, fps, ats, urgents)
            &&& ats[0] == (At { s, log })
            &&& ats.last() == (At { s: s2, log: log2 })
            &&& urgent == exists|i: int| 0 <= i < urgents.len() && #[trigger] urgents[i]
        };
    lemma_reflections_answered(g, l0, fps, ats, urgents, fps.len() as int);
}

proof fn lemma_looked_each(
    g: Ground,
    l0: Seq<Op>,
    s: SyncerModel,
    devs: Seq<Seq<char>>,
    stages: Seq<Stage>,
    n: int,
)
    requires
        looked_each(devs, stages),
        0 <= n <= devs.len(),
        batch_holds(g, l0, s.with_book(stages[0].book), stages[0].log),
    ensures
        batch_holds(g, l0, s.with_book(stages[n].book), stages[n].log),
        grew(stages[0].log, stages[n].log),
        removals_only(since(stages[0].log, stages[n].log)),
        forall|i: int, m: Mac|
            #![trigger owned_in(stages[i + 1].book.dir, devs[i]).contains(m)]
            0 <= i < n && owned_in(stages[i + 1].book.dir, devs[i]).contains(m)
                && g.t.names.contains_key(devs[i]) ==> ever_noted(
                g,
                since(l0, stages[n].log),
                g.t.names[devs[i]],
                m,
            ),
    decreases n,
{
    if n == 0 {
        lemma_grew_same(stages[0].log);
    } else {
        lemma_looked_each(g, l0, s, devs, stages, n - 1);
        let dev = devs[n - 1];
        let s1 = s.with_book(stages[n - 1].book);
        let s2 = s.with_book(stages[n].book);
        let (l1, l2) = (stages[n - 1].log, stages[n].log);
        lemma_filework_looked(s1.book, l1, dev, s2.book, l2);
        lemma_holds_files(g, l0, s1, l1, s2, l2);
        lemma_removals_trans(stages[0].log, l1, l2);
        lemma_grew_trans(l0, l1, l2);
        assert forall|i: int, m: Mac|
            #![trigger owned_in(stages[i + 1].book.dir, devs[i]).contains(m)]
            0 <= i < n && owned_in(stages[i + 1].book.dir, devs[i]).contains(m)
                && g.t.names.contains_key(devs[i]) implies ever_noted(
            g,
            since(l0, l2),
            g.t.names[devs[i]],
            m,
        ) by {
            let index = g.t.names[devs[i]];
            if i < n - 1 {
                lemma_ever_later(g, since(l0, l1), since(l1, l2), index, m);
            } else {
                assert(noted_in(g.t, replay(g.dir, since(l0, l2)), dev, index, m));
                lemma_ever_now(g, since(l0, l2), dev, index, m);
            }
        }
    }
}

/// Whether every address offered to an uplink that would not grow is ours, and
/// in the card.
pub open spec fn known_unless_growing(
    g: Ground,
    ops: Seq<Op>,
    offers: Seq<OfferModel>,
    growing: Seq<Seq<char>>,
    s: SyncerModel,
) -> bool {
    forall|j: int|
        #![trigger offers[j]]
        0 <= j < offers.len() && !growing.contains(offers[j].0) && g.t.names.contains_key(
            offers[j].0,
        ) ==> ever_noted(g, ops, g.t.names[offers[j].0], offers[j].1) && s.held(
            offers[j].0,
        ).contains(offers[j].1)
}

proof fn lemma_picked(devs: Seq<Seq<char>>, which: Seq<bool>, i: int)
    requires
        which.len() == devs.len(),
        0 <= i < devs.len(),
        which[i],
    ensures
        picked(devs, which).contains(devs[i]),
    decreases devs.len(),
{
    let front = devs.drop_last();
    let flags = which.drop_last();
    let head = picked(front, flags);
    if i == devs.len() - 1 {
        assert(head.push(devs.last())[head.len() as int] == devs[i]);
    } else {
        lemma_picked(front, flags, i);
        assert(front[i] == devs[i]);
        let k = choose|k: int| 0 <= k < head.len() && head[k] == devs[i];
        assert(picked(devs, which)[k] == devs[i]);
    }
}

proof fn lemma_growth_found(
    g: Ground,
    l0: Seq<Op>,
    offers: Seq<OfferModel>,
    s: SyncerModel,
    log: Seq<Op>,
    b2: BookModel,
    log2: Seq<Op>,
    growing: Seq<Seq<char>>,
    would: Seq<OfferModel>,
)
    requires
        batch_holds(g, l0, s, log),
        growth_found(offers, s, log, b2, log2, growing, would),
    ensures
        batch_holds(g, l0, s.with_book(b2), log2),
        grew(log, log2),
        removals_only(since(log, log2)),
        known_unless_growing(g, since(l0, log2), offers, growing, s),
{
    let (devs, stages, which) = choose|devs: Seq<Seq<char>>, stages: Seq<Stage>, which: Seq<bool>|
        {
            &&& lists_devs(devs, offers)
            &&& #[trigger] looked_each(devs, stages)
            &&& stages[0] == (Stage { book: s.book, log })
            &&& stages.last() == (Stage { book: b2, log: log2 })
            &&& which.len() == devs.len()
            &&& forall|i: int|
                0 <= i < devs.len() ==> #[trigger] which[i] == offers_growth(
                    offers,
                    devs[i],
                    owned_in(stages[i + 1].book.dir, devs[i]),
                    s.held(devs[i]),
                )
            &&& growing == #[trigger] picked(devs, which)
        };
    let n = devs.len() as int;
    assert(s.with_book(stages[0].book) == s);
    lemma_looked_each(g, l0, s, devs, stages, n);
    assert(stages[n] == stages.last());
    assert forall|j: int|
        #![trigger offers[j]]
        0 <= j < offers.len() && !growing.contains(offers[j].0) && g.t.names.contains_key(
            offers[j].0,
        ) implies ever_noted(g, since(l0, log2), g.t.names[offers[j].0], offers[j].1) && s.held(
        offers[j].0,
    ).contains(offers[j].1) by {
        let dev = offers[j].0;
        assert(offered_to(offers, dev));
        assert(devs.contains(dev));
        let i = choose|i: int| 0 <= i < devs.len() && devs[i] == dev;
        if which[i] {
            lemma_picked(devs, which, i);
        }
        let owned = owned_in(stages[i + 1].book.dir, devs[i]);
        assert(!offers_growth(offers, devs[i], owned, s.held(devs[i])));
        assert(owned_in(stages[i + 1].book.dir, devs[i]).contains(offers[j].1));
    }
}

/// Whether the driver was asked about the functions behind this uplink, and
/// answered.
pub open spec fn asked_about(t: TopologyModel, ops: Seq<Op>, dev: Seq<char>) -> bool {
    exists|j: int, devs: Seq<Seq<char>>|
        #![trigger ops[j], live_functions(t, devs)]
        0 <= j < ops.len() && devs.contains(dev) && (ops[j] matches Op::VfMacs {
            functions,
            answer: Ok(_),
        } && functions == live_functions(t, devs))
}

proof fn lemma_asked_about_later(t: TopologyModel, a: Seq<Op>, b: Seq<Op>, dev: Seq<char>)
    requires
        asked_about(t, a, dev),
    ensures
        asked_about(t, a + b, dev),
{
    let (j, devs) = choose|j: int, devs: Seq<Seq<char>>|
        #![trigger a[j], live_functions(t, devs)]
        0 <= j < a.len() && devs.contains(dev) && (a[j] matches Op::VfMacs {
            functions,
            answer: Ok(_),
        } && functions == live_functions(t, devs));
    assert((a + b)[j] == a[j]);
    let f = live_functions(t, devs);
}

/// Whether a learn of an address behind a pair's bridge is in a batch.
pub open spec fn heard_inside(
    t: TopologyModel,
    f: FastModel,
    events: Seq<(u16, FdbEntry)>,
    mac: Mac,
) -> bool {
    exists|i: int|
        0 <= i < events.len() && (#[trigger] events[i]).0 == RTM_NEWNEIGH && events[i].1.mac == mac
            && events[i].1.learnt() && learnt_inside(t, f, events[i].1)
}

/// Where an offer comes from.
proof fn lemma_offer_source(
    t: TopologyModel,
    wires: Map<Seq<char>, Set<Mac>>,
    fps: Seq<FastModel>,
    events: Seq<(u16, FdbEntry)>,
    deciding: bool,
    j: int,
) -> (r: (int, int))
    requires
        0 <= j < offered(t, wires, fps, events, deciding).len(),
    ensures
        0 <= r.0 < events.len(),
        0 <= r.1 < fps.len(),
        events[r.0].0 == RTM_NEWNEIGH,
        offers(t, wires, fps[r.1], events[r.0].1, deciding),
        offered(t, wires, fps, events, deciding)[j] == (
            fps[r.1].dev,
            events[r.0].1.mac,
            events[r.0].1.ifindex,
        ),
    decreases events.len(),
{
    let front = events.drop_last();
    let head = offered(t, wires, fps, front, deciding);
    if j < head.len() {
        let r = lemma_offer_source(t, wires, fps, front, deciding, j);
        assert(front[r.0] == events[r.0]);
        r
    } else {
        let e = events.last().1;
        let k = lemma_offer_of(t, wires, fps, e, deciding, j - head.len());
        (events.len() - 1, k)
    }
}

proof fn lemma_offer_of(
    t: TopologyModel,
    wires: Map<Seq<char>, Set<Mac>>,
    fps: Seq<FastModel>,
    e: FdbEntry,
    deciding: bool,
    i: int,
) -> (k: int)
    requires
        0 <= i < offers_of(t, wires, fps, e, deciding).len(),
    ensures
        0 <= k < fps.len(),
        offers(t, wires, fps[k], e, deciding),
        offers_of(t, wires, fps, e, deciding)[i] == (fps[k].dev, e.mac, e.ifindex),
    decreases fps.len(),
{
    let front = fps.drop_last();
    let head = offers_of(t, wires, front, e, deciding);
    if i < head.len() {
        let k = lemma_offer_of(t, wires, front, e, deciding, i);
        assert(front[k] == fps[k]);
        k
    } else {
        fps.len() - 1
    }
}

/// What a learn offers is among the offers of the batch.
pub(crate) proof fn lemma_is_offered(
    t: TopologyModel,
    wires: Map<Seq<char>, Set<Mac>>,
    fps: Seq<FastModel>,
    events: Seq<(u16, FdbEntry)>,
    deciding: bool,
    i: int,
    k: int,
) -> (j: int)
    requires
        0 <= i < events.len(),
        0 <= k < fps.len(),
        events[i].0 == RTM_NEWNEIGH,
        offers(t, wires, fps[k], events[i].1, deciding),
    ensures
        0 <= j < offered(t, wires, fps, events, deciding).len(),
        offered(t, wires, fps, events, deciding)[j] == (
            fps[k].dev,
            events[i].1.mac,
            events[i].1.ifindex,
        ),
    decreases events.len(),
{
    let front = events.drop_last();
    let head = offered(t, wires, fps, front, deciding);
    if i < events.len() - 1 {
        assert(front[i] == events[i]);
        lemma_is_offered(t, wires, fps, front, deciding, i, k)
    } else {
        let e = events.last().1;
        let x = lemma_is_offered_of(t, wires, fps, e, deciding, k);
        head.len() + x
    }
}

proof fn lemma_is_offered_of(
    t: TopologyModel,
    wires: Map<Seq<char>, Set<Mac>>,
    fps: Seq<FastModel>,
    e: FdbEntry,
    deciding: bool,
    k: int,
) -> (j: int)
    requires
        0 <= k < fps.len(),
        offers(t, wires, fps[k], e, deciding),
    ensures
        0 <= j < offers_of(t, wires, fps, e, deciding).len(),
        offers_of(t, wires, fps, e, deciding)[j] == (fps[k].dev, e.mac, e.ifindex),
    decreases fps.len(),
{
    let front = fps.drop_last();
    let head = offers_of(t, wires, front, e, deciding);
    if k < fps.len() - 1 {
        assert(front[k] == fps[k]);
        lemma_is_offered_of(t, wires, front, e, deciding, k)
    } else {
        head.len() as int
    }
}

/// Where a pair of a batch comes from.
pub(crate) proof fn lemma_fast_list(
    t: TopologyModel,
    exclude: Set<Mac>,
    vf: Seq<(u32, Mac)>,
    carried: bool,
    events: Seq<(u16, FdbEntry)>,
    pairs: Seq<PairModel>,
    i: int,
) -> (k: int)
    requires
        0 <= i < fast_list(t, exclude, vf, carried, events, pairs).len(),
    ensures
        0 <= k < pairs.len(),
        place_of(t, pairs[k]) == Some(fast_list(t, exclude, vf, carried, events, pairs)[i].anat),
        fast_list(t, exclude, vf, carried, events, pairs)[i] == fast_model(
            t,
            exclude,
            vf,
            carried,
            events,
            pairs[k].dev,
            fast_list(t, exclude, vf, carried, events, pairs)[i].anat,
        ),
        is_placed(t, fast_list(t, exclude, vf, carried, events, pairs)[i]),
    decreases pairs.len(),
{
    let front = pairs.drop_last();
    let head = fast_list(t, exclude, vf, carried, events, front);
    if i < head.len() {
        let k = lemma_fast_list(t, exclude, vf, carried, events, front, i);
        assert(front[k] == pairs[k]);
        k
    } else {
        pairs.len() - 1
    }
}

/// Whether a pair of a batch is one of these pairs, judged by this answer of the
/// driver.
pub open spec fn is_from(
    t: TopologyModel,
    exclude: Set<Mac>,
    vf: Seq<(u32, Mac)>,
    events: Seq<(u16, FdbEntry)>,
    pair: PairModel,
    f: FastModel,
) -> bool {
    &&& place_of(t, pair) == Some(f.anat)
    &&& f.dev == pair.dev
    &&& f.skip == excluded(exclude, t.links, f.anat, vf)
    &&& f.reflected == reflected_on(events, f.anat.port)
}

/// Whether all of them are.
pub open spec fn all_from(
    t: TopologyModel,
    exclude: Set<Mac>,
    vf: Seq<(u32, Mac)>,
    events: Seq<(u16, FdbEntry)>,
    pairs: Seq<PairModel>,
    fps: Seq<FastModel>,
) -> bool {
    forall|i: int|
        #![trigger fps[i]]
        0 <= i < fps.len() ==> exists|k: int|
            0 <= k < pairs.len() && is_from(t, exclude, vf, events, #[trigger] pairs[k], fps[i])
}

/// Whether an address may go into a card: it can stand in a filter, it was just
/// learnt behind the bridge of this pair, and neither this batch nor what is
/// remembered has it on the wire; it is not excluded by the answer of the driver
/// in force; and the driver was asked about the functions behind this uplink
/// before, within this very batch - unless the address was ours and in the card
/// already.
pub open spec fn may_add(
    g: Ground,
    s0: SyncerModel,
    s2: SyncerModel,
    events: Seq<(u16, FdbEntry)>,
    before: Seq<Op>,
    pair: PairModel,
    index: u32,
    mac: Mac,
) -> bool {
    place_of(g.t, pair) matches Some(anat) && {
        &&& index == anat.dev
        &&& registerable(mac)
        &&& !excluded(s0.exclude, g.t.links, anat, s2.vf_answer()).contains(mac)
        &&& !reflected_on(events, anat.port).contains(mac)
        &&& !on_wire(s2.carried_wire, pair.dev, mac)
        &&& heard_inside(
            g.t,
            fast_model(g.t, s0.exclude, s2.vf_answer(), false, events, pair.dev, anat),
            events,
            mac,
        )
        &&& asked_about(g.t, before, pair.dev) || (ever_noted(g, before, index, mac) && s0.held(
            pair.dev,
        ).contains(mac))
    }
}

/// Whether the request at `i`, if it puts an address into a card, may.
pub open spec fn batch_may(
    g: Ground,
    s0: SyncerModel,
    s2: SyncerModel,
    events: Seq<(u16, FdbEntry)>,
    ops: Seq<Op>,
    i: int,
) -> bool {
    match ops[i] {
        Op::Card { ifindex, mac, add, .. } => add ==> exists|k: int|
            0 <= k < s0.pairs.len() && may_add(
                g,
                s0,
                s2,
                events,
                ops.take(i),
                #[trigger] s0.pairs[k],
                ifindex,
                mac,
            ),
        _ => true,
    }
}

/// Whether all such requests may.
pub open spec fn batch_may_all(
    g: Ground,
    s0: SyncerModel,
    s2: SyncerModel,
    events: Seq<(u16, FdbEntry)>,
    ops: Seq<Op>,
) -> bool {
    forall|i: int| 0 <= i < ops.len() ==> #[trigger] batch_may(g, s0, s2, events, ops, i)
}

/// Whether what is offered is vetted: the driver was asked about the functions
/// behind the uplink, or the address was ours and in the card already.
pub open spec fn vetted(g: Ground, s0: SyncerModel, ops: Seq<Op>, offer: OfferModel) -> bool {
    asked_about(g.t, ops, offer.0) || (g.t.names.contains_key(offer.0) ==> ever_noted(
        g,
        ops,
        g.t.names[offer.0],
        offer.1,
    ) && s0.held(offer.0).contains(offer.1))
}

proof fn lemma_commit_may(
    g: Ground,
    s0: SyncerModel,
    s: SyncerModel,
    s2: SyncerModel,
    events: Seq<(u16, FdbEntry)>,
    fps: Seq<FastModel>,
    a: Seq<Op>,
    b: Seq<Op>,
)
    requires
        removals_only(a),
        all_from(g.t, s0.exclude, s2.vf_answer(), events, s0.pairs, fps),
        s2.carried_wire == s.carried_wire,
        adds_offered(g.t, offered(g.t, s.carried_wire, fps, events, false), b),
        forall|j: int|
            #![trigger offered(g.t, s.carried_wire, fps, events, false)[j]]
            0 <= j < offered(g.t, s.carried_wire, fps, events, false).len() ==> vetted(
                g,
                s0,
                a,
                offered(g.t, s.carried_wire, fps, events, false)[j],
            ),
    ensures
        batch_may_all(g, s0, s2, events, a + b),
{
    let all = offered(g.t, s.carried_wire, fps, events, false);
    let ops = a + b;
    assert forall|i: int| 0 <= i < ops.len() implies #[trigger] batch_may(
        g,
        s0,
        s2,
        events,
        ops,
        i,
    ) by {
        if i < a.len() {
            assert(ops[i] == a[i]);
        } else {
            let x = i - a.len();
            assert(ops[i] == b[x]);
            if let Op::Card { ifindex, mac, add, .. } = ops[i] {
                if add {
                    assert(offered_for(g.t, all, ifindex, mac));
                    let j = choose|j: int|
                        0 <= j < all.len() && (#[trigger] all[j]).1 == mac
                            && g.t.names.contains_key(all[j].0) && g.t.names[all[j].0] == ifindex;
                    let (ei, fi) = lemma_offer_source(
                        g.t,
                        s.carried_wire,
                        fps,
                        events,
                        false,
                        j,
                    );
                    let f = fps[fi];
                    let e = events[ei].1;
                    let k = choose|k: int|
                        0 <= k < s0.pairs.len() && is_from(
                            g.t,
                            s0.exclude,
                            s2.vf_answer(),
                            events,
                            #[trigger] s0.pairs[k],
                            f,
                        );
                    let pair = s0.pairs[k];
                    assert(all[j] == (f.dev, e.mac, e.ifindex));
                    let model = fast_model(
                        g.t,
                        s0.exclude,
                        s2.vf_answer(),
                        false,
                        events,
                        pair.dev,
                        f.anat,
                    );
                    assert(learnt_inside(g.t, model, e));
                    assert(heard_inside(g.t, model, events, mac)) by {
                        assert(events[ei].1.mac == mac);
                    }
                    assert(vetted(g, s0, a, all[j]));
                    let head = b.take(x);
                    assert(ops.take(i) =~= a + head);
                    if asked_about(g.t, a, pair.dev) {
                        lemma_asked_about_later(g.t, a, head, pair.dev);
                    } else {
                        lemma_ever_later(g, a, head, ifindex, mac);
                    }
                    assert(may_add(g, s0, s2, events, ops.take(i), s0.pairs[k], ifindex, mac));
                }
            }
        }
    }
}

pub(crate) proof fn lemma_list_is_from(
    t: TopologyModel,
    exclude: Set<Mac>,
    vf: Seq<(u32, Mac)>,
    carried: bool,
    events: Seq<(u16, FdbEntry)>,
    pairs: Seq<PairModel>,
)
    ensures
        all_from(
            t,
            exclude,
            vf,
            events,
            pairs,
            fast_list(t, exclude, vf, carried, events, pairs),
        ),
        all_placed(t, fast_list(t, exclude, vf, carried, events, pairs)),
{
    let fps = fast_list(t, exclude, vf, carried, events, pairs);
    assert forall|i: int|
        #![trigger fps[i]]
        0 <= i < fps.len() implies is_placed(t, fps[i]) && exists|k: int|
        0 <= k < pairs.len() && is_from(t, exclude, vf, events, #[trigger] pairs[k], fps[i]) by {
        let k = lemma_fast_list(t, exclude, vf, carried, events, pairs, i);
        assert(is_from(t, exclude, vf, events, pairs[k], fps[i]));
    }
}

pub(crate) proof fn lemma_reskipped_is_from(
    t: TopologyModel,
    exclude: Set<Mac>,
    vf: Seq<(u32, Mac)>,
    carried: bool,
    vf2: Seq<(u32, Mac)>,
    events: Seq<(u16, FdbEntry)>,
    pairs: Seq<PairModel>,
)
    ensures
        all_from(
            t,
            exclude,
            vf2,
            events,
            pairs,
            reskipped(t, exclude, vf2, fast_list(t, exclude, vf, carried, events, pairs)),
        ),
        all_placed(
            t,
            reskipped(t, exclude, vf2, fast_list(t, exclude, vf, carried, events, pairs)),
        ),
{
    let fps = fast_list(t, exclude, vf, carried, events, pairs);
    let again = reskipped(t, exclude, vf2, fps);
    assert forall|i: int|
        #![trigger again[i]]
        0 <= i < again.len() implies is_placed(t, again[i]) && exists|k: int|
        0 <= k < pairs.len() && is_from(t, exclude, vf2, events, #[trigger] pairs[k], again[i]) by {
        let k = lemma_fast_list(t, exclude, vf, carried, events, pairs, i);
        assert(again[i] == (FastModel { skip: excluded(exclude, t.links, fps[i].anat, vf2), ..fps[i] }));
        assert(is_from(t, exclude, vf2, events, pairs[k], again[i]));
    }
}

/// What is committed by a fresh answer was offered while deciding with the
/// carried one.
proof fn lemma_committed_was_decided(
    t: TopologyModel,
    exclude: Set<Mac>,
    vf: Seq<(u32, Mac)>,
    vf2: Seq<(u32, Mac)>,
    events: Seq<(u16, FdbEntry)>,
    pairs: Seq<PairModel>,
    wires: Map<Seq<char>, Set<Mac>>,
    j: int,
) -> (x: int)
    requires
        0 <= j < offered(
            t,
            wires,
            reskipped(t, exclude, vf2, fast_list(t, exclude, vf, true, events, pairs)),
            events,
            false,
        ).len(),
    ensures
        0 <= x < offered(
            t,
            wires,
            fast_list(t, exclude, vf, true, events, pairs),
            events,
            true,
        ).len(),
        offered(t, wires, fast_list(t, exclude, vf, true, events, pairs), events, true)[x]
            == offered(
            t,
            wires,
            reskipped(t, exclude, vf2, fast_list(t, exclude, vf, true, events, pairs)),
            events,
            false,
        )[j],
{
    let fps = fast_list(t, exclude, vf, true, events, pairs);
    let again = reskipped(t, exclude, vf2, fps);
    let (ei, fi) = lemma_offer_source(t, wires, again, events, false, j);
    let k = lemma_fast_list(t, exclude, vf, true, events, pairs, fi);
    let f = fps[fi];
    let e = events[ei].1;
    assert(again[fi] == (FastModel { skip: excluded(exclude, t.links, f.anat, vf2), ..f }));
    assert(learnt_inside(t, f, e) == learnt_inside(t, again[fi], e));
    assert(!again[fi].skip.contains(e.mac));
    if f.skip.contains(e.mac) {
        assert(excluded(exclude, t.links, f.anat, vf).contains(e.mac));
        assert(f.vf_own.contains(e.mac));
    }
    lemma_is_offered(t, wires, fps, events, true, ei, fi)
}

proof fn lemma_may_none(
    g: Ground,
    s0: SyncerModel,
    s2: SyncerModel,
    events: Seq<(u16, FdbEntry)>,
    ops: Seq<Op>,
)
    requires
        removals_only(ops),
    ensures
        batch_may_all(g, s0, s2, events, ops),
{
    assert forall|i: int| 0 <= i < ops.len() implies #[trigger] batch_may(
        g,
        s0,
        s2,
        events,
        ops,
        i,
    ) by {
        let o = ops[i];
    }
}

/// One request that asks nothing of a card.
pub(crate) proof fn lemma_holds_ask(
    g: Ground,
    l0: Seq<Op>,
    s: SyncerModel,
    log: Seq<Op>,
    s2: SyncerModel,
    op: Op,
)
    requires
        batch_holds(g, l0, s, log),
        removals_only(since(l0, log)),
        op is VfMacs,
        s2.book.dir == s.book.dir,
        s2.carried == s.carried,
    ensures
        batch_holds(g, l0, s2, log.push(op)),
        removals_only(since(l0, log.push(op))),
        grew(log, log.push(op)),
        since(l0, log.push(op)) == since(l0, log).push(op),
{
    lemma_sound_ask(g, l0, s.book.dir, log, op);
    lemma_grew_same(log);
    lemma_grew_push(log, log, op);
    lemma_quiet_less(g, s, s2);
    let a = since(l0, log);
    let b = since(l0, log.push(op));
    assert forall|i: int| 0 <= i < b.len() implies ((#[trigger] b[i]) matches Op::Card { add, .. }
        ==> !add) by {
        if i < a.len() {
            assert(b[i] == a[i]);
        }
    }
}

/// The same batch without a carried answer.
proof fn lemma_grown_afresh(
    g: Ground,
    l0: Seq<Op>,
    fps: Seq<FastModel>,
    events: Seq<(u16, FdbEntry)>,
    s0: SyncerModel,
    s: SyncerModel,
    log: Seq<Op>,
    s2: SyncerModel,
    log2: Seq<Op>,
    urgent: bool,
)
    requires
        batch_holds(g, l0, s, log),
        removals_only(since(l0, log)),
        fps == fast_list(g.t, s0.exclude, s.vf_answer(), false, events, s0.pairs),
        forall|k: int|
            0 <= k < s0.pairs.len() ==> asked_about(
                g.t,
                since(l0, log),
                (#[trigger] s0.pairs[k]).dev,
            ),
        batch_committed(g.t, fps, events, s, log, s2, log2, urgent),
    ensures
        batch_holds(g, l0, s2, log2),
        grew(log, log2),
        batch_may_all(g, s0, s2, events, since(l0, log2)),
{
    lemma_list_is_from(g.t, s0.exclude, s.vf_answer(), false, events, s0.pairs);
    lemma_batch_committed(g, l0, fps, events, s, log, s2, log2, urgent);
    let a = since(l0, log);
    let all = offered(g.t, s.carried_wire, fps, events, false);
    assert forall|j: int| #![trigger all[j]] 0 <= j < all.len() implies vetted(g, s0, a, all[j]) by {
        let (ei, fi) = lemma_offer_source(g.t, s.carried_wire, fps, events, false, j);
        let k = lemma_fast_list(g.t, s0.exclude, s.vf_answer(), false, events, s0.pairs, fi);
        assert(asked_about(g.t, a, s0.pairs[k].dev));
    }
    lemma_commit_may(g, s0, s, s2, events, fps, a, since(log, log2));
    lemma_grew_trans(l0, log, log2);
}

/// The same batch with a carried answer.
pub(crate) proof fn lemma_grown_carried(
    g: Ground,
    l0: Seq<Op>,
    pfs: Seq<u32>,
    fps: Seq<FastModel>,
    events: Seq<(u16, FdbEntry)>,
    s0: SyncerModel,
    s: SyncerModel,
    log: Seq<Op>,
    s1: SyncerModel,
    l1: Seq<Op>,
    failed: Option<Errno>,
)
    requires
        batch_holds(g, l0, s, log),
        removals_only(since(l0, log)),
        fps == fast_list(g.t, s0.exclude, s.vf_answer(), true, events, s0.pairs),
        held_within(s0, s),
        growth_settled(g.t, pfs, fps, events, s, log, s1, l1, failed),
    ensures
        batch_holds(g, l0, s1, l1),
        grew(log, l1),
        removals_only(since(l0, l1)),
        s1.exclude == s.exclude,
        s1.carried_wire == s.carried_wire,
        failed is None ==> forall|j: int|
            #![trigger offered(g.t, s.carried_wire, fps, events, true)[j]]
            0 <= j < offered(g.t, s.carried_wire, fps, events, true).len() ==> vetted(
                g,
                s0,
                since(l0, l1),
                offered(g.t, s.carried_wire, fps, events, true)[j],
            ),
{
    let all = offered(g.t, s.carried_wire, fps, events, true);
    let (b1, lb, growing, would) = choose|
        b1: BookModel,
        lb: Seq<Op>,
        growing: Seq<Seq<char>>,
        would: Seq<OfferModel>,
    |
        {
            &&& #[trigger] growth_found(
                offered(g.t, s.carried_wire, fps, events, true),
                s,
                log,
                b1,
                lb,
                growing,
                would,
            )
            &&& #[trigger] answer_refreshed(
                g.t,
                pfs,
                fps,
                would,
                growing,
                doubted(g.t, events, s).with_book(b1),
                lb,
                s1,
                l1,
                failed,
            )
        };
    lemma_growth_found(g, l0, all, s, log, b1, lb, growing, would);
    lemma_removals_trans(l0, log, lb);
    let sb = doubted(g.t, events, s).with_book(b1);
    lemma_quiet_less(g, s.with_book(b1), sb);
    lemma_grew_same(lb);
    if growing.len() > 0 {
        let op = l1.last();
        lemma_holds_ask(g, l0, sb, lb, s1, op);
        lemma_grew_trans(log, lb, l1);
        if failed is None {
            let ops = since(l0, l1);
            let a = since(l0, lb);
            assert forall|j: int|
                #![trigger all[j]]
                0 <= j < all.len() implies vetted(g, s0, ops, all[j]) by {
                let dev = all[j].0;
                if growing.contains(dev) {
                    assert(ops[a.len() as int] == op);
                    assert(asked_about(g.t, ops, dev)) by {
                        let f = live_functions(g.t, growing);
                        assert(op matches Op::VfMacs { functions, answer: Ok(_) } && functions
                            == f);
                    }
                } else if g.t.names.contains_key(dev) {
                    lemma_ever_later(g, a, seq![op], g.t.names[dev], all[j].1);
                    assert(a + seq![op] =~= ops);
                    assert(s.held(dev).contains(all[j].1));
                }
            }
        }
    } else {
        assert forall|j: int|
            #![trigger all[j]]
            0 <= j < all.len() implies vetted(g, s0, since(l0, l1), all[j]) by {
            let dev = all[j].0;
            assert(!growing.contains(dev));
            if g.t.names.contains_key(dev) {
                assert(s.held(dev).contains(all[j].1));
            }
        }
    }
}

proof fn lemma_batch_grown(
    g: Ground,
    l0: Seq<Op>,
    pfs: Seq<u32>,
    carried: bool,
    fps: Seq<FastModel>,
    events: Seq<(u16, FdbEntry)>,
    base: Urgency,
    s0: SyncerModel,
    s: SyncerModel,
    log: Seq<Op>,
    s2: SyncerModel,
    log2: Seq<Op>,
    r: Result<Urgency, Errno>,
)
    requires
        batch_holds(g, l0, s, log),
        removals_only(since(l0, log)),
        fps == fast_list(g.t, s0.exclude, s.vf_answer(), carried, events, s0.pairs),
        s.exclude == s0.exclude,
        held_within(s0, s),
        !carried ==> forall|k: int|
            0 <= k < s0.pairs.len() ==> asked_about(
                g.t,
                since(l0, log),
                (#[trigger] s0.pairs[k]).dev,
            ),
        batch_grown(g.t, pfs, carried, fps, events, base, s, log, s2, log2, r),
    ensures
        batch_holds(g, l0, s2, log2),
        grew(log, log2),
        batch_may_all(g, s0, s2, events, since(l0, log2)),
{
    if !carried {
        let urgent = choose|urgent: bool| #[trigger]
            batch_committed(g.t, fps, events, s, log, s2, log2, urgent) && r == Ok::<
                Urgency,
                Errno,
            >(urgency_of(base, urgent));
        lemma_grown_afresh(g, l0, fps, events, s0, s, log, s2, log2, urgent);
    } else {
        let (s1, l1, failed) = choose|s1: SyncerModel, l1: Seq<Op>, failed: Option<Errno>|
            {
                &&& #[trigger] growth_settled(g.t, pfs, fps, events, s, log, s1, l1, failed)
                &&& match failed {
                    Some(e) => r == Err::<Urgency, Errno>(e) && s2 == s1 && log2 == l1,
                    None => exists|urgent: bool| #[trigger]
                        batch_committed(
                            g.t,
                            reskipped(g.t, s1.exclude, s1.vf_answer(), fps),
                            events,
                            s1,
                            l1,
                            s2,
                            log2,
                            urgent,
                        ) && r == Ok::<Urgency, Errno>(
                            urgency_of(base, urgent),
                        ),
                }
            };
        lemma_grown_carried(g, l0, pfs, fps, events, s0, s, log, s1, l1, failed);
        if failed is Some {
            lemma_may_none(g, s0, s2, events, since(l0, log2));
        } else {
            let again = reskipped(g.t, s1.exclude, s1.vf_answer(), fps);
            let urgent = choose|urgent: bool| #[trigger]
                batch_committed(g.t, again, events, s1, l1, s2, log2, urgent) && r == Ok::<
                    Urgency,
                    Errno,
                >(urgency_of(base, urgent));
            lemma_reskipped_is_from(
                g.t,
                s0.exclude,
                s.vf_answer(),
                true,
                s1.vf_answer(),
                events,
                s0.pairs,
            );
            lemma_batch_committed(g, l0, again, events, s1, l1, s2, log2, urgent);
            let a = since(l0, l1);
            let all = offered(g.t, s1.carried_wire, again, events, false);
            let first = offered(g.t, s.carried_wire, fps, events, true);
            assert forall|j: int|
                #![trigger all[j]]
                0 <= j < all.len() implies vetted(g, s0, a, all[j]) by {
                let x = lemma_committed_was_decided(
                    g.t,
                    s0.exclude,
                    s.vf_answer(),
                    s1.vf_answer(),
                    events,
                    s0.pairs,
                    s.carried_wire,
                    j,
                );
                assert(vetted(g, s0, a, first[x]));
            }
            lemma_commit_may(g, s0, s1, s2, events, again, a, since(l1, log2));
            lemma_grew_trans(l0, l1, log2);
            lemma_grew_trans(log, l1, log2);
        }
    }
}

proof fn lemma_learns_worked(
    g: Ground,
    l0: Seq<Op>,
    fps: Seq<FastModel>,
    events: Seq<(u16, FdbEntry)>,
    base: Urgency,
    pfs: Seq<u32>,
    carried: bool,
    s0: SyncerModel,
    s: SyncerModel,
    log: Seq<Op>,
    s2: SyncerModel,
    log2: Seq<Op>,
    r: Result<Urgency, Errno>,
)
    requires
        batch_holds(g, l0, s, log),
        removals_only(since(l0, log)),
        fps == fast_list(g.t, s0.exclude, s.vf_answer(), carried, events, s0.pairs),
        s.exclude == s0.exclude,
        held_within(s0, s),
        !carried ==> forall|k: int|
            0 <= k < s0.pairs.len() ==> asked_about(
                g.t,
                since(l0, log),
                (#[trigger] s0.pairs[k]).dev,
            ),
        learns_worked_for(g.t, fps, events, base, pfs, carried, s, log, s2, log2, r),
    ensures
        batch_holds(g, l0, s2, log2),
        grew(log, log2),
        batch_may_all(g, s0, s2, events, since(l0, log2)),
{
    let (s1, l1, urgent) = choose|s1: SyncerModel, l1: Seq<Op>, urgent: bool|
        {
            &&& #[trigger] all_reflected(g.t, fps, s, log, s1, l1, urgent)
            &&& batch_grown(
                g.t,
                pfs,
                carried,
                fps,
                events,
                urgency_of(base, urgent),
                s1,
                l1,
                s2,
                log2,
                r,
            )
        };
    lemma_list_is_from(g.t, s0.exclude, s.vf_answer(), carried, events, s0.pairs);
    lemma_all_reflected(g, l0, fps, s, log, s1, l1, urgent);
    lemma_removals_trans(l0, log, l1);
    lemma_grew_trans(l0, log, l1);
    assert forall|d: Seq<char>, m: Mac| #[trigger] s1.held(d).contains(m) implies s0.held(
        d,
    ).contains(m) by {
        assert(s.held(d).contains(m));
    }
    assert forall|k: int| !carried && 0 <= k < s0.pairs.len() implies asked_about(
        g.t,
        since(l0, l1),
        (#[trigger] s0.pairs[k]).dev,
    ) by {
        lemma_asked_about_later(g.t, since(l0, log), since(log, l1), s0.pairs[k].dev);
    }
    lemma_batch_grown(
        g,
        l0,
        pfs,
        carried,
        fps,
        events,
        urgency_of(base, urgent),
        s0,
        s1,
        l1,
        s2,
        log2,
        r,
    );
    lemma_grew_trans(log, l1, log2);
}

proof fn lemma_learns_answered(
    g: Ground,
    l0: Seq<Op>,
    pfs: Seq<u32>,
    events: Seq<(u16, FdbEntry)>,
    base: Urgency,
    s0: SyncerModel,
    s: SyncerModel,
    log: Seq<Op>,
    s2: SyncerModel,
    log2: Seq<Op>,
    r: Result<Urgency, Errno>,
)
    requires
        batch_holds(g, l0, s, log),
        removals_only(since(l0, log)),
        s.exclude == s0.exclude,
        s.pairs == s0.pairs,
        held_within(s0, s),
        pfs == live_functions(g.t, pair_devs(s0.pairs)),
        learns_answered_by(g.t, pfs, events, base, s, log, s2, log2, r),
    ensures
        batch_holds(g, l0, s2, log2),
        batch_may_all(g, s0, s2, events, since(l0, log2)),
{
    lemma_grew_same(log);
    let (s1, l1, failed) = choose|s1: SyncerModel, l1: Seq<Op>, failed: Option<Errno>|
        {
            &&& #[trigger] answer_first(s, log, pfs, s1, l1, failed)
            &&& match failed {
                Some(e) => r == Err::<Urgency, Errno>(e) && s2 == s1 && log2 == l1,
                None => learns_worked(
                    g.t,
                    events,
                    base,
                    pfs,
                    s.vf_usable(pfs),
                    s1,
                    l1,
                    s2,
                    log2,
                    r,
                ),
            }
        };
    let carried = s.vf_usable(pfs);
    if !carried {
        let op = l1.last();
        lemma_holds_ask(g, l0, s, log, s1, op);
        let a = since(l0, log);
        let ops = since(l0, l1);
        assert(ops =~= a.push(op));
        assert forall|k: int| 0 <= k < ops.len() implies ((#[trigger] ops[k]) matches Op::Card {
            add,
            ..
        } ==> !add) by {
            if k < a.len() {
                assert(ops[k] == a[k]);
            }
        }
        if failed is None {
            assert(ops[a.len() as int] == op);
            assert forall|k: int| 0 <= k < s0.pairs.len() implies asked_about(
                g.t,
                ops,
                (#[trigger] s0.pairs[k]).dev,
            ) by {
                let devs = pair_devs(s0.pairs);
                assert(devs[k] == s0.pairs[k].dev);
                assert(devs.contains(s0.pairs[k].dev));
                let f = live_functions(g.t, devs);
                assert(ops[a.len() as int] matches Op::VfMacs { functions, answer: Ok(_) } && functions == f);
            }
        }
    }
    if failed is Some {
        lemma_may_none(g, s0, s2, events, since(l0, log2));
    } else {
        assert forall|d: Seq<char>, m: Mac| #[trigger] s1.held(d).contains(m) implies s0.held(
            d,
        ).contains(m) by {
            assert(s.held(d).contains(m));
        }
        lemma_learns_worked(
            g,
            l0,
            fast_list(g.t, s1.exclude, s1.vf_answer(), carried, events, s1.pairs),
            events,
            base,
            pfs,
            carried,
            s0,
            s1,
            l1,
            s2,
            log2,
            r,
        );
    }
}

/// A batch keeps to the record: whatever it puts into a card is on the note of
/// that card's device at that moment; whatever it takes out was on the note at
/// some moment of the batch, or was being kept by the last pass.
///
/// And what it puts into a card may be there: see `may_add`.
pub proof fn a_batch_keeps_the_rules(
    t: TopologyModel,
    events: Seq<(u16, FdbEntry)>,
    s: SyncerModel,
    log: Seq<Op>,
    s2: SyncerModel,
    log2: Seq<Op>,
    r: Result<Urgency, Errno>,
)
    requires
        fast_applied(t, events, s, log, s2, log2, r),
    ensures
        sound(
            (Ground { t, dir: s.book.dir, quiet: kept_quiet(t, s) }),
            log,
            s2.book.dir,
            log2,
        ),
        batch_may_all(
            (Ground { t, dir: s.book.dir, quiet: kept_quiet(t, s) }),
            s,
            s2,
            events,
            since(log, log2),
        ),
{
    let g = Ground { t, dir: s.book.dir, quiet: kept_quiet(t, s) };
    lemma_sound_start(g, log);
    lemma_grew_same(log);
    if events.len() == 0 || s.dry_run {
        lemma_may_none(g, s, s2, events, since(log, log2));
    } else {
        let now = choose|now: Moment|
            #![trigger silences_dated(t, events, s, now.boot_millis)]
            if has_kind(events, RTM_NEWNEIGH) {
                learns_answered(
                    t,
                    events,
                    base_urgency(events),
                    silences_dated(t, events, s, now.boot_millis),
                    timed(events, log, now),
                    s2,
                    log2,
                    r,
                )
            } else {
                &&& r == Ok::<Urgency, Errno>(base_urgency(events))
                &&& s2 == silences_dated(t, events, s, now.boot_millis)
                &&& log2 == timed(events, log, now)
            };
        let sd = silences_dated(t, events, s, now.boot_millis);
        let lc = timed(events, log, now);
        if has_kind(events, RTM_DELNEIGH) {
            lemma_filework_one(s.book.dir, log, lc.last());
            lemma_removals_files(s.book.dir, log, s.book.dir, lc);
        } else {
            lemma_filework_same(s.book.dir, log);
        }
        lemma_holds_files(g, log, s, log, sd, lc);
        if has_kind(events, RTM_NEWNEIGH) {
            lemma_learns_answered(
                g,
                log,
                live_functions(t, pair_devs(s.pairs)),
                events,
                base_urgency(events),
                s,
                sd,
                lc,
                s2,
                log2,
                r,
            );
        } else {
            lemma_may_none(g, s, s2, events, since(log, log2));
        }
    }
}

/// A batch of deletions alone asks nothing but the time and takes nothing out:
/// it only puts dates on silences, and is no reason to hurry.
pub proof fn deletions_remove_nothing(
    t: TopologyModel,
    events: Seq<(u16, FdbEntry)>,
    s: SyncerModel,
    log: Seq<Op>,
    s2: SyncerModel,
    log2: Seq<Op>,
    r: Result<Urgency, Errno>,
)
    requires
        fast_applied(t, events, s, log, s2, log2, r),
        !has_kind(events, RTM_NEWNEIGH),
        !s.dry_run,
    ensures
        log2 == log || (log2 == log.push(log2.last()) && log2.last() is Clock),
        s2 == (SyncerModel {
            memory: MemoryModel { carried: s2.memory.carried, ..s.memory },
            ..s
        }),
        r matches Ok(u) && u != Urgency::Now,
{
}

/// An address of ours that a batch saw on the uplink's own port is asked to be
/// taken out of the card in that very batch.
pub proof fn reflected_addresses_are_taken_out(
    t: TopologyModel,
    f: FastModel,
    ours: Set<Mac>,
    s: SyncerModel,
    log: Seq<Op>,
    s2: SyncerModel,
    log2: Seq<Op>,
    urgent: bool,
    m: Mac,
)
    requires
        reflected_out(t, f, ours, s, log, s2, log2, urgent),
        ours.contains(m),
    ensures
        exists|i: int|
            log.len() <= i < log2.len() && ((#[trigger] log2[i]) matches Op::Card {
                ifindex,
                mac,
                add: false,
                ..
            } && ifindex == f.anat.dev && mac == m),
{
    let (v, b1, l1, o) = choose|v: Seq<Mac>, b1: BookModel, l1: Seq<Op>, o: OutcomeModel|
        {
            &&& lists(v, ours)
            &&& #[trigger] taken_out(s.book, log, f.dev, f.anat.dev, v, b1, l1, o, Why::Wire)
            &&& urgent == (o.done.len() > 0 || o.failed.len() > 0)
            &&& reflection_remembered(t, f.dev, v, o, s.with_book(b1), l1, s2, log2)
        };
    assert(v.to_set().contains(m));
    let k = choose|k: int| 0 <= k < v.len() && v[k] == m;
    let i = lemma_taken_out_asks(
        s.book,
        log,
        f.dev,
        f.anat.dev,
        v,
        b1,
        l1,
        o,
        k,
        Why::Wire,
    );
    let sb = s.with_book(b1);
    let s1 = SyncerModel { memory: evicted(sb.memory, f.dev, v.to_set()), ..sb };
    lemma_filework_saved(
        s1.memory,
        s1.book,
        l1,
        t,
        f.dev,
        s1.passed_at(f.dev),
        s1.dry_run,
        s2.memory,
        s2.book,
        log2,
    );
    assert(log2[i] == l1[i]) by {
        assert(log2.take(l1.len() as int)[i] == l1[i]);
    }
}

} // verus!
