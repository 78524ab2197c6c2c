//! Answering a batch of forwarding notifications before the pass that follows.

use vstd::prelude::*;

use crate::keyed::{lemma_push_contains, KeyMap, KeySet};
use crate::mac::Mac;
use crate::netlink::{
    Errno, FdbEntry, FdbWriter, Moment, Op, Recorded, Wall, RTM_DELNEIGH, RTM_NEWNEIGH,
};
use crate::sync::batch::{
    burst_registered, learns_of, lists_devs, offered_to, pair_of, reflection_answered,
};
use crate::sync::decide::{excluded, exclusions, live_functions, live_pfs};
use crate::sync::fast::{
    any_of_kind, batch_concerns, batch_disputes, fast_list, fast_models, fast_pairs, has_kind,
    offer_list, offered, offers_of, reskip, reskipped, well_reached, FastModel, FastPair, Offer,
    OfferModel,
};
use crate::sync::journal::{kept_out_text, say_kept_out};
use crate::sync::memory::{dated, MemoryModel};
use crate::sync::notes::{looked_each, note_looked, owned_in, BookModel, Stage};
use crate::sync::reconcile::{answer_first, devs_of, pair_devs};
use crate::sync::syncer::{same_cost, Syncer, SyncerModel};
use crate::sync::types::Urgency;
use crate::topology::{copy_indices, holds_index, Topology, TopologyModel};
use crate::topology::detect::texts;

verus! {

/// One moment of a batch.
pub struct At {
    pub s: SyncerModel,
    pub log: Seq<Op>,
}

/// Whether the reflections of these pairs were answered one after the other,
/// and which of them make a pass urgent.
pub open spec fn reflections_answered(
    t: TopologyModel,
    fps: Seq<FastModel>,
    ats: Seq<At>,
    urgents: Seq<bool>,
) -> bool {
    &&& ats.len() == fps.len() + 1
    &&& urgents.len() == fps.len()
    &&& forall|i: int|
        #![trigger fps[i]]
        0 <= i < fps.len() ==> reflection_answered(
            t,
            fps[i],
            ats[i].s,
            ats[i].log,
            ats[i + 1].s,
            ats[i + 1].log,
            urgents[i],
        )
}

/// What answering a batch's reflections comes to.
pub open spec fn all_reflected(
    t: TopologyModel,
    fps: Seq<FastModel>,
    s: SyncerModel,
    log: Seq<Op>,
    s2: SyncerModel,
    log2: Seq<Op>,
    urgent: bool,
) -> bool {
    exists|ats: Seq<At>, urgents: Seq<bool>|
        {
            &&& #[trigger] reflections_answered(t, fps, ats, urgents)
            &&& ats[0] == (At { s, log })
            &&& ats.last() == (At { s: s2, log: log2 })
            &&& urgent == exists|i: int| 0 <= i < urgents.len() && #[trigger] urgents[i]
        }
}

/// Whether something offered to an uplink would grow its filter: it is not ours,
/// or the card does not hold it. What is ours and in the card was vetted by the
/// answer that let it in.
pub open spec fn offers_growth(
    offers: Seq<OfferModel>,
    dev: Seq<char>,
    owned: Set<Mac>,
    held: Set<Mac>,
) -> bool {
    exists|i: int|
        0 <= i < offers.len() && (#[trigger] offers[i]).0 == dev && !(owned.contains(offers[i].1)
            && held.contains(offers[i].1))
}

/// Those of a list whose turn it is.
pub open spec fn picked(devs: Seq<Seq<char>>, which: Seq<bool>) -> Seq<Seq<char>>
    decreases devs.len(),
{
    if devs.len() == 0 {
        Seq::empty()
    } else {
        let head = picked(devs.drop_last(), which.drop_last());
        if which.last() {
            head.push(devs.last())
        } else {
            head
        }
    }
}

/// The offers to an uplink that would grow its filter, in order.
pub open spec fn news_of(
    offers: Seq<OfferModel>,
    dev: Seq<char>,
    owned: Set<Mac>,
    held: Set<Mac>,
) -> Seq<OfferModel>
    decreases offers.len(),
{
    if offers.len() == 0 {
        Seq::empty()
    } else {
        let head = news_of(offers.drop_last(), dev, owned, held);
        let o = offers.last();
        if o.0 == dev && !(owned.contains(o.1) && held.contains(o.1)) {
            head.push(o)
        } else {
            head
        }
    }
}

/// The same of every uplink, by its note as it was looked at in turn.
pub open spec fn news_of_all(
    offers: Seq<OfferModel>,
    devs: Seq<Seq<char>>,
    stages: Seq<Stage>,
    s: SyncerModel,
) -> Seq<OfferModel>
    decreases devs.len(),
{
    if devs.len() == 0 {
        Seq::empty()
    } else {
        news_of_all(offers, devs.drop_last(), stages.drop_last(), s) + news_of(
            offers,
            devs.last(),
            owned_in(stages.last().book.dir, devs.last()),
            s.held(devs.last()),
        )
    }
}

/// Which uplinks would grow, by their notes as they are now, and by what.
pub open spec fn growth_found(
    offers: Seq<OfferModel>,
    s: SyncerModel,
    log: Seq<Op>,
    b2: BookModel,
    log2: Seq<Op>,
    growing: Seq<Seq<char>>,
    would: Seq<OfferModel>,
) -> bool {
    exists|devs: Seq<Seq<char>>, stages: Seq<Stage>, which: Seq<bool>|
        {
            &&& lists_devs(devs, offers)
            &&& #[trigger] looked_each(devs, stages)
            &&& stages[0] == (Stage { book: s.book, log })
            &&& stages.last() == (Stage { book: b2, log: log2 })
            &&& which.len() == devs.len()
            &&& forall|i: int|
                0 <= i < devs.len() ==> #[trigger] which[i] == offers_growth(
                    offers,
                    devs[i],
                    owned_in(stages[i + 1].book.dir, devs[i]),
                    s.held(devs[i]),
                )
            &&& growing == #[trigger] picked(devs, which)
            &&& would == news_of_all(offers, devs, stages, s)
        }
}

/// A driver's answer without what it says of these functions.
pub open spec fn answer_without(vf: Seq<(u32, Mac)>, ask: Seq<u32>) -> Seq<(u32, Mac)>
    decreases vf.len(),
{
    if vf.len() == 0 {
        Seq::empty()
    } else {
        let head = answer_without(vf.drop_last(), ask);
        if ask.contains(vf.last().0) {
            head
        } else {
            head.push(vf.last())
        }
    }
}

/// What is said of the offers that would have grown a filter and are excluded
/// after all, by this answer of the driver.
pub open spec fn kept_out_lines(
    t: TopologyModel,
    fps: Seq<FastModel>,
    would: Seq<OfferModel>,
    exclude: Set<Mac>,
    vf: Seq<(u32, Mac)>,
) -> Seq<Seq<char>>
    decreases would.len(),
{
    if would.len() == 0 {
        Seq::empty()
    } else {
        let head = kept_out_lines(t, fps, would.drop_last(), exclude, vf);
        let (dev, mac, _) = would.last();
        match pair_of(fps, dev) {
            Some(f) => if excluded(exclude, t.links, f.anat, vf).contains(mac) {
                head.push(kept_out_text(dev, mac))
            } else {
                head
            },
            None => head,
        }
    }
}

/// The syncer once a fresh answer has been held against what was offered.
pub open spec fn refresh_said(
    t: TopologyModel,
    fps: Seq<FastModel>,
    would: Seq<OfferModel>,
    s: SyncerModel,
) -> SyncerModel {
    s.saying_all(kept_out_lines(t, fps, would, s.exclude, s.vf_answer()))
}

/// What becomes of a carried answer of the driver before a batch that would
/// grow: only the functions of the uplinks that would are asked about, and what
/// is carried about the others stays. Where the driver does not answer the batch
/// ends, and nobody is to believe the carried answer after that.
pub open spec fn answer_refreshed(
    t: TopologyModel,
    pfs: Seq<u32>,
    fps: Seq<FastModel>,
    would: Seq<OfferModel>,
    growing: Seq<Seq<char>>,
    s: SyncerModel,
    log: Seq<Op>,
    s2: SyncerModel,
    log2: Seq<Op>,
    failed: Option<Errno>,
) -> bool {
    let ask = live_functions(t, growing);
    if growing.len() == 0 {
        s2 == s && log2 == log && failed is None
    } else {
        &&& log2 == log.push(log2.last())
        &&& log2.last() matches Op::VfMacs { functions, answer } && functions == ask
            && match answer {
            Ok(v) => {
                &&& s2 == refresh_said(
                    t,
                    fps,
                    would,
                    s.with_answer(pfs, answer_without(s.vf_answer(), ask) + v),
                )
                &&& failed is None
            },
            Err(e) => s2 == (SyncerModel { vf_stale: true, ..s }) && failed == Some(e),
        }
    }
}

/// What deciding with a carried answer comes to: what would be offered is
/// looked at, and the driver is asked where that would grow a filter.
pub open spec fn growth_settled(
    t: TopologyModel,
    pfs: Seq<u32>,
    fps: Seq<FastModel>,
    events: Seq<(u16, FdbEntry)>,
    s: SyncerModel,
    log: Seq<Op>,
    s2: SyncerModel,
    log2: Seq<Op>,
    failed: Option<Errno>,
) -> bool {
    exists|b1: BookModel, l1: Seq<Op>, growing: Seq<Seq<char>>, would: Seq<OfferModel>|
        {
            &&& #[trigger] growth_found(
                offered(t, s.carried_wire, fps, events, true),
                s,
                log,
                b1,
                l1,
                growing,
                would,
            )
            &&& #[trigger] answer_refreshed(
                t,
                pfs,
                fps,
                would,
                growing,
                doubted(t, events, s).with_book(b1),
                l1,
                s2,
                log2,
                failed,
            )
        }
}

/// The syncer once a batch has told it whether its picture is old.
pub open spec fn doubted(
    t: TopologyModel,
    events: Seq<(u16, FdbEntry)>,
    s: SyncerModel,
) -> SyncerModel {
    SyncerModel { disputed: s.disputed || batch_disputes(t, events), ..s }
}

/// Whether these uplinks had their bursts registered one after the other.
pub open spec fn bursts_registered(
    t: TopologyModel,
    fps: Seq<FastModel>,
    offers: Seq<OfferModel>,
    devs: Seq<Seq<char>>,
    ats: Seq<At>,
) -> bool {
    &&& ats.len() == devs.len() + 1
    &&& forall|i: int|
        #![trigger devs[i]]
        0 <= i < devs.len() ==> (pair_of(fps, devs[i]) matches Some(f) && burst_registered(
            t,
            f,
            learns_of(offers, devs[i]),
            ats[i].s,
            ats[i].log,
            ats[i + 1].s,
            ats[i + 1].log,
        ))
}

/// What writing a batch through comes to.
pub open spec fn batch_written(
    t: TopologyModel,
    fps: Seq<FastModel>,
    offers: Seq<OfferModel>,
    s: SyncerModel,
    log: Seq<Op>,
    s2: SyncerModel,
    log2: Seq<Op>,
) -> bool {
    exists|devs: Seq<Seq<char>>, ats: Seq<At>|
        {
            &&& lists_devs(devs, offers)
            &&& #[trigger] bursts_registered(t, fps, offers, devs, ats)
            &&& ats[0] == (At { s, log })
            &&& ats.last() == (At { s: s2, log: log2 })
        }
}

/// What committing a batch comes to: everything offered is registered, by the
/// driver's answer in force. A batch that is any business of ours is worth a
/// pass at once.
pub open spec fn batch_committed(
    t: TopologyModel,
    fps: Seq<FastModel>,
    events: Seq<(u16, FdbEntry)>,
    s: SyncerModel,
    log: Seq<Op>,
    s2: SyncerModel,
    log2: Seq<Op>,
    urgent: bool,
) -> bool {
    &&& urgent == batch_concerns(t, s.carried_wire, fps, events)
    &&& batch_written(
        t,
        fps,
        offered(t, s.carried_wire, fps, events, false),
        doubted(t, events, s),
        log,
        s2,
        log2,
    )
}

/// How urgent a batch is that something made urgent, or did not.
pub open spec fn urgency_of(base: Urgency, urgent: bool) -> Urgency {
    if urgent {
        Urgency::Now
    } else {
        base
    }
}

/// What a batch comes to once the reflections have been answered.
pub open spec fn batch_grown(
    t: TopologyModel,
    pfs: Seq<u32>,
    carried: bool,
    fps: Seq<FastModel>,
    events: Seq<(u16, FdbEntry)>,
    base: Urgency,
    s: SyncerModel,
    log: Seq<Op>,
    s2: SyncerModel,
    log2: Seq<Op>,
    r: Result<Urgency, Errno>,
) -> bool {
    if !carried {
        exists|urgent: bool| #[trigger]
            batch_committed(t, fps, events, s, log, s2, log2, urgent) && r == Ok::<
                Urgency,
                Errno,
            >(urgency_of(base, urgent))
    } else {
        exists|s1: SyncerModel, l1: Seq<Op>, failed: Option<Errno>|
            {
                &&& #[trigger] growth_settled(t, pfs, fps, events, s, log, s1, l1, failed)
                &&& match failed {
                    Some(e) => r == Err::<Urgency, Errno>(e) && s2 == s1 && log2 == l1,
                    None => exists|urgent: bool| #[trigger]
                        batch_committed(
                            t,
                            reskipped(t, s1.exclude, s1.vf_answer(), fps),
                            events,
                            s1,
                            l1,
                            s2,
                            log2,
                            urgent,
                        ) && r == Ok::<Urgency, Errno>(urgency_of(base, urgent)),
                }
            }
    }
}

/// What a batch with learns in it comes to.
pub open spec fn learns_answered(
    t: TopologyModel,
    events: Seq<(u16, FdbEntry)>,
    base: Urgency,
    s: SyncerModel,
    log: Seq<Op>,
    s2: SyncerModel,
    log2: Seq<Op>,
    r: Result<Urgency, Errno>,
) -> bool {
    learns_answered_by(t, live_functions(t, pair_devs(s.pairs)), events, base, s, log, s2, log2, r)
}

/// The same by an answer of the driver about these functions.
pub open spec fn learns_answered_by(
    t: TopologyModel,
    pfs: Seq<u32>,
    events: Seq<(u16, FdbEntry)>,
    base: Urgency,
    s: SyncerModel,
    log: Seq<Op>,
    s2: SyncerModel,
    log2: Seq<Op>,
    r: Result<Urgency, Errno>,
) -> bool {
    exists|s1: SyncerModel, l1: Seq<Op>, failed: Option<Errno>|
        {
            &&& #[trigger] answer_first(s, log, pfs, s1, l1, failed)
            &&& match failed {
                Some(e) => r == Err::<Urgency, Errno>(e) && s2 == s1 && log2 == l1,
                None => learns_worked(t, events, base, pfs, s.vf_usable(pfs), s1, l1, s2, log2, r),
            }
        }
}

/// What a batch with learns in it comes to, once the driver has answered.
pub open spec fn learns_worked(
    t: TopologyModel,
    events: Seq<(u16, FdbEntry)>,
    base: Urgency,
    pfs: Seq<u32>,
    carried: bool,
    s: SyncerModel,
    log: Seq<Op>,
    s2: SyncerModel,
    log2: Seq<Op>,
    r: Result<Urgency, Errno>,
) -> bool {
    learns_worked_for(
        t,
        fast_list(t, s.exclude, s.vf_answer(), carried, events, s.pairs),
        events,
        base,
        pfs,
        carried,
        s,
        log,
        s2,
        log2,
        r,
    )
}

/// What such a batch comes to for these pairs: the reflections first - within
/// one batch the wire has the last word - and then the learns.
pub open spec fn learns_worked_for(
    t: TopologyModel,
    fps: Seq<FastModel>,
    events: Seq<(u16, FdbEntry)>,
    base: Urgency,
    pfs: Seq<u32>,
    carried: bool,
    s: SyncerModel,
    log: Seq<Op>,
    s2: SyncerModel,
    log2: Seq<Op>,
    r: Result<Urgency, Errno>,
) -> bool {
    exists|s1: SyncerModel, l1: Seq<Op>, urgent: bool|
        {
            &&& #[trigger] all_reflected(t, fps, s, log, s1, l1, urgent)
            &&& batch_grown(
                t,
                pfs,
                carried,
                fps,
                events,
                urgency_of(base, urgent),
                s1,
                l1,
                s2,
                log2,
                r,
            )
        }
}

/// The syncer once a batch's deletions have put dates on silences.
pub open spec fn silences_dated(
    t: TopologyModel,
    events: Seq<(u16, FdbEntry)>,
    s: SyncerModel,
    now: u64,
) -> SyncerModel {
    if has_kind(events, RTM_DELNEIGH) {
        SyncerModel {
            memory: MemoryModel {
                carried: dated(s.memory.carried, t, s.pairs, events, now),
                ..s.memory
            },
            ..s
        }
    } else {
        s
    }
}

/// How urgent the deletions of a batch make it: they are a reason to look,
/// never to hurry.
pub open spec fn base_urgency(events: Seq<(u16, FdbEntry)>) -> Urgency {
    if has_kind(events, RTM_DELNEIGH) {
        Urgency::WhenConvenient
    } else {
        Urgency::Nothing
    }
}

/// What has been asked once a batch's deletions have put dates on silences: the
/// clocks, where there are deletions.
pub open spec fn timed(events: Seq<(u16, FdbEntry)>, log: Seq<Op>, now: Moment) -> Seq<Op> {
    if has_kind(events, RTM_DELNEIGH) {
        log.push(Op::Clock { reading: now })
    } else {
        log
    }
}

/// What a batch of notifications comes to.
pub open spec fn fast_applied(
    t: TopologyModel,
    events: Seq<(u16, FdbEntry)>,
    s: SyncerModel,
    log: Seq<Op>,
    s2: SyncerModel,
    log2: Seq<Op>,
    r: Result<Urgency, Errno>,
) -> bool {
    if events.len() == 0 {
        r == Ok::<Urgency, Errno>(Urgency::Nothing) && s2 == s && log2 == log
    } else if s.dry_run {
        r == Ok::<Urgency, Errno>(Urgency::Now) && s2 == s && log2 == log
    } else {
        exists|now: Moment|
            #![trigger silences_dated(t, events, s, now.boot_millis)]
            if has_kind(events, RTM_NEWNEIGH) {
                learns_answered(
                    t,
                    events,
                    base_urgency(events),
                    silences_dated(t, events, s, now.boot_millis),
                    timed(events, log, now),
                    s2,
                    log2,
                    r,
                )
            } else {
                &&& r == Ok::<Urgency, Errno>(base_urgency(events))
                &&& s2 == silences_dated(t, events, s, now.boot_millis)
                &&& log2 == timed(events, log, now)
            }
    }
}

/// The uplinks that something is offered to, each once.
fn devs_offered(v: &Vec<Offer>) -> (r: Vec<String>)
    ensures
        lists_devs(texts(r@), offer_list(v@)),
{
    let ghost offers = offer_list(v@);
    let mut seen: KeySet<String> = KeySet::new();
    let mut out: Vec<String> = Vec::new();
    let mut i: usize = 0;
    assert(texts(out@) =~= Seq::empty());
    while i < v.len()
        invariant
            offers == offer_list(v@),
            i <= v@.len(),
            texts(out@).no_duplicates(),
            forall|d: Seq<char>| #[trigger] seen@.contains(d) <==> texts(out@).contains(d),
            forall|d: Seq<char>| #[trigger]
                texts(out@).contains(d) <==> exists|j: int|
                    0 <= j < i && (#[trigger] offers[j]).0 == d,
        decreases v@.len() - i,
    {
        let dev = &v[i].0;
        let ghost out0 = texts(out@);
        assert(offers[i as int].0 == dev@);
        if seen.insert(dev.clone()) {
            let copy = dev.clone();
            let ghost vo = out@;
            out.push(copy);
            proof {
                assert(texts(out@) =~= out0.push(dev@));
                lemma_push_contains(out0, dev@);
                assert forall|j: int| 0 <= j < out0.len() implies out0[j] != dev@ by {
                    assert(out0.contains(out0[j]));
                }
            }
        }
        proof {
            assert forall|d: Seq<char>| #[trigger]
                texts(out@).contains(d) <==> exists|j: int|
                    0 <= j < i + 1 && (#[trigger] offers[j]).0 == d by {
                if out0.contains(d) {
                    let j = choose|j: int| 0 <= j < i && (#[trigger] offers[j]).0 == d;
                    assert(offers[j].0 == d);
                }
                if d == dev@ {
                    assert(offers[i as int].0 == d);
                }
            }
        }
        i += 1;
    }
    proof {
        assert forall|d: Seq<char>| #[trigger] texts(out@).contains(d) <==> offered_to(
            offers,
            d,
        ) by {}
    }
    out
}

/// The addresses offered to an uplink, each with the port of its last learn.
fn learns_for(v: &Vec<Offer>, dev: &String) -> (r: KeyMap<Mac, u32>)
    ensures
        r@ == learns_of(offer_list(v@), dev@),
{
    let ghost offers = offer_list(v@);
    let mut out: KeyMap<Mac, u32> = KeyMap::new();
    let mut i: usize = 0;
    assert(offers.take(0) =~= Seq::empty());
    while i < v.len()
        invariant
            offers == offer_list(v@),
            i <= v@.len(),
            out@ == learns_of(offers.take(i as int), dev@),
        decreases v@.len() - i,
    {
        proof {
            let next = offers.take(i + 1);
            assert(next.drop_last() =~= offers.take(i as int));
            assert(next.last() == offers[i as int]);
        }
        if v[i].0 == *dev {
            out.insert(v[i].1, v[i].2);
        }
        i += 1;
    }
    assert(offers.take(i as int) =~= offers);
    out
}

/// What must never be registered for each of these pairs.
fn all_exclusions(
    exclude: &KeySet<Mac>,
    topo: &Topology,
    fps: &Vec<FastPair>,
    vf: &Vec<(u32, Mac)>,
) -> (r: Vec<KeySet<Mac>>)
    ensures
        r@.len() == fps@.len(),
        forall|k: int|
            0 <= k < fps@.len() ==> (#[trigger] r@[k])@ == excluded(
                exclude@,
                topo@.links,
                fps@[k].anat@,
                vf@,
            ),
{
    let mut out: Vec<KeySet<Mac>> = Vec::new();
    let mut i: usize = 0;
    while i < fps.len()
        invariant
            i <= fps@.len(),
            out@.len() == i,
            forall|k: int|
                0 <= k < i ==> (#[trigger] out@[k])@ == excluded(
                    exclude@,
                    topo@.links,
                    fps@[k].anat@,
                    vf@,
                ),
        decreases fps@.len() - i,
    {
        out.push(exclusions(exclude, topo, &fps[i].anat, vf));
        i += 1;
    }
    out
}

/// The place of the first pair of a device.
fn find_pair(fps: &Vec<FastPair>, dev: &String) -> (r: Option<usize>)
    ensures
        match r {
            Some(k) => k < fps@.len() && pair_of(fast_models(fps@), dev@) == Some(fps@[k as int]@),
            None => pair_of(fast_models(fps@), dev@) is None,
        },
{
    let ghost all = fast_models(fps@);
    let mut i: usize = 0;
    let mut found: Option<usize> = None;
    assert(all.take(0) =~= Seq::empty());
    while i < fps.len()
        invariant
            all == fast_models(fps@),
            i <= fps@.len(),
            match found {
                Some(k) => k < i && pair_of(all.take(i as int), dev@) == Some(fps@[k as int]@),
                None => pair_of(all.take(i as int), dev@) is None,
            },
        decreases fps@.len() - i,
    {
        proof {
            let next = all.take(i + 1);
            assert(next.drop_last() =~= all.take(i as int));
            assert(next.last() == fps@[i as int]@);
        }
        if found.is_none() && fps[i].dev == *dev {
            found = Some(i);
        }
        i += 1;
    }
    assert(all.take(i as int) =~= all);
    found
}

/// Puts the offers to an uplink that would grow its filter at the end of a list.
/// Whether there are any.
fn add_news(
    out: &mut Vec<Offer>,
    v: &Vec<Offer>,
    dev: &String,
    owned: &KeySet<Mac>,
    held: &KeySet<Mac>,
) -> (r: bool)
    ensures
        offer_list(final(out)@) == offer_list(old(out)@) + news_of(
            offer_list(v@),
            dev@,
            owned@,
            held@,
        ),
        r == offers_growth(offer_list(v@), dev@, owned@, held@),
{
    let ghost offers = offer_list(v@);
    let ghost before = offer_list(out@);
    let mut any = false;
    let mut i: usize = 0;
    proof {
        assert(offers.take(0) =~= Seq::empty());
        assert(before + Seq::<OfferModel>::empty() =~= before);
    }
    while i < v.len()
        invariant
            offers == offer_list(v@),
            i <= v@.len(),
            offer_list(out@) == before + news_of(offers.take(i as int), dev@, owned@, held@),
            any <==> exists|j: int|
                0 <= j < i && (#[trigger] offers[j]).0 == dev@ && !(owned@.contains(offers[j].1)
                    && held@.contains(offers[j].1)),
        decreases v@.len() - i,
    {
        let o = &v[i];
        let ghost head = news_of(offers.take(i as int), dev@, owned@, held@);
        proof {
            let next = offers.take(i + 1);
            assert(next.drop_last() =~= offers.take(i as int));
            assert(next.last() == (o.0@, o.1, o.2));
            assert(offers[i as int] == (o.0@, o.1, o.2));
        }
        if o.0 == *dev && !(owned.contains(&o.1) && held.contains(&o.1)) {
            let ghost was = out@;
            let copy: Offer = (o.0.clone(), o.1, o.2);
            out.push(copy);
            any = true;
            proof {
                assert(offer_list(out@) =~= offer_list(was).push((o.0@, o.1, o.2)));
                assert((before + head).push((o.0@, o.1, o.2)) =~= before + head.push(
                    (o.0@, o.1, o.2),
                ));
            }
        }
        i += 1;
    }
    assert(offers.take(i as int) =~= offers);
    any
}

/// A driver's answer without what it says of these functions.
fn drop_answers(vf: &Vec<(u32, Mac)>, ask: &Vec<u32>) -> (r: Vec<(u32, Mac)>)
    ensures
        r@ == answer_without(vf@, ask@),
{
    let mut out: Vec<(u32, Mac)> = Vec::new();
    let mut i: usize = 0;
    assert(vf@.take(0) =~= Seq::empty());
    while i < vf.len()
        invariant
            i <= vf@.len(),
            out@ == answer_without(vf@.take(i as int), ask@),
        decreases vf@.len() - i,
    {
        proof {
            let next = vf@.take(i + 1);
            assert(next.drop_last() =~= vf@.take(i as int));
            assert(next.last() == vf@[i as int]);
        }
        if !holds_index(ask, vf[i].0) {
            out.push(vf[i]);
        }
        i += 1;
    }
    assert(vf@.take(i as int) =~= vf@);
    out
}

impl Syncer {
    /// Answers what a batch saw on the uplinks' own ports. Whether that makes a
    /// pass urgent.
    fn answer_reflections<W: FdbWriter>(
        &mut self,
        sock: &mut Recorded<W>,
        topo: &Topology,
        fps: &Vec<FastPair>,
    ) -> (r: bool)
        ensures
            same_cost(*old(self), *final(self)),
            all_reflected(
                topo@,
                fast_models(fps@),
                old(self)@,
                old(sock).log(),
                final(self)@,
                final(sock).log(),
                r,
            ),
    {
        let ghost all = fast_models(fps@);
        let ghost first = At { s: self@, log: sock.log() };
        let ghost mut ats: Seq<At> = seq![first];
        let ghost mut urgents: Seq<bool> = Seq::empty();
        let mut urgent = false;
        let mut i: usize = 0;
        assert(all.take(0) =~= Seq::empty());
        while i < fps.len()
            invariant
                same_cost(*old(self), *self),
                all == fast_models(fps@),
                i <= fps@.len(),
                first == (At { s: old(self)@, log: old(sock).log() }),
                reflections_answered(topo@, all.take(i as int), ats, urgents),
                ats[0] == first,
                ats.last() == (At { s: self@, log: sock.log() }),
                urgent == exists|j: int| 0 <= j < urgents.len() && #[trigger] urgents[j],
            decreases fps@.len() - i,
        {
            let ghost ats0 = ats;
            let ghost urgents0 = urgents;
            let ghost urgent0 = urgent;
            let now = self.answer_reflection(sock, topo, &fps[i]);
            if now {
                urgent = true;
            }
            proof {
                ats = ats0.push(At { s: self@, log: sock.log() });
                urgents = urgents0.push(now);
                let done = all.take(i as int);
                let next = all.take(i + 1);
                assert(next[i as int] == fps@[i as int]@);
                assert forall|j: int|
                    #![trigger next[j]]
                    0 <= j < next.len() implies reflection_answered(
                    topo@,
                    next[j],
                    ats[j].s,
                    ats[j].log,
                    ats[j + 1].s,
                    ats[j + 1].log,
                    urgents[j],
                ) by {
                    if j < i {
                        assert(done[j] == next[j]);
                        assert(ats[j] == ats0[j]);
                        assert(ats[j + 1] == ats0[j + 1]);
                        assert(urgents[j] == urgents0[j]);
                    }
                }
                assert(urgents[urgents.len() - 1] == now);
                if urgent0 {
                    let j = choose|j: int| 0 <= j < urgents0.len() && #[trigger] urgents0[j];
                    assert(urgents[j]);
                }
                if exists|j: int| 0 <= j < urgents.len() && #[trigger] urgents[j] {
                    let j = choose|j: int| 0 <= j < urgents.len() && #[trigger] urgents[j];
                    if j < urgents0.len() {
                        assert(urgents0[j]);
                    }
                }
            }
            i += 1;
        }
        assert(all.take(i as int) =~= all);
        assert(reflections_answered(topo@, all, ats, urgents));
        urgent
    }

    /// Which uplinks would grow, by their notes as they are now.
    fn find_growth<W: FdbWriter>(
        &mut self,
        sock: &mut Recorded<W>,
        offers: &Vec<Offer>,
    ) -> (r: (Vec<String>, Vec<Offer>))
        ensures
            same_cost(*old(self), *final(self)),
            growth_found(
                offer_list(offers@),
                old(self)@,
                old(sock).log(),
                final(self)@.book,
                final(sock).log(),
                texts(r.0@),
                offer_list(r.1@),
            ),
            final(self)@ == old(self)@.with_book(final(self)@.book),
    {
        let ghost s = self@;
        let ghost all = offer_list(offers@);
        let devs = devs_offered(offers);
        let ghost names = texts(devs@);
        let ghost first = Stage { book: self@.book, log: sock.log() };
        let ghost mut stages: Seq<Stage> = seq![first];
        let ghost mut which: Seq<bool> = Seq::empty();
        let mut out: Vec<String> = Vec::new();
        let mut would: Vec<Offer> = Vec::new();
        let mut i: usize = 0;
        proof {
            assert(names.take(0) =~= Seq::empty());
            assert(texts(out@) =~= Seq::empty());
            assert(offer_list(would@) =~= Seq::empty());
        }
        while i < devs.len()
            invariant
                same_cost(*old(self), *self),
                offer_list(would@) == news_of_all(all, names.take(i as int), stages, s),
                all == offer_list(offers@),
                names == texts(devs@),
                i <= devs@.len(),
                self@ == s.with_book(self@.book),
                looked_each(names.take(i as int), stages),
                stages[0] == first,
                stages.last() == (Stage { book: self@.book, log: sock.log() }),
                which.len() == i,
                forall|j: int|
                    0 <= j < i ==> #[trigger] which[j] == offers_growth(
                        all,
                        names[j],
                        owned_in(stages[j + 1].book.dir, names[j]),
                        s.held(names[j]),
                    ),
                texts(out@) == picked(names.take(i as int), which),
            decreases devs@.len() - i,
        {
            let ghost stages0 = stages;
            let ghost which0 = which;
            let ghost out0 = texts(out@);
            let dev = &devs[i];
            let owned = self.book.load_owned(sock, dev);
            let none: KeySet<Mac> = KeySet::new();
            let held: &KeySet<Mac> = match self.carried.get(dev) {
                Some(c) => &c.present,
                None => &none,
            };
            assert(held@ == s.held(dev@));
            let grows = add_news(&mut would, offers, dev, &owned, held);
            if grows {
                let ghost vo = out@;
                let copy = dev.clone();
                out.push(copy);
                assert(texts(out@) =~= out0.push(dev@));
            }
            proof {
                stages = stages0.push(Stage { book: self@.book, log: sock.log() });
                which = which0.push(grows);
                let done = names.take(i as int);
                let next = names.take(i + 1);
                assert(next.drop_last() =~= done);
                assert(next.last() == dev@);
                assert(which.drop_last() =~= which0);
                assert(stages.drop_last() =~= stages0);
                assert forall|j: int|
                    #![trigger next[j]]
                    0 <= j < next.len() implies note_looked(
                    stages[j].book,
                    stages[j].log,
                    next[j],
                    stages[j + 1].book,
                    stages[j + 1].log,
                ) by {
                    if j < i {
                        assert(done[j] == next[j]);
                        assert(stages[j] == stages0[j]);
                        assert(stages[j + 1] == stages0[j + 1]);
                    }
                }
                assert forall|j: int| 0 <= j < i + 1 implies #[trigger] which[j] == offers_growth(
                    all,
                    names[j],
                    owned_in(stages[j + 1].book.dir, names[j]),
                    s.held(names[j]),
                ) by {
                    if j < i {
                        assert(which[j] == which0[j]);
                        assert(stages[j + 1] == stages0[j + 1]);
                    }
                }
            }
            i += 1;
        }
        proof {
            assert(names.take(i as int) =~= names);
            assert(looked_each(names, stages));
            assert(texts(out@) == picked(names, which));
        }
        (out, would)
    }

    /// Says which of the addresses that were about to be registered the driver's
    /// fresh answer keeps out.
    fn tell_kept_out(&mut self, topo: &Topology, fps: &Vec<FastPair>, would: &Vec<Offer>)
        ensures
            same_cost(*old(self), *final(self)),
            final(self)@ == refresh_said(
                topo@,
                fast_models(fps@),
                offer_list(would@),
                old(self)@,
            ),
    {
        let ghost s = self@;
        let ghost models = fast_models(fps@);
        let ghost all = offer_list(would@);
        let vf = self.answer_in_force();
        let skips = all_exclusions(&self.exclude, topo, fps, &vf);
        let mut i: usize = 0;
        proof {
            assert(all.take(0) =~= Seq::empty());
            assert(s.book.journal + Seq::<Seq<char>>::empty() =~= s.book.journal);
        }
        while i < would.len()
            invariant
                i <= would@.len(),
                models == fast_models(fps@),
                all == offer_list(would@),
                skips@.len() == fps@.len(),
                forall|k: int|
                    0 <= k < fps@.len() ==> (#[trigger] skips@[k])@ == excluded(
                        s.exclude,
                        topo@.links,
                        fps@[k].anat@,
                        s.vf_answer(),
                    ),
                same_cost(*old(self), *self),
                self@ == s.saying_all(
                    kept_out_lines(topo@, models, all.take(i as int), s.exclude, s.vf_answer()),
                ),
            decreases would@.len() - i,
        {
            let o = &would[i];
            let ghost head = kept_out_lines(
                topo@,
                models,
                all.take(i as int),
                s.exclude,
                s.vf_answer(),
            );
            proof {
                let next = all.take(i + 1);
                assert(next.drop_last() =~= all.take(i as int));
                assert(next.last() == (o.0@, o.1, o.2));
            }
            if let Some(k) = find_pair(fps, &o.0) {
                if skips[k].contains(&o.1) {
                    let line = say_kept_out(&o.0, &o.1);
                    assert((s.book.journal + head).push(line@) =~= s.book.journal + head.push(
                        line@,
                    ));
                    self.book.say(line);
                }
            }
            i += 1;
        }
        assert(all.take(i as int) =~= all);
    }

    /// Replaces a carried answer of the driver where a batch would grow.
    fn refresh_answer<W: FdbWriter>(
        &mut self,
        sock: &mut Recorded<W>,
        topo: &Topology,
        pfs: &Vec<u32>,
        fps: &Vec<FastPair>,
        would: &Vec<Offer>,
        growing: &Vec<String>,
    ) -> (r: Result<bool, Errno>)
        ensures
            same_cost(*old(self), *final(self)),
            answer_refreshed(
                topo@,
                pfs@,
                fast_models(fps@),
                offer_list(would@),
                texts(growing@),
                old(self)@,
                old(sock).log(),
                final(self)@,
                final(sock).log(),
                match r {
                    Ok(_) => None,
                    Err(e) => Some(e),
                },
            ),
    {
        assert(texts(growing@).len() == growing@.len());
        if growing.len() == 0 {
            return Ok(false);
        }
        self.vf_stale = true;
        let ask = live_pfs(topo, growing);
        match sock.vf_macs_of(&ask) {
            Ok(v) => {
                let vf = self.answer_in_force();
                let mut fresh = drop_answers(&vf, &ask);
                let mut more = v;
                let ghost head = fresh@;
                let ghost tail = more@;
                fresh.append(&mut more);
                assert(fresh@ =~= head + tail);
                self.remember_vf(copy_indices(pfs), fresh);
                self.tell_kept_out(topo, fps, would);
                Ok(true)
            },
            Err(e) => Err(e),
        }
    }

    /// Registers everything that a batch offers, by the driver's answer in
    /// force. Whether the batch was any of our business.
    fn commit_batch<W: FdbWriter>(
        &mut self,
        sock: &mut Recorded<W>,
        topo: &Topology,
        events: &Vec<(u16, FdbEntry)>,
        fps: &Vec<FastPair>,
    ) -> (r: bool)
        requires
            forall|i: int| 0 <= i < fps@.len() ==> well_reached(topo@, #[trigger] fps@[i]),
        ensures
            same_cost(*old(self), *final(self)),
            batch_committed(
                topo@,
                fast_models(fps@),
                events@,
                old(self)@,
                old(sock).log(),
                final(self)@,
                final(sock).log(),
                r,
            ),
    {
        let ghost s0 = self@;
        let ghost log = sock.log();
        let ghost models = fast_models(fps@);
        let (offers, ours) = self.fast_offers(topo, events, fps, false);
        let ghost s = self@;
        let ghost all = offer_list(offers@);
        assert(all == offered(topo@, s0.carried_wire, models, events@, false));
        let devs = devs_offered(&offers);
        let ghost names = texts(devs@);
        let ghost first = At { s: self@, log: sock.log() };
        let ghost mut ats: Seq<At> = seq![first];
        let mut i: usize = 0;
        assert(names.take(0) =~= Seq::empty());
        while i < devs.len()
            invariant
                same_cost(*old(self), *self),
                all == offer_list(offers@),
                all == offered(topo@, s0.carried_wire, models, events@, false),
                models == fast_models(fps@),
                names == texts(devs@),
                lists_devs(names, all),
                i <= devs@.len(),
                bursts_registered(topo@, models, all, names.take(i as int), ats),
                ats[0] == first,
                ats.last() == (At { s: self@, log: sock.log() }),
            decreases devs@.len() - i,
        {
            let ghost ats0 = ats;
            let dev = &devs[i];
            let learnt = learns_for(&offers, dev);
            proof {
                assert(names[i as int] == dev@);
                assert(names.contains(dev@));
                lemma_offer_has_pair(topo@, s0.carried_wire, models, events@, false, dev@);
            }
            if let Some(k) = find_pair(fps, dev) {
                self.register_burst(sock, topo, &fps[k], &learnt);
                proof {
                    ats = ats0.push(At { s: self@, log: sock.log() });
                    let done = names.take(i as int);
                    let next = names.take(i + 1);
                    assert(next[i as int] == dev@);
                    assert forall|j: int|
                        #![trigger next[j]]
                        0 <= j < next.len() implies (pair_of(models, next[j]) matches Some(f)
                        && burst_registered(
                        topo@,
                        f,
                        learns_of(all, next[j]),
                        ats[j].s,
                        ats[j].log,
                        ats[j + 1].s,
                        ats[j + 1].log,
                    )) by {
                        if j < i {
                            assert(done[j] == next[j]);
                            assert(ats[j] == ats0[j]);
                            assert(ats[j + 1] == ats0[j + 1]);
                        }
                    }
                }
            }
            i += 1;
        }
        proof {
            assert(names.take(i as int) =~= names);
            assert(bursts_registered(topo@, models, all, names, ats));
            assert(batch_written(topo@, models, all, s, log, self@, sock.log()));
        }
        ours
    }
}

impl Syncer {
    /// Settles what a carried answer of the driver may not decide.
    fn settle_growth<W: FdbWriter>(
        &mut self,
        sock: &mut Recorded<W>,
        topo: &Topology,
        events: &Vec<(u16, FdbEntry)>,
        pfs: &Vec<u32>,
        fps: &Vec<FastPair>,
    ) -> (r: Result<bool, Errno>)
        requires
            forall|i: int| 0 <= i < fps@.len() ==> well_reached(topo@, #[trigger] fps@[i]),
        ensures
            same_cost(*old(self), *final(self)),
            growth_settled(
                topo@,
                pfs@,
                fast_models(fps@),
                events@,
                old(self)@,
                old(sock).log(),
                final(self)@,
                final(sock).log(),
                match r {
                    Ok(_) => None,
                    Err(e) => Some(e),
                },
            ),
    {
        let ghost s = self@;
        let ghost log = sock.log();
        let (offers, _) = self.fast_offers(topo, events, fps, true);
        let ghost s1 = self@;
        assert(s1 == doubted(topo@, events@, s));
        let (growing, would) = self.find_growth(sock, &offers);
        let ghost b1 = self@.book;
        let ghost l1 = sock.log();
        proof {
            assert(s1.book == s.book);
            lemma_growth_found(
                offer_list(offers@),
                s1,
                s,
                log,
                b1,
                l1,
                texts(growing@),
                offer_list(would@),
            );
        }
        let r = self.refresh_answer(sock, topo, pfs, fps, &would, &growing);
        assert(growth_found(
            offered(topo@, s.carried_wire, fast_models(fps@), events@, true),
            s,
            log,
            b1,
            l1,
            texts(growing@),
            offer_list(would@),
        ));
        r
    }

    /// What a batch comes to once the reflections have been answered.
    fn grow_batch<W: FdbWriter>(
        &mut self,
        sock: &mut Recorded<W>,
        topo: &Topology,
        events: &Vec<(u16, FdbEntry)>,
        pfs: &Vec<u32>,
        carried: bool,
        fps: Vec<FastPair>,
        base: Urgency,
    ) -> (r: Result<Urgency, Errno>)
        requires
            forall|i: int| 0 <= i < fps@.len() ==> well_reached(topo@, #[trigger] fps@[i]),
        ensures
            same_cost(*old(self), *final(self)),
            batch_grown(
                topo@,
                pfs@,
                carried,
                fast_models(fps@),
                events@,
                base,
                old(self)@,
                old(sock).log(),
                final(self)@,
                final(sock).log(),
                r,
            ),
    {
        let ghost s = self@;
        let ghost log = sock.log();
        if !carried {
            let urgent = self.commit_batch(sock, topo, events, &fps);
            assert(batch_committed(
                topo@,
                fast_models(fps@),
                events@,
                s,
                log,
                self@,
                sock.log(),
                urgent,
            ));
            return Ok(
                if urgent {
                    Urgency::Now
                } else {
                    base
                },
            );
        }
        let ghost models = fast_models(fps@);
        let settled = self.settle_growth(sock, topo, events, pfs, &fps);
        let ghost s1 = self@;
        let ghost l1 = sock.log();
        match settled {
            Err(e) => {
                assert(growth_settled(
                    topo@,
                    pfs@,
                    models,
                    events@,
                    s,
                    log,
                    s1,
                    l1,
                    Some(e),
                ));
                Err(e)
            },
            Ok(_) => {
                assert(growth_settled(topo@, pfs@, models, events@, s, log, s1, l1, None));
                let vf = self.answer_in_force();
                let again = reskip(fps, &self.exclude, topo, &vf);
                let urgent = self.commit_batch(sock, topo, events, &again);
                assert(batch_committed(
                    topo@,
                    reskipped(topo@, s1.exclude, s1.vf_answer(), models),
                    events@,
                    s1,
                    l1,
                    self@,
                    sock.log(),
                    urgent,
                ));
                Ok(
                    if urgent {
                        Urgency::Now
                    } else {
                        base
                    },
                )
            },
        }
    }

    /// What a batch with learns in it comes to.
    fn answer_learns<W: FdbWriter>(
        &mut self,
        sock: &mut Recorded<W>,
        topo: &Topology,
        events: &Vec<(u16, FdbEntry)>,
        base: Urgency,
    ) -> (r: Result<Urgency, Errno>)
        ensures
            same_cost(*old(self), *final(self)),
            learns_answered(
                topo@,
                events@,
                base,
                old(self)@,
                old(sock).log(),
                final(self)@,
                final(sock).log(),
                r,
            ),
    {
        let ghost s = self@;
        let ghost log = sock.log();
        let devs = devs_of(&self.pairs);
        let pfs = live_pfs(topo, &devs);
        let first = self.first_answer(sock, &pfs);
        let ghost s1 = self@;
        let ghost l1 = sock.log();
        let carried = match first {
            Ok(c) => c,
            Err(e) => {
                assert(answer_first(s, log, pfs@, s1, l1, Some(e)));
                return Err(e);
            },
        };
        assert(answer_first(s, log, pfs@, s1, l1, None));
        let vf = self.answer_in_force();
        let fps = fast_pairs(&self.pairs, &self.exclude, topo, &vf, carried, events);
        let ghost models = fast_models(fps@);
        let urgent = self.answer_reflections(sock, topo, &fps);
        let ghost s2 = self@;
        let ghost l2 = sock.log();
        assert(all_reflected(topo@, models, s1, l1, s2, l2, urgent));
        let now = if urgent {
            Urgency::Now
        } else {
            base
        };
        let r = self.grow_batch(sock, topo, events, &pfs, carried, fps, now);
        assert(learns_worked_for(
            topo@,
            models,
            events@,
            base,
            pfs@,
            carried,
            s1,
            l1,
            self@,
            sock.log(),
            r,
        ));
        r
    }

    /// Answers a batch of forwarding notifications before the pass that follows,
    /// or a device that has only just appeared misses the first reply sent to
    /// it. How soon the batch needs a full pass.
    ///
    /// One rule read both ways: an address learnt behind the bridge is
    /// registered; one of ours learnt on the uplink's own port has moved to
    /// another host and comes out of the filter at once. A deletion removes
    /// nothing: a bridge may learn an address once per VLAN, and only a full
    /// dump can tell that the last one is gone.
    pub fn fast_apply<W: FdbWriter>(
        &mut self,
        sock: &mut Recorded<W>,
        topo: &Topology,
        events: &Vec<(u16, FdbEntry)>,
    ) -> (r: Result<Urgency, Errno>)
        ensures
            same_cost(*old(self), *final(self)),
            fast_applied(
                topo@,
                events@,
                old(self)@,
                old(sock).log(),
                final(self)@,
                final(sock).log(),
                r,
            ),
    {
        if events.len() == 0 {
            return Ok(Urgency::Nothing);
        }
        if self.dry_run {
            return Ok(Urgency::Now);
        }
        let ghost s = self@;
        let ghost log = sock.log();
        let mut base = Urgency::Nothing;
        let ghost mut at = Moment { boot_millis: 0, nanos: 0, wall: Wall { secs: 0, nanos: 0 } };
        if any_of_kind(events, RTM_DELNEIGH) {
            let now = sock.now();
            proof {
                at = now;
            }
            self.memory.date_the_silence(&self.pairs, topo, events, now.boot_millis);
            base = Urgency::WhenConvenient;
        }
        assert(self@ == silences_dated(topo@, events@, s, at.boot_millis));
        assert(sock.log() == timed(events@, log, at));
        if !any_of_kind(events, RTM_NEWNEIGH) {
            return Ok(base);
        }
        self.answer_learns(sock, topo, events, base)
    }
}

proof fn lemma_growth_found(
    offers: Seq<OfferModel>,
    s: SyncerModel,
    s2: SyncerModel,
    log: Seq<Op>,
    b: BookModel,
    log2: Seq<Op>,
    growing: Seq<Seq<char>>,
    would: Seq<OfferModel>,
)
    requires
        growth_found(offers, s, log, b, log2, growing, would),
        s2.book == s.book,
        s2.carried == s.carried,
    ensures
        growth_found(offers, s2, log, b, log2, growing, would),
{
    let (devs, stages, which) = choose|devs: Seq<Seq<char>>, stages: Seq<Stage>, which: Seq<bool>|
        {
            &&& lists_devs(devs, offers)
            &&& #[trigger] looked_each(devs, stages)
            &&& stages[0] == (Stage { book: s.book, log })
            &&& stages.last() == (Stage { book: b, log: log2 })
            &&& which.len() == devs.len()
            &&& forall|i: int|
                0 <= i < devs.len() ==> #[trigger] which[i] == offers_growth(
                    offers,
                    devs[i],
                    owned_in(stages[i + 1].book.dir, devs[i]),
                    s.held(devs[i]),
                )
            &&& growing == #[trigger] picked(devs, which)
            &&& would == news_of_all(offers, devs, stages, s)
        };
    assert forall|i: int| 0 <= i < devs.len() implies #[trigger] which[i] == offers_growth(
        offers,
        devs[i],
        owned_in(stages[i + 1].book.dir, devs[i]),
        s2.held(devs[i]),
    ) by {
        assert(s2.held(devs[i]) == s.held(devs[i]));
    }
    lemma_news_same(offers, devs, stages, s, s2);
    assert(looked_each(devs, stages));
    assert(growing == picked(devs, which));
}

proof fn lemma_news_same(
    offers: Seq<OfferModel>,
    devs: Seq<Seq<char>>,
    stages: Seq<Stage>,
    s: SyncerModel,
    s2: SyncerModel,
)
    requires
        s2.carried == s.carried,
    ensures
        news_of_all(offers, devs, stages, s2) == news_of_all(offers, devs, stages, s),
    decreases devs.len(),
{
    if devs.len() > 0 {
        lemma_news_same(offers, devs.drop_last(), stages.drop_last(), s, s2);
        assert(s2.held(devs.last()) == s.held(devs.last()));
    }
}

/// What is offered to a device is offered to a pair of it.
proof fn lemma_offer_has_pair(
    t: TopologyModel,
    wires: Map<Seq<char>, Set<Mac>>,
    fps: Seq<FastModel>,
    events: Seq<(u16, FdbEntry)>,
    deciding: bool,
    dev: Seq<char>,
)
    requires
        offered_to(offered(t, wires, fps, events, deciding), dev),
    ensures
        pair_of(fps, dev) is Some,
    decreases events.len(),
{
    let all = offered(t, wires, fps, events, deciding);
    let i = choose|i: int| 0 <= i < all.len() && (#[trigger] all[i]).0 == dev;
    let head = offered(t, wires, fps, events.drop_last(), deciding);
    if i < head.len() {
        assert(head[i].0 == dev);
        lemma_offer_has_pair(t, wires, fps, events.drop_last(), deciding, dev);
    } else {
        let e = events.last().1;
        let tail = offers_of(t, wires, fps, e, deciding);
        assert(tail[i - head.len()].0 == dev);
        lemma_offer_of_pair(t, wires, fps, e, deciding, i - head.len());
    }
}

proof fn lemma_offer_of_pair(
    t: TopologyModel,
    wires: Map<Seq<char>, Set<Mac>>,
    fps: Seq<FastModel>,
    e: FdbEntry,
    deciding: bool,
    i: int,
)
    requires
        0 <= i < offers_of(t, wires, fps, e, deciding).len(),
    ensures
        pair_of(fps, offers_of(t, wires, fps, e, deciding)[i].0) is Some,
    decreases fps.len(),
{
    if fps.len() > 0 {
        let head = offers_of(t, wires, fps.drop_last(), e, deciding);
        if i < head.len() {
            lemma_offer_of_pair(t, wires, fps.drop_last(), e, deciding, i);
        }
    }
}

} // verus!
