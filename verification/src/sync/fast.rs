//! What a batch of notifications asks for, pair by pair.

use vstd::prelude::*;

use crate::keyed::KeySet;
use crate::mac::{is_registerable, registerable, unicast, Mac};
use crate::netlink::{FdbEntry, RTM_NEWNEIGH};
use crate::sync::decide::{excluded, exclusions, reported, vf_reported};
use crate::sync::pass::place_of;
use crate::sync::syncer::{same_cost, Syncer, SyncerModel};
use crate::sync::types::{pair_list, Pair, PairModel};
use crate::topology::{learn_kind, Anatomy, AnatomyModel, Learn, Reach, Topology, TopologyModel};

verus! {

/// One pair as the event path needs it: the structural questions answered once
/// per batch, which describes a single moment.
pub struct FastPair {
    pub anat: Anatomy,
    pub reach: Reach,
    pub dev: String,
    /// addresses that may not be registered for this uplink
    pub skip: KeySet<Mac>,
    /// What this very batch saw on the uplink's own port. Held apart from
    /// `skip` because a refusal on its account has to count as ours.
    pub reflected: KeySet<Mac>,
    /// The share of `skip` that came from a carried answer of the driver. A
    /// refusal owed only to that share may be stale news.
    pub vf_own: KeySet<Mac>,
}

/// What a `FastPair` says.
pub struct FastModel {
    pub anat: AnatomyModel,
    pub dev: Seq<char>,
    pub skip: Set<Mac>,
    pub reflected: Set<Mac>,
    pub vf_own: Set<Mac>,
}

impl View for FastPair {
    type V = FastModel;

    open spec fn view(&self) -> FastModel {
        FastModel {
            anat: self.anat@,
            dev: self.dev@,
            skip: self.skip@,
            reflected: self.reflected@,
            vf_own: self.vf_own@,
        }
    }
}

/// What a list of pairs says.
pub open spec fn fast_models(v: Seq<FastPair>) -> Seq<FastModel> {
    v.map_values(|f: FastPair| f@)
}

/// What a batch saw arrive on a port.
pub open spec fn reflected_on(events: Seq<(u16, FdbEntry)>, port: u32) -> Set<Mac> {
    Set::new(
        |m: Mac|
            exists|i: int|
                0 <= i < events.len() && (#[trigger] events[i]).0 == RTM_NEWNEIGH
                    && events[i].1.learnt() && unicast(events[i].1.mac) && events[i].1.ifindex
                    == port && events[i].1.mac == m,
    )
}

/// One pair for a batch.
pub open spec fn fast_model(
    t: TopologyModel,
    exclude: Set<Mac>,
    vf: Seq<(u32, Mac)>,
    carried: bool,
    events: Seq<(u16, FdbEntry)>,
    dev: Seq<char>,
    anat: AnatomyModel,
) -> FastModel {
    FastModel {
        anat,
        dev,
        skip: excluded(exclude, t.links, anat, vf),
        reflected: reflected_on(events, anat.port),
        vf_own: if carried {
            reported(anat.functions, vf)
        } else {
            Set::empty()
        },
    }
}

/// The pairs for a batch: those whose device is under its bridge right now.
pub open spec fn fast_list(
    t: TopologyModel,
    exclude: Set<Mac>,
    vf: Seq<(u32, Mac)>,
    carried: bool,
    events: Seq<(u16, FdbEntry)>,
    pairs: Seq<PairModel>,
) -> Seq<FastModel>
    decreases pairs.len(),
{
    if pairs.len() == 0 {
        Seq::empty()
    } else {
        let head = fast_list(t, exclude, vf, carried, events, pairs.drop_last());
        match place_of(t, pairs.last()) {
            Some(anat) => head.push(
                fast_model(t, exclude, vf, carried, events, pairs.last().dev, anat),
            ),
            None => head,
        }
    }
}

/// The same pairs with another answer of the driver to go by. What this batch
/// saw on the wire stands.
pub open spec fn reskipped(
    t: TopologyModel,
    exclude: Set<Mac>,
    vf: Seq<(u32, Mac)>,
    fps: Seq<FastModel>,
) -> Seq<FastModel> {
    fps.map_values(
        |f: FastModel| FastModel { skip: excluded(exclude, t.links, f.anat, vf), ..f },
    )
}

/// Whether an entry is a learn that can be judged by this picture at all.
pub open spec fn judged(t: TopologyModel, e: FdbEntry) -> bool {
    e.learnt() && registerable(e.mac) && e.master is Some && t.links.contains_key(e.ifindex)
}

/// Whether a learn says that the picture is old: it names a port that the
/// picture does not know, or knows under another master.
pub open spec fn disputes(t: TopologyModel, e: FdbEntry) -> bool {
    &&& e.learnt() && registerable(e.mac) && e.master is Some
    &&& !(t.links.contains_key(e.ifindex) && t.links[e.ifindex].master == e.master)
}

/// Whether the last pass, or a reflection since, saw an address on the wire of
/// an uplink.
pub open spec fn on_wire(wires: Map<Seq<char>, Set<Mac>>, dev: Seq<char>, m: Mac) -> bool {
    wires.contains_key(dev) && wires[dev].contains(m)
}

/// Whether a learn is one behind a pair's bridge.
pub open spec fn learnt_inside(t: TopologyModel, f: FastModel, e: FdbEntry) -> bool {
    e.master matches Some(m) && learn_kind(t.links, f.anat.bridge, e.ifindex, m, f.anat.port)
        == Learn::Behind
}

/// Whether a learn is any business of a pair, so that the batch is worth a pass:
/// an address that may be registered for it, learnt behind its bridge, or known
/// to be on its wire, which only a full pass can correct.
pub open spec fn concerns(
    t: TopologyModel,
    wires: Map<Seq<char>, Set<Mac>>,
    f: FastModel,
    e: FdbEntry,
) -> bool {
    judged(t, e) && !f.skip.contains(e.mac) && (on_wire(wires, f.dev, e.mac) || learnt_inside(
        t,
        f,
        e,
    ))
}

/// Whether a learn is to be registered for a pair. While deciding with a carried
/// answer of the driver, an address that only this answer refuses counts too:
/// the fresh question settles it.
pub open spec fn offers(
    t: TopologyModel,
    wires: Map<Seq<char>, Set<Mac>>,
    f: FastModel,
    e: FdbEntry,
    deciding: bool,
) -> bool {
    judged(t, e) && if f.skip.contains(e.mac) {
        deciding && f.vf_own.contains(e.mac)
    } else {
        !on_wire(wires, f.dev, e.mac) && learnt_inside(t, f, e) && !f.reflected.contains(e.mac)
    }
}

/// An address offered to an uplink, with the port it was learnt on.
pub type Offer = (String, Mac, u32);

/// What an offer says.
pub type OfferModel = (Seq<char>, Mac, u32);

/// What a list of offers says.
pub open spec fn offer_list(v: Seq<Offer>) -> Seq<OfferModel> {
    v.map_values(|x: Offer| (x.0@, x.1, x.2))
}

/// What one learn offers to these pairs.
pub open spec fn offers_of(
    t: TopologyModel,
    wires: Map<Seq<char>, Set<Mac>>,
    fps: Seq<FastModel>,
    e: FdbEntry,
    deciding: bool,
) -> Seq<OfferModel>
    decreases fps.len(),
{
    if fps.len() == 0 {
        Seq::empty()
    } else {
        let head = offers_of(t, wires, fps.drop_last(), e, deciding);
        if offers(t, wires, fps.last(), e, deciding) {
            head.push((fps.last().dev, e.mac, e.ifindex))
        } else {
            head
        }
    }
}

/// What a batch offers to these pairs, in order.
pub open spec fn offered(
    t: TopologyModel,
    wires: Map<Seq<char>, Set<Mac>>,
    fps: Seq<FastModel>,
    events: Seq<(u16, FdbEntry)>,
    deciding: bool,
) -> Seq<OfferModel>
    decreases events.len(),
{
    if events.len() == 0 {
        Seq::empty()
    } else {
        let head = offered(t, wires, fps, events.drop_last(), deciding);
        if events.last().0 == RTM_NEWNEIGH {
            head + offers_of(t, wires, fps, events.last().1, deciding)
        } else {
            head
        }
    }
}

/// Whether a batch is any business of these pairs.
pub open spec fn batch_concerns(
    t: TopologyModel,
    wires: Map<Seq<char>, Set<Mac>>,
    fps: Seq<FastModel>,
    events: Seq<(u16, FdbEntry)>,
) -> bool {
    exists|i: int, k: int|
        #![trigger events[i], fps[k]]
        0 <= i < events.len() && 0 <= k < fps.len() && events[i].0 == RTM_NEWNEIGH && concerns(
            t,
            wires,
            fps[k],
            events[i].1,
        )
}

/// Whether a batch says that the picture is old.
pub open spec fn batch_disputes(t: TopologyModel, events: Seq<(u16, FdbEntry)>) -> bool {
    exists|i: int|
        0 <= i < events.len() && (#[trigger] events[i]).0 == RTM_NEWNEIGH && disputes(
            t,
            events[i].1,
        )
}

/// Whether a batch holds a notification of this kind.
pub open spec fn has_kind(events: Seq<(u16, FdbEntry)>, kind: u16) -> bool {
    exists|i: int| 0 <= i < events.len() && (#[trigger] events[i]).0 == kind
}

/// Whether a batch holds a notification of this kind.
pub(crate) fn any_of_kind(events: &Vec<(u16, FdbEntry)>, kind: u16) -> (r: bool)
    ensures
        r == has_kind(events@, kind),
{
    let mut i: usize = 0;
    while i < events.len()
        invariant
            i <= events@.len(),
            forall|j: int| 0 <= j < i ==> (#[trigger] events@[j]).0 != kind,
        decreases events@.len() - i,
    {
        if events[i].0 == kind {
            assert(events@[i as int].0 == kind);
            return true;
        }
        i += 1;
    }
    false
}

/// What a batch saw arrive on a port.
fn reflections(events: &Vec<(u16, FdbEntry)>, port: u32) -> (r: KeySet<Mac>)
    ensures
        r@ == reflected_on(events@, port),
{
    let mut out: KeySet<Mac> = KeySet::new();
    let mut i: usize = 0;
    while i < events.len()
        invariant
            i <= events@.len(),
            forall|m: Mac| #[trigger]
                out@.contains(m) <==> exists|j: int|
                    0 <= j < i && (#[trigger] events@[j]).0 == RTM_NEWNEIGH && events@[j].1.learnt()
                        && unicast(events@[j].1.mac) && events@[j].1.ifindex == port
                        && events@[j].1.mac == m,
        decreases events@.len() - i,
    {
        let (kind, e) = events[i];
        if kind == RTM_NEWNEIGH && e.is_learned() && e.is_unicast() && e.ifindex == port {
            let _ = out.insert(e.mac);
        }
        i += 1;
    }
    assert(out@ =~= reflected_on(events@, port));
    out
}

/// Whether a pair's reach is the one that this picture gives it.
pub open spec fn well_reached(t: TopologyModel, f: FastPair) -> bool {
    f.reach.of(t.links, f.anat.bridge)
}

/// The pairs for a batch.
pub(crate) fn fast_pairs(
    pairs: &Vec<Pair>,
    exclude: &KeySet<Mac>,
    topo: &Topology,
    vf: &Vec<(u32, Mac)>,
    carried: bool,
    events: &Vec<(u16, FdbEntry)>,
) -> (r: Vec<FastPair>)
    ensures
        fast_models(r@) == fast_list(
            topo@,
            exclude@,
            vf@,
            carried,
            events@,
            pair_list(pairs@),
        ),
        forall|i: int| 0 <= i < r@.len() ==> well_reached(topo@, #[trigger] r@[i]),
{
    let ghost all = pair_list(pairs@);
    let mut out: Vec<FastPair> = Vec::new();
    let mut i: usize = 0;
    proof {
        assert(all.take(0) =~= Seq::empty());
        assert(fast_models(out@) =~= Seq::empty());
    }
    while i < pairs.len()
        invariant
            all == pair_list(pairs@),
            i <= pairs@.len(),
            fast_models(out@) == fast_list(
                topo@,
                exclude@,
                vf@,
                carried,
                events@,
                all.take(i as int),
            ),
            forall|j: int| 0 <= j < out@.len() ==> well_reached(topo@, #[trigger] out@[j]),
        decreases pairs@.len() - i,
    {
        let p = &pairs[i];
        let ghost out0 = out@;
        proof {
            let next = all.take(i + 1);
            assert(next.drop_last() =~= all.take(i as int));
            assert(next.last() == p@);
        }
        let placed = match (topo.index_of(&p.dev), topo.index_of(&p.bridge)) {
            (Some(d), Some(b)) => topo.anatomy(d, b),
            _ => None,
        };
        if let Some(anat) = placed {
            assert(place_of(topo@, p@) == Some(anat@));
            let skip = exclusions(exclude, topo, &anat, vf);
            let reach = topo.reach(anat.bridge);
            let vf_own = if carried {
                vf_reported(&anat.functions, vf)
            } else {
                KeySet::new()
            };
            let reflected = reflections(events, anat.port);
            let f = FastPair { anat, reach, dev: p.dev.clone(), skip, reflected, vf_own };
            assert(fast_models(out0.push(f)) =~= fast_models(out0).push(f@));
            out.push(f);
        } else {
            assert(place_of(topo@, p@) is None);
        }
        i += 1;
    }
    assert(all.take(i as int) =~= all);
    out
}

/// The same pairs with a fresh answer of the driver to go by.
pub(crate) fn reskip(
    fps: Vec<FastPair>,
    exclude: &KeySet<Mac>,
    topo: &Topology,
    vf: &Vec<(u32, Mac)>,
) -> (r: Vec<FastPair>)
    requires
        forall|i: int| 0 <= i < fps@.len() ==> well_reached(topo@, #[trigger] fps@[i]),
    ensures
        fast_models(r@) == reskipped(topo@, exclude@, vf@, fast_models(fps@)),
        forall|i: int| 0 <= i < r@.len() ==> well_reached(topo@, #[trigger] r@[i]),
{
    let ghost given = fps@;
    let ghost want = reskipped(topo@, exclude@, vf@, fast_models(given));
    let mut rest = fps;
    let mut back: Vec<FastPair> = Vec::new();
    while rest.len() > 0
        invariant
            want == reskipped(topo@, exclude@, vf@, fast_models(given)),
            rest@.len() + back@.len() == given.len(),
            rest@ == given.take(rest@.len() as int),
            forall|i: int| 0 <= i < given.len() ==> well_reached(topo@, #[trigger] given[i]),
            forall|i: int| 0 <= i < back@.len() ==> well_reached(topo@, #[trigger] back@[i]),
            forall|i: int|
                0 <= i < back@.len() ==> (#[trigger] back@[i])@ == want[given.len() - 1 - i],
        decreases rest@.len(),
    {
        let ghost n = rest@.len();
        let ghost rest0 = rest@;
        match rest.pop() {
            Some(f) => {
                let mut f = f;
                assert(f == given[n - 1]) by {
                    assert(rest0[n - 1] == given[n - 1]);
                }
                assert(well_reached(topo@, given[n - 1]));
                f.skip = exclusions(exclude, topo, &f.anat, vf);
                assert(fast_models(given)[n - 1] == given[n - 1]@);
                assert(f@ == want[n - 1]);
                assert(rest@ =~= given.take(rest@.len() as int));
                back.push(f);
            },
            None => {},
        }
    }
    let mut out: Vec<FastPair> = Vec::new();
    while back.len() > 0
        invariant
            out@.len() + back@.len() == given.len(),
            want.len() == given.len(),
            forall|i: int| 0 <= i < back@.len() ==> well_reached(topo@, #[trigger] back@[i]),
            forall|i: int| 0 <= i < out@.len() ==> well_reached(topo@, #[trigger] out@[i]),
            forall|i: int|
                0 <= i < back@.len() ==> (#[trigger] back@[i])@ == want[given.len() - 1 - i],
            forall|i: int| 0 <= i < out@.len() ==> (#[trigger] out@[i])@ == want[i],
        decreases back@.len(),
    {
        let ghost n = back@.len();
        let ghost back0 = back@;
        match back.pop() {
            Some(f) => {
                assert(f == back0[n - 1]);
                assert(well_reached(topo@, back0[n - 1]));
                assert(back0[n - 1]@ == want[given.len() - 1 - (n - 1)]);
                out.push(f);
            },
            None => {},
        }
    }
    assert(fast_models(out@) =~= want);
    out
}

impl Syncer {
    /// What an entry offers to these pairs. Whether it was any of our business.
    /// A learn that the picture cannot explain is remembered.
    ///
    /// Nothing is written: offers are only collected, and the caller writes the
    /// batch through, note first.
    pub(crate) fn fast_add(
        &mut self,
        topo: &Topology,
        entry: &FdbEntry,
        pairs: &Vec<FastPair>,
        deciding: bool,
        out: &mut Vec<Offer>,
    ) -> (r: bool)
        requires
            forall|i: int| 0 <= i < pairs@.len() ==> well_reached(topo@, #[trigger] pairs@[i]),
        ensures
            same_cost(*old(self), *final(self)),
            final(self)@ == (SyncerModel {
                disputed: old(self)@.disputed || disputes(topo@, *entry),
                ..old(self)@
            }),
            offer_list(final(out)@) == offer_list(old(out)@) + offers_of(
                topo@,
                old(self)@.carried_wire,
                fast_models(pairs@),
                *entry,
                deciding,
            ),
            r == exists|k: int|
                0 <= k < pairs@.len() && concerns(
                    topo@,
                    old(self)@.carried_wire,
                    #[trigger] fast_models(pairs@)[k],
                    *entry,
                ),
    {
        let ghost t = topo@;
        let ghost wires = self@.carried_wire;
        let ghost fps = fast_models(pairs@);
        let ghost before = offer_list(out@);
        let mut judge = entry.is_learned() && is_registerable(&entry.mac);
        let mut master: u32 = 0;
        match entry.master {
            Some(m) => {
                master = m;
            },
            None => {
                judge = false;
            },
        }
        if judge {
            match topo.at(entry.ifindex) {
                Some(l) => {
                    let agrees = match l.master {
                        Some(m) => m == master,
                        None => false,
                    };
                    if !agrees {
                        self.disputed = true;
                    }
                },
                None => {
                    self.disputed = true;
                    judge = false;
                },
            }
        }
        assert(judge == judged(t, *entry));
        let mut ours = false;
        let mut i: usize = 0;
        proof {
            assert(fps.take(0) =~= Seq::empty());
            assert(before + Seq::<OfferModel>::empty() =~= before);
        }
        while i < pairs.len()
            invariant
                same_cost(*old(self), *self),
                t == topo@,
                fps == fast_models(pairs@),
                wires == self@.carried_wire,
                self@ == (SyncerModel {
                    disputed: old(self)@.disputed || disputes(topo@, *entry),
                    ..old(self)@
                }),
                judge == judged(t, *entry),
                judge ==> entry.master == Some(master),
                forall|j: int| 0 <= j < pairs@.len() ==> well_reached(topo@, #[trigger] pairs@[j]),
                i <= pairs@.len(),
                offer_list(out@) == before + offers_of(
                    t,
                    wires,
                    fps.take(i as int),
                    *entry,
                    deciding,
                ),
                ours == exists|k: int|
                    0 <= k < i && concerns(t, wires, #[trigger] fps[k], *entry),
            decreases pairs@.len() - i,
        {
            let f = &pairs[i];
            let ghost out0 = out@;
            let ghost ours0 = ours;
            proof {
                let next = fps.take(i + 1);
                assert(next.drop_last() =~= fps.take(i as int));
                assert(next.last() == f@);
                assert(fps[i as int] == f@);
                assert(well_reached(topo@, pairs@[i as int]));
            }
            let mut offer = false;
            let mut mine = false;
            if judge {
                if f.skip.contains(&entry.mac) {
                    offer = deciding && f.vf_own.contains(&entry.mac);
                } else {
                    let wired = match self.carried_wire.get(&f.dev) {
                        Some(w) => w.contains(&entry.mac),
                        None => false,
                    };
                    assert(wired == on_wire(wires, f.dev@, entry.mac));
                    let inside = f.reach.classify(entry.ifindex, master, f.anat.port)
                        == Learn::Behind;
                    assert(inside == learnt_inside(t, f@, *entry));
                    mine = wired || inside;
                    offer = !wired && inside && !f.reflected.contains(&entry.mac);
                }
            }
            assert(mine == concerns(t, wires, f@, *entry));
            assert(offer == offers(t, wires, f@, *entry, deciding));
            if mine {
                ours = true;
                assert(concerns(t, wires, fps[i as int], *entry));
            }
            if offer {
                let o: Offer = (f.dev.clone(), entry.mac, entry.ifindex);
                let ghost om: OfferModel = (o.0@, o.1, o.2);
                out.push(o);
                assert(offer_list(out@) =~= offer_list(out0).push(om));
                assert(offer_list(out@) =~= before + offers_of(
                    t,
                    wires,
                    fps.take(i + 1),
                    *entry,
                    deciding,
                ));
            }
            i += 1;
        }
        assert(fps.take(i as int) =~= fps);
        ours
    }

    /// What a batch offers to these pairs, and whether it was any of their
    /// business.
    pub(crate) fn fast_offers(
        &mut self,
        topo: &Topology,
        events: &Vec<(u16, FdbEntry)>,
        pairs: &Vec<FastPair>,
        deciding: bool,
    ) -> (r: (Vec<Offer>, bool))
        requires
            forall|i: int| 0 <= i < pairs@.len() ==> well_reached(topo@, #[trigger] pairs@[i]),
        ensures
            same_cost(*old(self), *final(self)),
            final(self)@ == (SyncerModel {
                disputed: old(self)@.disputed || batch_disputes(topo@, events@),
                ..old(self)@
            }),
            offer_list(r.0@) == offered(
                topo@,
                old(self)@.carried_wire,
                fast_models(pairs@),
                events@,
                deciding,
            ),
            r.1 == batch_concerns(
                topo@,
                old(self)@.carried_wire,
                fast_models(pairs@),
                events@,
            ),
    {
        let ghost t = topo@;
        let ghost s = self@;
        let ghost wires = s.carried_wire;
        let ghost fps = fast_models(pairs@);
        let mut out: Vec<Offer> = Vec::new();
        let mut ours = false;
        let mut i: usize = 0;
        proof {
            assert(events@.take(0) =~= Seq::empty());
            assert(offer_list(out@) =~= Seq::empty());
        }
        while i < events.len()
            invariant
                same_cost(*old(self), *self),
                t == topo@,
                s == old(self)@,
                wires == s.carried_wire,
                fps == fast_models(pairs@),
                forall|j: int| 0 <= j < pairs@.len() ==> well_reached(topo@, #[trigger] pairs@[j]),
                i <= events@.len(),
                self@ == (SyncerModel { disputed: self@.disputed, ..s }),
                self@.disputed == (s.disputed || exists|j: int|
                    0 <= j < i && (#[trigger] events@[j]).0 == RTM_NEWNEIGH && disputes(
                        t,
                        events@[j].1,
                    )),
                offer_list(out@) == offered(t, wires, fps, events@.take(i as int), deciding),
                ours == exists|j: int, k: int|
                    #![trigger events@[j], fps[k]]
                    0 <= j < i && 0 <= k < fps.len() && events@[j].0 == RTM_NEWNEIGH && concerns(
                        t,
                        wires,
                        fps[k],
                        events@[j].1,
                    ),
            decreases events@.len() - i,
        {
            let (kind, e) = events[i];
            proof {
                let next = events@.take(i + 1);
                assert(next.drop_last() =~= events@.take(i as int));
                assert(next.last() == events@[i as int]);
            }
            if kind == RTM_NEWNEIGH {
                let mine = self.fast_add(topo, &e, pairs, deciding, &mut out);
                if mine {
                    ours = true;
                    proof {
                        let k = choose|k: int|
                            0 <= k < pairs@.len() && concerns(t, wires, #[trigger] fps[k], e);
                        assert(concerns(t, wires, fps[k], events@[i as int].1));
                    }
                }
                assert(disputes(t, e) == disputes(t, events@[i as int].1));
            }
            i += 1;
        }
        assert(events@.take(i as int) =~= events@);
        (out, ours)
    }
}

} // verus!
