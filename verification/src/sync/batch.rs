//! The writing half of the event path: reflections, the valve, registrations.

use vstd::prelude::*;

use crate::keyed::{
    entry_models, lemma_entry, lemma_entry_dom, lemma_mac_models, lemma_push_contains, KeyMap,
    KeySet,
};
use crate::mac::Mac;
use crate::netlink::{FdbWriter, Moment, Op, Recorded};
use crate::sync::card::{
    batch_registered, opt_registered, register_batch_locked, take_out, taken_out, OutcomeModel,
    RegisteredModel, Why,
};
use crate::sync::fast::{FastModel, FastPair, OfferModel};
use crate::sync::journal::{pressure_text, say_pressure, say_tight, tight_text};
use crate::sync::memory::{heard, memory_saved, MemoryModel, Ports};
use crate::sync::notes::{index_noted, list_in_order, note_looked, owned_in, sorted_list, BookModel};
use crate::sync::pass::{evicted, list_without, lists};
use crate::sync::said::Marks;
use crate::sync::syncer::{same_cost, Syncer, SyncerModel, CAPACITY_HEADROOM};
use crate::sync::valve::{longest_silent, released};
use crate::topology::{Topology, TopologyModel};

verus! {

/// The kept addresses that a burst may surrender: those the last pass kept, and
/// of which nothing has been heard since.
pub open spec fn sheddable(s: SyncerModel, dev: Seq<char>) -> Set<Mac> {
    Set::new(
        |m: Mac|
            {
                &&& s.carried.contains_key(dev)
                &&& s.carried[dev].quiet.contains(m)
                &&& s.memory.ports(dev).contains_key(m)
                &&& s.memory.ports(dev)[m].1 < s.carried[dev].passed_at
            },
    )
}

/// What surrendering these addresses comes to: card, note and memory together.
/// How many slots that really freed: what the card never held frees none.
pub open spec fn shed_out(
    t: TopologyModel,
    dev: Seq<char>,
    index: u32,
    shed: Seq<Mac>,
    s: SyncerModel,
    log: Seq<Op>,
    s2: SyncerModel,
    log2: Seq<Op>,
    freed: nat,
) -> bool {
    exists|b1: BookModel, l1: Seq<Op>, o: OutcomeModel|
        {
            &&& #[trigger] taken_out(s.book, log, dev, index, shed, b1, l1, o, Why::Quiet)
            &&& if o.settled.len() == 0 {
                s2 == s.with_book(b1) && log2 == l1 && freed == 0
            } else {
                &&& shed_remembered(
                    t,
                    dev,
                    SyncerModel {
                        book: b1,
                        memory: evicted(s.memory, dev, o.settled.to_set()),
                        ..s
                    },
                    l1,
                    o.settled,
                    s2,
                    log2,
                )
                &&& freed == o.settled.to_set().intersect(s.held(dev)).len()
            }
        }
}

/// The book once it has been said how many kept addresses were surrendered.
pub open spec fn shed_said(b: BookModel, dev: Seq<char>, limit: usize, n: nat) -> BookModel {
    b.saying(pressure_text(dev, limit as nat, n))
}

/// The memory is written down, the slots count as free, and that is said.
pub open spec fn shed_remembered(
    t: TopologyModel,
    dev: Seq<char>,
    s: SyncerModel,
    log: Seq<Op>,
    gone: Seq<Mac>,
    s2: SyncerModel,
    log2: Seq<Op>,
) -> bool {
    exists|b: BookModel| #[trigger]
        memory_saved(
            s.memory,
            s.book,
            log,
            t,
            dev,
            s.passed_at(dev),
            s.dry_run,
            s2.memory,
            b,
            log2,
        ) && s2 == (SyncerModel {
            memory: s2.memory,
            book: shed_said(b, dev, s.limit(dev), gone.len()),
            ..s.not_holding(dev, gone.to_set())
        })
}

/// What surrendering up to `need` kept addresses comes to, the note looked at:
/// the longest-silent first, and none of a device whose note cannot be read.
pub open spec fn keeps_shed_from(
    t: TopologyModel,
    dev: Seq<char>,
    index: u32,
    need: nat,
    s: SyncerModel,
    log: Seq<Op>,
    s2: SyncerModel,
    log2: Seq<Op>,
    freed: nat,
) -> bool {
    if !s.book.readable(dev) || need == 0 || sheddable(s, dev) == Set::<Mac>::empty() {
        s2 == s && log2 == log && freed == 0
    } else {
        exists|shed: Seq<Mac>|
            {
                &&& #[trigger] released(sheddable(s, dev), s.memory.ports(dev), need, shed)
                &&& shed_out(t, dev, index, shed, s, log, s2, log2, freed)
            }
    }
}

/// What surrendering up to `need` kept addresses comes to.
pub open spec fn keeps_shed(
    t: TopologyModel,
    dev: Seq<char>,
    index: u32,
    need: nat,
    s: SyncerModel,
    log: Seq<Op>,
    s2: SyncerModel,
    log2: Seq<Op>,
    freed: nat,
) -> bool {
    exists|b1: BookModel, l1: Seq<Op>| #[trigger]
        note_looked(s.book, log, dev, b1, l1) && keeps_shed_from(
            t,
            dev,
            index,
            need,
            s.with_book(b1),
            l1,
            s2,
            log2,
            freed,
        )
}

/// What taking addresses of ours back comes to that this batch saw on the wire:
/// they leave card, note and memory, and what was really taken out is remembered
/// as on the wire.
pub open spec fn reflected_out(
    t: TopologyModel,
    f: FastModel,
    ours: Set<Mac>,
    s: SyncerModel,
    log: Seq<Op>,
    s2: SyncerModel,
    log2: Seq<Op>,
    urgent: bool,
) -> bool {
    exists|v: Seq<Mac>, b1: BookModel, l1: Seq<Op>, o: OutcomeModel|
        {
            &&& lists(v, ours)
            &&& #[trigger] taken_out(s.book, log, f.dev, f.anat.dev, v, b1, l1, o, Why::Wire)
            &&& urgent == (o.done.len() > 0 || o.failed.len() > 0)
            &&& reflection_remembered(t, f.dev, v, o, s.with_book(b1), l1, s2, log2)
        }
}

/// What is remembered of such a reflection.
pub open spec fn reflection_remembered(
    t: TopologyModel,
    dev: Seq<char>,
    v: Seq<Mac>,
    o: OutcomeModel,
    s: SyncerModel,
    log: Seq<Op>,
    s2: SyncerModel,
    log2: Seq<Op>,
) -> bool {
    let wire = if s.carried_wire.contains_key(dev) {
        s.carried_wire[dev]
    } else {
        Set::empty()
    };
    let wires = if o.done.len() > 0 {
        s.carried_wire.insert(dev, wire.union(o.done.to_set()))
    } else {
        s.carried_wire
    };
    let s1 = SyncerModel { memory: evicted(s.memory, dev, v.to_set()), ..s };
    if v.len() == 0 {
        s2 == s && log2 == log
    } else {
        &&& memory_saved(
            s1.memory,
            s1.book,
            log,
            t,
            dev,
            s1.passed_at(dev),
            s1.dry_run,
            s2.memory,
            s2.book,
            log2,
        )
        &&& s2 == (SyncerModel {
            memory: s2.memory,
            book: s2.book,
            carried_wire: wires,
            ..s1.not_holding(dev, o.settled.to_set())
        })
    }
}

/// What a batch's reflections come to for one pair. One look at the note answers
/// the ordinary case that nothing of ours is among them.
pub open spec fn reflection_answered(
    t: TopologyModel,
    f: FastModel,
    s: SyncerModel,
    log: Seq<Op>,
    s2: SyncerModel,
    log2: Seq<Op>,
    urgent: bool,
) -> bool {
    if f.reflected == Set::<Mac>::empty() {
        s2 == s && log2 == log && !urgent
    } else {
        exists|b1: BookModel, l1: Seq<Op>| #[trigger]
            note_looked(s.book, log, f.dev, b1, l1) && if owned_in(b1.dir, f.dev).disjoint(
                f.reflected,
            ) {
                s2 == s.with_book(b1) && log2 == l1 && !urgent
            } else {
                reflection_found(t, f, b1, s, l1, s2, log2, urgent)
            }
    }
}

/// What reflections come to that concern an address of ours.
pub open spec fn reflection_found(
    t: TopologyModel,
    f: FastModel,
    b: BookModel,
    s: SyncerModel,
    log: Seq<Op>,
    s2: SyncerModel,
    log2: Seq<Op>,
    urgent: bool,
) -> bool {
    exists|b1: BookModel, l1: Seq<Op>| #[trigger]
        note_looked(b, log, f.dev, b1, l1) && reflected_out(
            t,
            f,
            f.reflected.intersect(owned_in(b1.dir, f.dev)),
            s.with_book(b1),
            l1,
            s2,
            log2,
            urgent,
        )
}

/// The addresses offered to an uplink, each with the port of its last learn.
pub open spec fn learns_of(offers: Seq<OfferModel>, dev: Seq<char>) -> Map<Mac, u32>
    decreases offers.len(),
{
    if offers.len() == 0 {
        Map::empty()
    } else {
        let head = learns_of(offers.drop_last(), dev);
        if offers.last().0 == dev {
            head.insert(offers.last().1, offers.last().2)
        } else {
            head
        }
    }
}

/// Whether something is offered to this uplink.
pub open spec fn offered_to(offers: Seq<OfferModel>, dev: Seq<char>) -> bool {
    exists|i: int| 0 <= i < offers.len() && (#[trigger] offers[i]).0 == dev
}

/// Whether `devs` holds each uplink that something is offered to, once.
pub open spec fn lists_devs(devs: Seq<Seq<char>>, offers: Seq<OfferModel>) -> bool {
    &&& devs.no_duplicates()
    &&& forall|d: Seq<char>| #[trigger] devs.contains(d) <==> offered_to(offers, d)
}

/// The first pair of a device.
pub open spec fn pair_of(fps: Seq<FastModel>, dev: Seq<char>) -> Option<FastModel>
    decreases fps.len(),
{
    if fps.len() == 0 {
        None
    } else {
        match pair_of(fps.drop_last(), dev) {
            Some(f) => Some(f),
            None => if fps.last().dev == dev {
                Some(fps.last())
            } else {
                None
            },
        }
    }
}

/// A guest that speaks is stamped now - once the memory of the previous process
/// has been taken over, and not before: a memory made earlier would look like
/// one already carried.
pub open spec fn stamped(
    s: SyncerModel,
    dev: Seq<char>,
    learnt: Map<Mac, u32>,
    now: u64,
) -> SyncerModel {
    if s.memory.loaded.contains(dev) {
        SyncerModel {
            memory: MemoryModel {
                carried: s.memory.carried.insert(dev, heard(s.memory.ports(dev), learnt, now)),
                ..s.memory
            },
            ..s
        }
    } else {
        s
    }
}

/// How many slots a burst would need beyond those there are, the headroom left
/// free: only what the card does not hold takes a new one.
pub open spec fn burst_over(s: SyncerModel, dev: Seq<char>, macs: Set<Mac>) -> nat {
    let needed = s.held(dev).len() + macs.difference(s.held(dev)).len();
    let allowed = if s.limit(dev) >= CAPACITY_HEADROOM {
        s.limit(dev) - CAPACITY_HEADROOM
    } else {
        0
    };
    if needed > allowed {
        (needed - allowed) as nat
    } else {
        0
    }
}

/// How many addresses of a burst the card does not hold.
pub open spec fn burst_fresh(s: SyncerModel, dev: Seq<char>, macs: Set<Mac>) -> nat {
    macs.difference(s.held(dev)).len()
}

/// The syncer once too little could be freed for a burst: that is said, unless
/// it has been already.
pub open spec fn tight_said(s: SyncerModel, dev: Seq<char>, fresh: nat) -> SyncerModel {
    let marked = s.with_said(Marks { tight: s.book.said.tight.insert(dev), ..s.book.said });
    if s.book.said.tight.contains(dev) {
        marked
    } else {
        marked.saying(tight_text(dev, fresh, s.limit(dev) as nat))
    }
}

/// What making room for a burst comes to. Where too little could be freed that
/// is remembered as said.
pub open spec fn room_made(
    t: TopologyModel,
    dev: Seq<char>,
    index: u32,
    over: nat,
    fresh: nat,
    s: SyncerModel,
    log: Seq<Op>,
    s2: SyncerModel,
    log2: Seq<Op>,
) -> bool {
    if over == 0 {
        s2 == s && log2 == log
    } else {
        exists|s1: SyncerModel, freed: nat|
            {
                &&& #[trigger] keeps_shed(t, dev, index, over, s, log, s1, log2, freed)
                &&& s2 == if freed < over {
                    tight_said(s1, dev, fresh)
                } else {
                    s1
                }
            }
    }
}

/// What is in the card because of a registration.
pub open spec fn held_by(reg: Option<RegisteredModel>) -> Set<Mac> {
    match reg {
        Some(x) => x.held.to_set(),
        None => Set::empty(),
    }
}

/// What registering a burst comes to, once there is room for it.
pub open spec fn burst_written(
    dev: Seq<char>,
    index: u32,
    macs: Seq<Mac>,
    s: SyncerModel,
    log: Seq<Op>,
    s2: SyncerModel,
    log2: Seq<Op>,
) -> bool {
    exists|b1: BookModel, l1: Seq<Op>, b2: BookModel, reg: Option<RegisteredModel>|
        {
            &&& #[trigger] index_noted(s.book, log, dev, index, b1, l1)
            &&& #[trigger] batch_registered(b1, l1, dev, index, macs, b2, log2, reg)
            &&& s2 == s.with_book(b2).holding(dev, held_by(reg))
        }
}

/// What registering a burst for one uplink comes to.
pub open spec fn burst_registered(
    t: TopologyModel,
    f: FastModel,
    learnt: Map<Mac, u32>,
    s: SyncerModel,
    log: Seq<Op>,
    s2: SyncerModel,
    log2: Seq<Op>,
) -> bool {
    exists|now: Moment, macs: Seq<Mac>, s1: SyncerModel, l1: Seq<Op>|
        {
            &&& sorted_list(macs, learnt.dom())
            &&& #[trigger] room_made(
                t,
                f.dev,
                f.anat.dev,
                burst_over(stamped(s, f.dev, learnt, now.boot_millis), f.dev, learnt.dom()),
                burst_fresh(stamped(s, f.dev, learnt, now.boot_millis), f.dev, learnt.dom()),
                stamped(s, f.dev, learnt, now.boot_millis),
                log.push(Op::Clock { reading: now }),
                s1,
                l1,
            )
            &&& #[trigger] burst_written(f.dev, f.anat.dev, macs, s1, l1, s2, log2)
        }
}

impl Syncer {
    /// Surrenders up to `need` kept addresses, longest-silent first - card, note
    /// and memory together, under the note's lock. A burst that would overflow
    /// the card cannot wait for a pass. How many slots were really freed.
    pub(crate) fn shed_keeps<W: FdbWriter>(
        &mut self,
        sock: &mut Recorded<W>,
        dev: &String,
        index: u32,
        need: u128,
        topo: &Topology,
    ) -> (r: usize)
        ensures
            same_cost(*old(self), *final(self)),
            keeps_shed(
                topo@,
                dev@,
                index,
                need as nat,
                old(self)@,
                old(sock).log(),
                final(self)@,
                final(sock).log(),
                r as nat,
            ),
    {
        let ghost s0 = self@;
        let ghost log = sock.log();
        let _ = self.book.load_owned(sock, dev);
        let ghost s = self@;
        let ghost l1 = sock.log();
        assert(note_looked(s0.book, log, dev@, s.book, l1));
        assert(s == s0.with_book(s.book));
        let cands = self.surrenderable(dev);
        if !self.book.note_is_readable(dev) || need == 0 || cands.is_empty() {
            assert(keeps_shed_from(topo@, dev@, index, need as nat, s, l1, self@, sock.log(), 0));
            return 0;
        }
        let none: Ports = KeyMap::new();
        let ports: &Ports = match self.memory.carried.get(dev) {
            Some(p) => p,
            None => &none,
        };
        assert(ports@ == s.memory.ports(dev@));
        let shed = longest_silent(&cands, ports, need);
        let r = self.shed_list(sock, dev, index, &shed, topo);
        proof {
            assert(released(sheddable(s, dev@), s.memory.ports(dev@), need as nat, shed@));
            assert(keeps_shed_from(
                topo@,
                dev@,
                index,
                need as nat,
                s,
                l1,
                self@,
                sock.log(),
                r as nat,
            ));
        }
        r
    }

    /// The kept addresses that a burst may surrender.
    fn surrenderable(&self, dev: &String) -> (r: KeySet<Mac>)
        ensures
            r@ == sheddable(self@, dev@),
    {
        let mut out: KeySet<Mac> = KeySet::new();
        if let (Some(c), Some(ports)) = (self.carried.get(dev), self.memory.carried.get(dev)) {
            let list = c.quiet.list();
            proof {
                lemma_mac_models(list@);
            }
            let ghost pm = ports@;
            let mut i: usize = 0;
            while i < list.len()
                invariant
                    pm == ports@,
                    i <= list@.len(),
                    forall|m: Mac| #[trigger]
                        out@.contains(m) <==> list@.take(i as int).contains(m) && pm.contains_key(m)
                            && pm[m].1 < c.passed_at,
                decreases list@.len() - i,
            {
                let m = list[i];
                proof {
                    assert(list@.take(i + 1) =~= list@.take(i as int).push(m));
                    lemma_push_contains(list@.take(i as int), m);
                }
                if let Some(slot) = ports.get(&m) {
                    if slot.1 < c.passed_at {
                        let _ = out.insert(m);
                    }
                }
                i += 1;
            }
            proof {
                assert(list@.take(i as int) =~= list@);
                assert(pm == self@.memory.ports(dev@));
                assert forall|m: Mac| out@.contains(m) <==> sheddable(self@, dev@).contains(m) by {
                    assert(list@.to_set().contains(m) <==> list@.contains(m));
                }
                assert(out@ =~= sheddable(self@, dev@));
            }
        } else {
            assert(out@ =~= sheddable(self@, dev@));
        }
        out
    }

    /// Surrenders these addresses.
    fn shed_list<W: FdbWriter>(
        &mut self,
        sock: &mut Recorded<W>,
        dev: &String,
        index: u32,
        shed: &Vec<Mac>,
        topo: &Topology,
    ) -> (r: usize)
        ensures
            same_cost(*old(self), *final(self)),
            shed_out(
                topo@,
                dev@,
                index,
                shed@,
                old(self)@,
                old(sock).log(),
                final(self)@,
                final(sock).log(),
                r as nat,
            ),
    {
        let ghost s = self@;
        let ghost log = sock.log();
        let out = take_out(&mut self.book, sock, dev, index, shed, Why::Quiet);
        let ghost b1 = self@.book;
        let ghost l1 = sock.log();
        let ghost o = out@;
        assert(taken_out(s.book, log, dev@, index, shed@, b1, l1, o, Why::Quiet));
        if out.settled.len() == 0 {
            return 0;
        }
        let ghost gone = o.settled.to_set();
        let freed = self.count_held(dev, &out.settled);
        self.memory.evict(dev, &out.settled);
        let ghost s1 = self@;
        assert(s1 == (SyncerModel { book: b1, memory: evicted(s.memory, dev@, gone), ..s }));
        let passed_at = match self.carried.get(dev) {
            Some(c) => c.passed_at,
            None => 0,
        };
        let dry_run = self.dry_run;
        self.memory.save_ports(&mut self.book, sock, dev, topo, passed_at, dry_run);
        let ghost b = self@.book;
        self.card_no_longer_holds(dev, &out.settled);
        let limit = self.limit_of(dev);
        self.book.say(say_pressure(dev, limit as u64, out.settled.len() as u64));
        proof {
            assert(memory_saved(
                s1.memory,
                s1.book,
                l1,
                topo@,
                dev@,
                s1.passed_at(dev@),
                s1.dry_run,
                self@.memory,
                b,
                sock.log(),
            ));
            assert(self@ == (SyncerModel {
                memory: self@.memory,
                book: shed_said(b, dev@, s1.limit(dev@), o.settled.len()),
                ..s1.not_holding(dev@, gone)
            }));
        }
        assert(shed_remembered(topo@, dev@, s1, l1, o.settled, self@, sock.log()));
        freed
    }

    /// How many of these the card is known to hold.
    fn count_held(&self, dev: &String, macs: &Vec<Mac>) -> (r: usize)
        ensures
            r == macs@.to_set().intersect(self@.held(dev@)).len(),
    {
        let none: KeySet<Mac> = KeySet::new();
        let held: &KeySet<Mac> = match self.carried.get(dev) {
            Some(c) => &c.present,
            None => &none,
        };
        assert(held@ == self@.held(dev@));
        let all = KeySet::of_list(macs);
        proof {
            lemma_mac_models(macs@);
        }
        let mut absent = all.dup();
        absent.subtract(held);
        let mut both = all;
        both.subtract(&absent);
        assert(both@ =~= macs@.to_set().intersect(self@.held(dev@)));
        both.len()
    }

    /// Answers what a batch saw on a pair's own port. Whether that makes a pass
    /// urgent.
    pub(crate) fn answer_reflection<W: FdbWriter>(
        &mut self,
        sock: &mut Recorded<W>,
        topo: &Topology,
        f: &FastPair,
    ) -> (r: bool)
        ensures
            same_cost(*old(self), *final(self)),
            reflection_answered(
                topo@,
                f@,
                old(self)@,
                old(sock).log(),
                final(self)@,
                final(sock).log(),
                r,
            ),
    {
        if f.reflected.is_empty() {
            return false;
        }
        let ghost s = self@;
        let ghost log = sock.log();
        let mut first = self.book.load_owned(sock, &f.dev);
        let ghost b1 = self@.book;
        let ghost l1 = sock.log();
        let ghost owned1 = first@;
        assert(note_looked(s.book, log, f@.dev, b1, l1));
        let mut rest = first.dup();
        rest.subtract(&f.reflected);
        let none_of_ours = rest.equals(&first);
        proof {
            if none_of_ours {
                assert forall|m: Mac| owned1.contains(m) implies !f@.reflected.contains(m) by {
                    assert(rest@.contains(m));
                }
                assert(owned1.disjoint(f@.reflected));
            } else if owned1.disjoint(f@.reflected) {
                assert(rest@ =~= owned1);
            }
        }
        if none_of_ours {
            return false;
        }
        let mine = self.book.load_owned(sock, &f.dev);
        let ghost b2 = self@.book;
        let ghost l2 = sock.log();
        assert(note_looked(b1, l1, f@.dev, b2, l2));
        let mut theirs = f.reflected.dup();
        theirs.subtract(&mine);
        let v = list_without(&f.reflected, &theirs);
        proof {
            assert(f.reflected@.difference(theirs@) =~= f@.reflected.intersect(mine@));
        }
        let r = self.reflect_out(sock, topo, f, &v, Ghost(f@.reflected.intersect(mine@)));
        assert(reflection_found(topo@, f@, b1, s, l1, self@, sock.log(), r));
        r
    }

    fn reflect_out<W: FdbWriter>(
        &mut self,
        sock: &mut Recorded<W>,
        topo: &Topology,
        f: &FastPair,
        v: &Vec<Mac>,
        Ghost(ours): Ghost<Set<Mac>>,
    ) -> (r: bool)
        requires
            lists(v@, ours),
        ensures
            same_cost(*old(self), *final(self)),
            reflected_out(
                topo@,
                f@,
                ours,
                old(self)@,
                old(sock).log(),
                final(self)@,
                final(sock).log(),
                r,
            ),
    {
        let ghost s = self@;
        let ghost log = sock.log();
        let out = take_out(&mut self.book, sock, &f.dev, f.anat.dev, v, Why::Wire);
        let ghost b1 = self@.book;
        let ghost l1 = sock.log();
        let ghost o = out@;
        assert(taken_out(s.book, log, f@.dev, f@.anat.dev, v@, b1, l1, o, Why::Wire));
        let urgent = out.done.len() > 0 || out.failed.len() > 0;
        let ghost sb = self@;
        assert(sb == s.with_book(b1));
        if v.len() == 0 {
            assert(reflection_remembered(topo@, f@.dev, v@, o, sb, l1, self@, sock.log()));
            return urgent;
        }
        self.memory.evict(&f.dev, v);
        let ghost s1 = self@;
        assert(s1 == (SyncerModel { memory: evicted(sb.memory, f@.dev, v@.to_set()), ..sb }));
        let passed_at = match self.carried.get(&f.dev) {
            Some(c) => c.passed_at,
            None => 0,
        };
        assert(passed_at == s1.passed_at(f@.dev));
        self.card_no_longer_holds(&f.dev, &out.settled);
        let dry_run = self.dry_run;
        self.memory.save_ports(&mut self.book, sock, &f.dev, topo, passed_at, dry_run);
        if out.done.len() > 0 {
            let mut wire = match self.carried_wire.remove(&f.dev) {
                Some(w) => w,
                None => KeySet::new(),
            };
            proof {
                lemma_mac_models(out.done@);
            }
            wire.extend_list(&out.done);
            self.carried_wire.insert(f.dev.clone(), wire);
        }
        proof {
            let wire = if sb.carried_wire.contains_key(f@.dev) {
                sb.carried_wire[f@.dev]
            } else {
                Set::empty()
            };
            if o.done.len() > 0 {
                assert(self@.carried_wire =~= sb.carried_wire.insert(
                    f@.dev,
                    wire.union(o.done.to_set()),
                ));
            }
            assert(reflection_remembered(topo@, f@.dev, v@, o, sb, l1, self@, sock.log()));
        }
        urgent
    }

    /// Registers a burst for one uplink.
    pub(crate) fn register_burst<W: FdbWriter>(
        &mut self,
        sock: &mut Recorded<W>,
        topo: &Topology,
        f: &FastPair,
        learnt: &KeyMap<Mac, u32>,
    )
        ensures
            same_cost(*old(self), *final(self)),
            burst_registered(
                topo@,
                f@,
                learnt@,
                old(self)@,
                old(sock).log(),
                final(self)@,
                final(sock).log(),
            ),
    {
        let ghost s = self@;
        let ghost log = sock.log();
        let set = keys_of(learnt);
        let macs = list_in_order(&set);
        let now = sock.now();
        self.stamp_burst(&f.dev, learnt, now.boot_millis);
        assert(self@ == stamped(s, f@.dev, learnt@, now.boot_millis));
        let over = self.burst_need(&f.dev, &set);
        let fresh = self.burst_new(&f.dev, &set);
        self.make_room(sock, topo, &f.dev, f.anat.dev, over, fresh);
        let ghost s1 = self@;
        let ghost l1 = sock.log();
        assert(room_made(
            topo@,
            f@.dev,
            f@.anat.dev,
            burst_over(stamped(s, f@.dev, learnt@, now.boot_millis), f@.dev, learnt@.dom()),
            burst_fresh(stamped(s, f@.dev, learnt@, now.boot_millis), f@.dev, learnt@.dom()),
            stamped(s, f@.dev, learnt@, now.boot_millis),
            log.push(Op::Clock { reading: now }),
            s1,
            l1,
        ));
        self.write_burst(sock, &f.dev, f.anat.dev, &macs);
        assert(burst_written(f@.dev, f@.anat.dev, macs@, s1, l1, self@, sock.log()));
    }

    /// Makes room for a burst.
    fn make_room<W: FdbWriter>(
        &mut self,
        sock: &mut Recorded<W>,
        topo: &Topology,
        dev: &String,
        index: u32,
        over: u128,
        fresh: usize,
    )
        ensures
            same_cost(*old(self), *final(self)),
            room_made(
                topo@,
                dev@,
                index,
                over as nat,
                fresh as nat,
                old(self)@,
                old(sock).log(),
                final(self)@,
                final(sock).log(),
            ),
    {
        if over == 0 {
            return;
        }
        let freed = self.shed_keeps(sock, dev, index, over, topo);
        let ghost s1 = self@;
        assert(keeps_shed(
            topo@,
            dev@,
            index,
            over as nat,
            old(self)@,
            old(sock).log(),
            s1,
            sock.log(),
            freed as nat,
        ));
        if (freed as u128) < over {
            if self.book.said.tight.insert(dev.clone()) {
                let line = say_tight(dev, fresh as u64, self.limit_of(dev) as u64);
                self.book.say(line);
            }
            assert(self@ == tight_said(s1, dev@, fresh as nat));
        }
    }

    /// Registers a burst that there is room for.
    fn write_burst<W: FdbWriter>(
        &mut self,
        sock: &mut Recorded<W>,
        dev: &String,
        index: u32,
        macs: &Vec<Mac>,
    )
        ensures
            same_cost(*old(self), *final(self)),
            burst_written(
                dev@,
                index,
                macs@,
                old(self)@,
                old(sock).log(),
                final(self)@,
                final(sock).log(),
            ),
    {
        let ghost s = self@;
        let ghost log = sock.log();
        self.book.note_index(sock, dev, index);
        let ghost b1 = self@.book;
        let ghost l1 = sock.log();
        assert(index_noted(s.book, log, dev@, index, b1, l1));
        let reg = register_batch_locked(&mut self.book, sock, dev, index, macs);
        let ghost b2 = self@.book;
        let ghost x = opt_registered(reg);
        assert(batch_registered(b1, l1, dev@, index, macs@, b2, sock.log(), x));
        let held: Vec<Mac> = match reg {
            Some(r) => r.held,
            None => Vec::new(),
        };
        assert(held@.to_set() =~= held_by(x));
        self.card_now_holds(dev, &held);
    }

    /// Stamps the guests that a burst has heard of.
    fn stamp_burst(&mut self, dev: &String, learnt: &KeyMap<Mac, u32>, now: u64)
        ensures
            same_cost(*old(self), *final(self)),
            final(self)@ == stamped(old(self)@, dev@, learnt@, now),
    {
        if self.memory.loaded.contains(dev) {
            self.memory.hear(dev, learnt, now);
        }
    }

    /// How many addresses of a burst the card does not hold.
    fn burst_new(&self, dev: &String, macs: &KeySet<Mac>) -> (r: usize)
        ensures
            r == burst_fresh(self@, dev@, macs@),
    {
        let mut fresh = macs.dup();
        match self.carried.get(dev) {
            Some(c) => {
                fresh.subtract(&c.present);
            },
            None => {
                assert(macs@.difference(self@.held(dev@)) =~= macs@);
            },
        }
        fresh.len()
    }

    /// How many slots a burst would need beyond those there are.
    fn burst_need(&self, dev: &String, macs: &KeySet<Mac>) -> (r: u128)
        ensures
            r == burst_over(self@, dev@, macs@),
    {
        let none: KeySet<Mac> = KeySet::new();
        let held: &KeySet<Mac> = match self.carried.get(dev) {
            Some(c) => &c.present,
            None => &none,
        };
        assert(held@ == self@.held(dev@));
        let mut fresh = macs.dup();
        fresh.subtract(held);
        let needed: u128 = held.len() as u128 + fresh.len() as u128;
        let limit = self.limit_of(dev);
        let allowed: usize = if limit >= CAPACITY_HEADROOM {
            limit - CAPACITY_HEADROOM
        } else {
            0
        };
        if needed > allowed as u128 {
            needed - allowed as u128
        } else {
            0
        }
    }
}

/// The addresses of a map.
fn keys_of(learnt: &KeyMap<Mac, u32>) -> (r: KeySet<Mac>)
    ensures
        r@ == learnt@.dom(),
{
    let mut set: KeySet<Mac> = KeySet::new();
    let list = learnt.list();
    let ghost ks = entry_models(list@);
    let mut i: usize = 0;
    while i < list.len()
        invariant
            ks == entry_models(list@),
            ks.no_duplicates(),
            i <= list@.len(),
            forall|m: Mac| #[trigger] set@.contains(m) <==> ks.take(i as int).contains(m),
        decreases list@.len() - i,
    {
        proof {
            lemma_entry(list@, i as int);
            assert(ks.take(i + 1) =~= ks.take(i as int).push(list@[i as int].0));
            lemma_push_contains(ks.take(i as int), list@[i as int].0);
        }
        let _ = set.insert(list[i].0);
        i += 1;
    }
    proof {
        assert(ks.take(i as int) =~= ks);
        lemma_entry_dom(list@);
        assert(set@ =~= learnt@.dom());
    }
    set
}

} // verus!
