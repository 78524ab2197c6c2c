//! One full pass: reading, deciding, and the phases of writing.

use vstd::prelude::*;

use crate::keyed::{lemma_mac_models, lemma_push_contains, KeyMap, KeySet};
use crate::mac::{unicast, Mac};
use crate::netlink::{Errno, FdbEntry, FdbWriter, Op, Recorded};
use crate::sync::card::{
    batch_registered, lemma_taken_out_errors, opt_registered, refusal_texts, register_batch_locked,
    say_refusals, take_out, taken_out, OutcomeModel, RegisteredModel, Why,
};
use crate::sync::decide::{
    behind_map, names_stacked, quiet_set, wanted_is, wanted_set, wanted_with_keeps, wire_set, Rules,
    Wanted,
};
use crate::sync::files::since;
use crate::sync::journal::{
    over_text, pinned_lines, pressure_text, quiet_text, say_all_pinned, say_over, say_pressure,
    say_quiet, say_took_over, took_over_text,
};
use crate::sync::memory::{memory_loaded, memory_saved, passed_over, silence, MemoryModel, Ports};
use crate::sync::notes::{index_noted, note_looked, note_merged, owned_in, BookModel};
use crate::sync::orphans::Run;
use crate::sync::said::{mac_sets, Marks};
use crate::sync::syncer::{
    carried_models, copy_answer, name_map, same_cost, unknown_lines, unknown_marks, Syncer,
    SyncerModel, CAPACITY_HEADROOM,
};
use crate::sync::timings::{elapsed, lemma_measured_none, lemma_measured_one, marks_grew, measured};
use crate::sync::types::{Carried, CarriedModel, Detail, PairModel, Report};
use crate::sync::valve::{longest_silent, released};
use crate::text::{digits, push_number, push_text};
use crate::topology::{anatomy_of, copy_indices, Anatomy, AnatomyModel, Topology, TopologyModel};
use crate::topology::detect::texts;

verus! {

/// What a pass goes by.
pub struct Pass {
    /// the host
    pub t: TopologyModel,
    /// the forwarding table
    pub fdb: Seq<FdbEntry>,
    /// the physical functions behind all uplinks
    pub pfs: Seq<u32>,
    /// the stamp of this pass
    pub pass_at: u64,
    /// whether the card may be touched
    pub apply: bool,
}

/// How far a pass has come.
pub struct Progress {
    pub run: Run,
    /// whether the driver's answer is the previous pass's
    pub vf_carried: bool,
    pub reports: Seq<Report>,
}

/// What the dump shows in an interface's own filter.
pub open spec fn own_entries(fdb: Seq<FdbEntry>, index: u32) -> Set<Mac> {
    Set::new(
        |m: Mac|
            exists|i: int|
                0 <= i < fdb.len() && (#[trigger] fdb[i]).own() && fdb[i].ifindex == index
                    && unicast(fdb[i].mac) && fdb[i].mac == m,
    )
}

/// How a pair stands in this picture; nothing when its device or its bridge is
/// not there, or the one is not under the other.
pub open spec fn place_of(t: TopologyModel, pair: PairModel) -> Option<AnatomyModel> {
    if t.names.contains_key(pair.dev) && t.names.contains_key(pair.bridge) {
        anatomy_of(t.links, t.names[pair.dev], t.names[pair.bridge])
    } else {
        None
    }
}

impl SyncerModel {
    /// What decides beside the host.
    pub open spec fn rules(self) -> Rules {
        Rules { exclude: self.exclude, extra: self.extra }
    }
}

/// What an uplink's filter should hold, by the driver's answer in force.
pub open spec fn want_of(
    c: Pass,
    anat: AnatomyModel,
    dev: Seq<char>,
    owned: Set<Mac>,
    s: SyncerModel,
) -> Set<Mac> {
    wanted_set(s.rules(), c.t.links, anat, c.fdb, s.vf_answer(), owned, s.memory.ports(dev))
}

/// The part of it that is only kept.
pub open spec fn kept_of(
    c: Pass,
    anat: AnatomyModel,
    dev: Seq<char>,
    owned: Set<Mac>,
    s: SyncerModel,
) -> Set<Mac> {
    quiet_set(s.rules(), c.t.links, anat, c.fdb, s.vf_answer(), owned, s.memory.ports(dev))
}

/// Whether an address has just gone quiet: it is kept, and the last pass did
/// not say so.
pub open spec fn newly_quiet(
    quiet: Map<Seq<char>, Set<Mac>>,
    dev: Seq<char>,
    kept: Set<Mac>,
) -> bool {
    if quiet.contains_key(dev) {
        !kept.subset_of(quiet[dev])
    } else {
        kept != Set::<Mac>::empty()
    }
}

/// Whether this pass would grow a filter, or keep an address that it did not
/// keep before: a carried answer of the driver decides neither.
pub open spec fn would_grow(
    c: Pass,
    anat: AnatomyModel,
    dev: Seq<char>,
    owned: Set<Mac>,
    s: SyncerModel,
) -> bool {
    ||| newly_quiet(s.book.said.quiet, dev, kept_of(c, anat, dev, owned, s))
    ||| !want_of(c, anat, dev, owned, s).subset_of(own_entries(c.fdb, anat.dev))
}

/// The book once it has been said that the memory of the previous process was
/// taken over. Only the process that manages the card says so.
pub open spec fn took_over_said(
    b: BookModel,
    apply: bool,
    dev: Seq<char>,
    s: SyncerModel,
    mem: MemoryModel,
) -> BookModel {
    b.saying_if(
        apply && !s.dry_run && !s.memory.carried.contains_key(dev) && mem.carried.contains_key(dev),
        took_over_text(dev, mem.ports(dev).dom().len()),
    )
}

/// The first step for a pair: the memory of the previous process is taken over,
/// and the note is looked at.
pub open spec fn pair_read(
    t: TopologyModel,
    apply: bool,
    dev: Seq<char>,
    s: SyncerModel,
    log: Seq<Op>,
    s2: SyncerModel,
    log2: Seq<Op>,
) -> bool {
    exists|b1: BookModel, l1: Seq<Op>|
        {
            &&& #[trigger] memory_loaded(s.memory, s.book, log, t, dev, s2.memory, b1, l1)
            &&& #[trigger] note_looked(
                took_over_said(b1, apply, dev, s, s2.memory),
                l1,
                dev,
                s2.book,
                log2,
            )
            &&& s2 == (SyncerModel { memory: s2.memory, book: s2.book, ..s })
        }
}

/// The second step: a carried answer that would decide a growth is replaced by
/// a fresh one. Where the driver does not answer the pass ends, and nobody is
/// to believe the carried answer after that.
pub open spec fn answer_settled(
    c: Pass,
    anat: AnatomyModel,
    dev: Seq<char>,
    owned: Set<Mac>,
    s: SyncerModel,
    log: Seq<Op>,
    carried: bool,
    s2: SyncerModel,
    log2: Seq<Op>,
    carried2: bool,
    failed: Option<Errno>,
) -> bool {
    if carried && would_grow(c, anat, dev, owned, s) {
        &&& log2 == log.push(log2.last())
        &&& log2.last() matches Op::VfMacs { functions, answer } && functions == c.pfs
            && match answer {
            Ok(v) => {
                &&& s2 == s.with_answer(c.pfs, v)
                &&& !carried2
                &&& failed is None
            },
            Err(e) => {
                &&& s2 == (SyncerModel { vf_stale: true, ..s })
                &&& carried2 == carried
                &&& failed == Some(e)
            },
        }
    } else {
        &&& s2 == s
        &&& log2 == log
        &&& carried2 == carried
        &&& failed is None
    }
}

/// What has been decided for a pair.
pub struct Decision {
    /// what the filter is to hold
    pub want: Set<Mac>,
    /// the part of it that is only kept
    pub kept: Set<Mac>,
    /// how many slots that takes, with what is not ours to remove
    pub occupied: nat,
}

/// The interface that holds the filter an uplink writes into, remembered where
/// it is another one.
pub open spec fn cards_after(
    cards: Map<Seq<char>, Seq<char>>,
    t: TopologyModel,
    card: u32,
    dev: Seq<char>,
) -> Map<Seq<char>, Seq<char>> {
    if t.links.contains_key(card) {
        if t.links[card].name != dev {
            cards.insert(dev, t.links[card].name)
        } else {
            cards.remove(dev)
        }
    } else {
        cards
    }
}

/// How many slots an uplink's card needs: what is wanted, and the entries that
/// are neither wanted nor ours to remove. Asked of the card that holds the
/// filter: several uplinks can share one list of slots.
pub open spec fn slots_needed(c: Pass, anat: AnatomyModel, want: Set<Mac>, owned: Set<Mac>) -> nat {
    want.len() + own_entries(c.fdb, anat.card).difference(want).difference(owned).len()
}

/// How many slots there are too many, the headroom counted.
pub open spec fn slots_over(occupied: nat, limit: usize) -> nat {
    if occupied + CAPACITY_HEADROOM > limit {
        (occupied + CAPACITY_HEADROOM - limit) as nat
    } else {
        0
    }
}

/// What an uplink's card can hold, once it is known which card that is.
pub open spec fn limit_for(c: Pass, anat: AnatomyModel, dev: Seq<char>, s: SyncerModel) -> usize {
    SyncerModel { karte_von: cards_after(s.karte_von, c.t, anat.card, dev), ..s }.limit(dev)
}

/// How many slots too many an uplink's card would need.
pub open spec fn pressure(
    c: Pass,
    anat: AnatomyModel,
    dev: Seq<char>,
    owned: Set<Mac>,
    s: SyncerModel,
) -> nat {
    slots_over(
        slots_needed(c, anat, want_of(c, anat, dev, owned, s), owned),
        limit_for(c, anat, dev, s),
    )
}

/// Which kept addresses are surrendered because the list nears the limit: the
/// longest-silent first, and no more than are needed.
pub open spec fn pair_shed(
    c: Pass,
    anat: AnatomyModel,
    dev: Seq<char>,
    owned: Set<Mac>,
    s: SyncerModel,
    shed: Seq<Mac>,
    d: Decision,
) -> bool {
    let want = want_of(c, anat, dev, owned, s);
    let kept = kept_of(c, anat, dev, owned, s);
    &&& released(kept, s.memory.ports(dev), pressure(c, anat, dev, owned, s), shed)
    &&& d.want == want.difference(shed.to_set())
    &&& d.kept == kept.difference(shed.to_set())
    &&& d.occupied == slots_needed(c, anat, want, owned) - shed.len()
}

/// The third step: what is wanted, what is kept and what is surrendered, and
/// what is remembered of that.
pub open spec fn pair_decided(
    c: Pass,
    anat: AnatomyModel,
    dev: Seq<char>,
    owned: Set<Mac>,
    s: SyncerModel,
    s2: SyncerModel,
    d: Decision,
) -> bool {
    &&& exists|shed: Seq<Mac>| #[trigger] pair_shed(c, anat, dev, owned, s, shed, d)
    &&& s2 == (SyncerModel {
        karte_von: cards_after(s.karte_von, c.t, anat.card, dev),
        carried_wire: s.carried_wire.insert(dev, wire_set(c.t.links, anat, c.fdb)),
        ..s.with_said(
            Marks {
                unknown_vf: unknown_marks(s.book.said.unknown_vf, c.t, dev, s.vf_answer()),
                extra: s.book.said.extra.insert(
                    dev,
                    s.extra.difference(want_of(c, anat, dev, owned, s)),
                ),
                quiet: s.book.said.quiet.insert(dev, d.kept),
                ..s.book.said
            },
        ).saying_all(decided_lines(c, anat, dev, owned, s, d))
    })
}

/// What is said of a decision: the virtual functions that cannot be known, the
/// pinned addresses that did not make it, what was surrendered and what is newly
/// kept quiet. Each is said once as long as it lasts.
pub open spec fn decided_lines(
    c: Pass,
    anat: AnatomyModel,
    dev: Seq<char>,
    owned: Set<Mac>,
    s: SyncerModel,
    d: Decision,
) -> Seq<Seq<char>> {
    let want = want_of(c, anat, dev, owned, s);
    unknown_lines(s.book.said.unknown_vf, c.t, dev, s.vf_answer()) + marked_lines(
        dev,
        s.book.said,
        s.extra.difference(want),
        d.kept,
        limit_for(c, anat, dev, s),
        slots_needed(c, anat, want, owned) - d.occupied,
        c.apply,
    )
}

/// What is said of pinned, surrendered and kept addresses. A pass that only
/// looks says nothing of the last two.
pub open spec fn marked_lines(
    dev: Seq<char>,
    said: Marks,
    unpinned: Set<Mac>,
    kept: Set<Mac>,
    limit: usize,
    shed: int,
    apply: bool,
) -> Seq<Seq<char>> {
    let fresh = kept.difference(said_of(said.quiet, dev)).len();
    pinned_lines(dev, unpinned.difference(said_of(said.extra, dev))) + if apply && shed > 0 {
        seq![pressure_text(dev, limit as nat, shed as nat)]
    } else {
        Seq::empty()
    } + if apply && fresh > 0 {
        seq![quiet_text(dev, fresh)]
    } else {
        Seq::empty()
    }
}

/// The addresses that something has been said of.
pub open spec fn said_of(marks: Map<Seq<char>, Set<Mac>>, dev: Seq<char>) -> Set<Mac> {
    if marks.contains_key(dev) {
        marks[dev]
    } else {
        Set::empty()
    }
}

/// Whether a list holds each of a set once.
pub open spec fn lists(v: Seq<Mac>, s: Set<Mac>) -> bool {
    v.no_duplicates() && v.to_set() == s
}

/// What putting addresses in came to.
pub struct Added {
    /// how many were put in, or would have been
    pub count: nat,
    /// what is ours now
    pub owned: Set<Mac>,
    /// what the card holds because of it
    pub landed: Set<Mac>,
}

/// What is said when the note could not take a batch.
pub open spec fn held_back_text(dev: Seq<char>, n: nat) -> Seq<char> {
    dev + ": note unusable, "@ + digits(n) + " registration(s) held back"@
}

/// The fourth step: the interface is recorded beside the note, and what is
/// wanted and not there is registered. A pass that may not touch the card only
/// counts.
pub open spec fn pair_registered(
    c: Pass,
    anat: AnatomyModel,
    dev: Seq<char>,
    owned: Set<Mac>,
    want: Set<Mac>,
    r: Run,
    r2: Run,
    a: Added,
) -> bool {
    exists|macs: Seq<Mac>|
        {
            &&& #[trigger] lists(macs, want.difference(own_entries(c.fdb, anat.dev)))
            &&& if !c.apply || r.s.dry_run {
                &&& r2 == r
                &&& a == (Added { count: macs.len(), owned, landed: Set::empty() })
            } else {
                batch_passed(anat, dev, owned, macs, r, r2, a)
            }
        }
}

/// The fourth step where the card may be touched.
pub open spec fn batch_passed(
    anat: AnatomyModel,
    dev: Seq<char>,
    owned: Set<Mac>,
    macs: Seq<Mac>,
    r: Run,
    r2: Run,
    a: Added,
) -> bool {
    let none = Added { count: 0, owned, landed: Set::empty() };
    exists|b1: BookModel, l1: Seq<Op>|
        {
            &&& #[trigger] index_passed(r.s.book, r.log, dev, anat.dev, owned, macs, b1, l1)
            &&& if macs.len() == 0 {
                &&& r2 == (Run { s: r.s.with_book(b1), log: l1, ..r })
                &&& a == none
            } else {
                exists|reg: Option<RegisteredModel>|
                    {
                        &&& #[trigger] batch_registered(
                            b1,
                            l1,
                            dev,
                            anat.dev,
                            macs,
                            r2.s.book,
                            r2.log,
                            reg,
                        )
                        &&& r2.s == r.s.with_book(r2.s.book)
                        &&& match reg {
                            Some(x) => {
                                &&& a == (Added {
                                    count: x.put.len(),
                                    owned: owned.union(x.put.to_set()),
                                    landed: x.held.to_set(),
                                })
                                &&& r2.failures == r.failures + x.failures
                            },
                            None => {
                                &&& a == none
                                &&& r2.failures == r.failures.push(held_back_text(dev, macs.len()))
                            },
                        }
                    }
            }
        }
}

/// Which interface a note is about is recorded where there is a note, or is
/// about to be one.
pub open spec fn index_passed(
    b: BookModel,
    log: Seq<Op>,
    dev: Seq<char>,
    index: u32,
    owned: Set<Mac>,
    macs: Seq<Mac>,
    b2: BookModel,
    log2: Seq<Op>,
) -> bool {
    if owned == Set::<Mac>::empty() && macs.len() == 0 {
        b2 == b && log2 == log
    } else {
        index_noted(b, log, dev, index, b2, log2)
    }
}

/// What taking addresses out came to.
pub struct Dropped {
    /// how many were taken out, or would have been
    pub count: nat,
    /// what is ours still
    pub owned: Set<Mac>,
    /// what the card let go
    pub gone: Set<Mac>,
}

/// The memory of an uplink without these addresses.
pub open spec fn evicted(mem: MemoryModel, dev: Seq<char>, macs: Set<Mac>) -> MemoryModel {
    MemoryModel {
        carried: if mem.carried.contains_key(dev) {
            mem.carried.insert(dev, mem.carried[dev].remove_keys(macs))
        } else {
            mem.carried
        },
        ..mem
    }
}

/// The fifth step: what is ours and no longer wanted is taken out of the card,
/// and off the note as far as the card let it go. What the card would not let
/// go stays on the note but loses its memory, so that it is not taken for a
/// quiet one later.
pub open spec fn pair_retired(
    c: Pass,
    anat: AnatomyModel,
    dev: Seq<char>,
    owned: Set<Mac>,
    want: Set<Mac>,
    r: Run,
    r2: Run,
    x: Dropped,
) -> bool {
    exists|stale: Seq<Mac>|
        {
            &&& #[trigger] lists(stale, owned.difference(want))
            &&& if !c.apply || r.s.dry_run || stale.len() == 0 {
                &&& r2 == r
                &&& x == (Dropped { count: stale.len(), owned, gone: Set::empty() })
            } else {
                stale_taken_out(anat, dev, owned, stale, r, r2, x)
            }
        }
}

/// The fifth step where there is something to take out.
pub open spec fn stale_taken_out(
    anat: AnatomyModel,
    dev: Seq<char>,
    owned: Set<Mac>,
    stale: Seq<Mac>,
    r: Run,
    r2: Run,
    x: Dropped,
) -> bool {
    exists|o: OutcomeModel|
        {
            &&& #[trigger] taken_out(
                r.s.book,
                r.log,
                dev,
                anat.dev,
                stale,
                r2.s.book,
                r2.log,
                o,
                Why::Stale,
            )
            &&& r2.s == (SyncerModel {
                book: r2.s.book,
                memory: evicted(r.s.memory, dev, o.failed.to_set()),
                ..r.s
            })
            &&& r2.failures == r.failures + refusal_texts(dev, "unregister"@, o.failed, o.errors)
            &&& x == (Dropped {
                count: o.settled.len(),
                owned: owned.difference(o.settled.to_set()),
                gone: o.settled.to_set(),
            })
        }
}

/// The sixth step: the note is brought up to date with what is ours now, as a
/// difference, and the memory with what the dump showed.
pub open spec fn pair_remembered(
    c: Pass,
    anat: AnatomyModel,
    dev: Seq<char>,
    before: Set<Mac>,
    after: Set<Mac>,
    readable: bool,
    s: SyncerModel,
    log: Seq<Op>,
    s2: SyncerModel,
    log2: Seq<Op>,
) -> bool {
    let ports = passed_over(
        s.memory.ports(dev),
        behind_map(c.t.links, anat, c.fdb),
        c.pass_at,
        after,
    );
    let mem = MemoryModel { carried: s.memory.carried.insert(dev, ports), ..s.memory };
    exists|b1: BookModel, l1: Seq<Op>|
        {
            &&& #[trigger] note_brought_up(
                c.apply,
                s.dry_run,
                s.book,
                log,
                dev,
                before,
                after,
                b1,
                l1,
            )
            &&& s2 == (SyncerModel { book: s2.book, memory: s2.memory, ..s })
            &&& if !readable {
                s2.memory == s.memory && s2.book == b1 && log2 == l1
            } else if !c.apply {
                s2.memory == mem && s2.book == b1 && log2 == l1
            } else {
                memory_saved(
                    mem,
                    b1,
                    l1,
                    c.t,
                    dev,
                    c.pass_at,
                    s.dry_run,
                    s2.memory,
                    s2.book,
                    log2,
                )
            }
        }
}

/// The note is rewritten only where this pass changed what is ours.
pub open spec fn note_brought_up(
    apply: bool,
    dry_run: bool,
    b: BookModel,
    log: Seq<Op>,
    dev: Seq<char>,
    before: Set<Mac>,
    after: Set<Mac>,
    b2: BookModel,
    log2: Seq<Op>,
) -> bool {
    if apply && !dry_run && before != after {
        note_merged(b, log, dev, before, after, b2, log2)
    } else {
        b2 == b && log2 == log
    }
}

/// The marks about a filter that is over its limit, or near it.
pub open spec fn limit_marks(said: Marks, dev: Seq<char>, occupied: nat, limit: usize) -> Marks {
    Marks {
        over: if occupied > limit {
            said.over.insert(dev)
        } else {
            said.over.remove(dev)
        },
        tight: if occupied + CAPACITY_HEADROOM <= limit {
            said.tight.remove(dev)
        } else {
            said.tight
        },
        ..said
    }
}

/// The syncer once the limit has been looked at: a filter over it is warned
/// about, once as long as it stays over.
pub open spec fn limit_said(s: SyncerModel, dev: Seq<char>, occupied: nat) -> SyncerModel {
    let marked = s.with_said(limit_marks(s.book.said, dev, occupied, s.limit(dev)));
    if occupied > s.limit(dev) && !s.book.said.over.contains(dev) {
        marked.saying(over_text(dev, occupied, s.limit(dev) as nat))
    } else {
        marked
    }
}

/// A filter over its limit is warned about when that comes up, and not again as
/// long as it lasts; once it was back under, the next time counts as new.
pub proof fn the_limit_is_warned_about_once(
    s: SyncerModel,
    dev: Seq<char>,
    occupied: nat,
    next: nat,
    under: nat,
)
    requires
        occupied > s.limit(dev),
        next > s.limit(dev),
        under <= s.limit(dev),
    ensures
        !s.book.said.over.contains(dev) ==> limit_said(s, dev, occupied).book.journal
            == s.book.journal.push(over_text(dev, occupied, s.limit(dev) as nat)),
        limit_said(limit_said(s, dev, occupied), dev, next).book.journal == limit_said(
            s,
            dev,
            occupied,
        ).book.journal,
        limit_said(s, dev, under).book.journal == s.book.journal,
        limit_said(limit_said(s, dev, under), dev, next).book.journal == s.book.journal.push(
            over_text(dev, next, s.limit(dev) as nat),
        ),
{
}

/// The last step: the marks about the limit, and what the event path counts
/// from until the next pass: the dump, the additions that really landed, and
/// not the removals that really took.
pub open spec fn pair_carried(
    c: Pass,
    anat: AnatomyModel,
    dev: Seq<char>,
    d: Decision,
    landed: Set<Mac>,
    gone: Set<Mac>,
    readable: bool,
    s: SyncerModel,
) -> SyncerModel {
    let present = own_entries(c.fdb, anat.dev);
    SyncerModel {
        carried: s.carried.insert(
            dev,
            CarriedModel {
                present: present.union(landed).difference(gone),
                quiet: d.kept,
                passed_at: if readable {
                    c.pass_at
                } else {
                    s.passed_at(dev)
                },
            },
        ),
        ..if c.apply {
            limit_said(s, dev, d.occupied)
        } else {
            s
        }
    }
}

/// Whether the per-address half of a report is right.
pub open spec fn detail_is(
    c: Pass,
    dev: Seq<char>,
    d: Decision,
    s: SyncerModel,
    x: Detail,
) -> bool {
    &&& lists(x.wanted@, d.want)
    &&& lists(x.quiet_ages@.map_values(|p: (Mac, u64)| p.0), d.kept)
    &&& forall|i: int|
        0 <= i < x.quiet_ages@.len() ==> (#[trigger] x.quiet_ages@[i]).1 == silence(
            s.memory,
            dev,
            x.quiet_ages@[i].0,
            c.pass_at,
        )
    &&& x.learnt_behind@.map_values(|p: (Mac, String)| p.0).no_duplicates()
    &&& forall|m: Mac, n: Seq<char>| #[trigger]
        names_port(x.learnt_behind@, m, n) <==> {
            &&& d.want.contains(m)
            &&& s.memory.ports(dev).contains_key(m)
            &&& c.t.links.contains_key(s.memory.ports(dev)[m].0)
            &&& c.t.links[s.memory.ports(dev)[m].0].name == n
        }
}

/// Whether a list says that an address was learnt behind a port of this name.
pub open spec fn names_port(v: Seq<(Mac, String)>, m: Mac, n: Seq<char>) -> bool {
    exists|i: int| 0 <= i < v.len() && (#[trigger] v[i]).0 == m && v[i].1@ == n
}

/// Whether a report is right.
pub open spec fn report_is(
    c: Pass,
    pair: PairModel,
    anat: AnatomyModel,
    before: Set<Mac>,
    d: Decision,
    a: Added,
    x: Dropped,
    s: SyncerModel,
    r: Report,
) -> bool {
    let present = own_entries(c.fdb, anat.dev);
    &&& r.dev@ == pair.dev
    &&& r.bridge@ == pair.bridge
    &&& r.port@ == if c.t.links.contains_key(anat.port) {
        c.t.links[anat.port].name
    } else {
        pair.dev
    }
    &&& r.driver@ == match c.t.links[anat.dev].driver {
        Some(n) => n,
        None => Seq::empty(),
    }
    &&& r.wanted == d.want.len()
    &&& r.owned == x.owned.len()
    &&& r.present == present.len()
    &&& if c.t.links.contains_key(anat.bridge) {
        names_stacked(texts(r.stacked@), c.t.links, anat.bridge)
    } else {
        r.stacked@.len() == 0
    }
    &&& r.added == a.count
    &&& r.removed == x.count
    &&& r.foreign == d.want.intersect(present).difference(before).len()
    &&& r.quiet == d.kept.len()
    &&& match r.detail {
        Some(y) => s.detail && detail_is(c, pair.dev, d, s, y),
        None => !s.detail,
    }
}

/// What a pass was given and has read.
pub struct Given {
    pub fdb: Vec<FdbEntry>,
    pub pfs: Vec<u32>,
    pub pass_at: u64,
    pub apply: bool,
}

/// What a pass goes by.
pub open spec fn pass_of(topo: Topology, g: Given) -> Pass {
    Pass { t: topo@, fdb: g.fdb@, pfs: g.pfs@, pass_at: g.pass_at, apply: g.apply }
}

/// What the dump shows in an interface's own filter.
pub(crate) fn own_set(fdb: &Vec<FdbEntry>, index: u32) -> (r: KeySet<Mac>)
    ensures
        r@ == own_entries(fdb@, index),
{
    let mut out: KeySet<Mac> = KeySet::new();
    let mut i: usize = 0;
    while i < fdb.len()
        invariant
            i <= fdb@.len(),
            forall|m: Mac| #[trigger]
                out@.contains(m) <==> exists|j: int|
                    0 <= j < i && (#[trigger] fdb@[j]).own() && fdb@[j].ifindex == index && unicast(
                        fdb@[j].mac,
                    ) && fdb@[j].mac == m,
        decreases fdb@.len() - i,
    {
        let e = &fdb[i];
        if e.is_self() && e.ifindex == index && e.is_unicast() {
            let _ = out.insert(e.mac);
        }
        i += 1;
    }
    assert(out@ =~= own_entries(fdb@, index));
    out
}

/// Those of the one set that are not in the other, in a list.
pub(crate) fn list_without(a: &KeySet<Mac>, b: &KeySet<Mac>) -> (r: Vec<Mac>)
    ensures
        lists(r@, a@.difference(b@)),
{
    let list = a.list();
    proof {
        lemma_mac_models(list@);
    }
    let mut out: Vec<Mac> = Vec::new();
    let mut i: usize = 0;
    while i < list.len()
        invariant
            i <= list@.len(),
            list@.no_duplicates(),
            out@.no_duplicates(),
            forall|m: Mac| #[trigger]
                out@.contains(m) <==> list@.take(i as int).contains(m) && !b@.contains(m),
        decreases list@.len() - i,
    {
        let m = list[i];
        let ghost out0 = out@;
        proof {
            assert(list@.take(i + 1) =~= list@.take(i as int).push(m));
            lemma_push_contains(list@.take(i as int), m);
            lemma_push_contains(out0, m);
            assert(!list@.take(i as int).contains(m)) by {
                if list@.take(i as int).contains(m) {
                    let j = choose|j: int| 0 <= j < i && list@.take(i as int)[j] == m;
                    assert(list@[j] == list@[i as int]);
                }
            }
        }
        if !b.contains(&m) {
            assert forall|j: int| 0 <= j < out0.len() implies out0[j] != m by {
                assert(out0.contains(out0[j]));
            }
            out.push(m);
        }
        i += 1;
    }
    proof {
        assert(list@.take(i as int) =~= list@);
        assert forall|m: Mac| out@.to_set().contains(m) <==> a@.difference(b@).contains(m) by {
            assert(list@.to_set().contains(m) <==> a@.contains(m));
            assert(out@.contains(m) <==> list@.contains(m) && !b@.contains(m));
        }
        assert(out@.to_set() =~= a@.difference(b@));
    }
    out
}

/// How many of the one set are not in the other two.
pub(crate) fn count_without(a: &KeySet<Mac>, b: &KeySet<Mac>, c: &KeySet<Mac>) -> (r: usize)
    ensures
        r == a@.difference(b@).difference(c@).len(),
        a@.difference(b@).difference(c@).finite(),
{
    let mut rest = a.dup();
    rest.subtract(b);
    rest.subtract(c);
    assert(rest@ =~= a@.difference(b@).difference(c@));
    rest.len()
}

/// What has been decided for a pair.
pub struct Decided {
    pub want: KeySet<Mac>,
    pub kept: KeySet<Mac>,
    pub occupied: u128,
    pub stacked: Vec<String>,
    pub learnt_at: KeyMap<Mac, u32>,
}

/// What has been decided for a pair.
pub open spec fn decision_of(d: Decided) -> Decision {
    Decision { want: d.want@, kept: d.kept@, occupied: d.occupied as nat }
}

impl Syncer {
    /// The driver's answer in force.
    pub(crate) fn answer_in_force(&self) -> (r: Vec<(u32, Mac)>)
        ensures
            r@ == self@.vf_answer(),
    {
        match &self.carried_vf {
            Some(c) => copy_answer(&c.1),
            None => Vec::new(),
        }
    }

    /// What an uplink's filter should hold, by the driver's answer in force.
    fn ask_wanted(
        &self,
        topo: &Topology,
        given: &Given,
        anat: &Anatomy,
        dev: &String,
        owned: &KeySet<Mac>,
    ) -> (r: Wanted)
        ensures
            wanted_is(
                self@.rules(),
                topo@.links,
                anat@,
                given.fdb@,
                self@.vf_answer(),
                owned@,
                self@.memory.ports(dev@),
                r,
            ),
    {
        let vf = self.answer_in_force();
        let none: Ports = KeyMap::new();
        let ports: &Ports = match self.memory.carried.get(dev) {
            Some(p) => p,
            None => &none,
        };
        assert(ports@ == self@.memory.ports(dev@));
        wanted_with_keeps(
            &self.exclude,
            &self.extra,
            topo,
            anat,
            &given.fdb,
            &vf,
            owned,
            ports,
        )
    }

    pub(crate) fn read_pair<W: FdbWriter>(
        &mut self,
        sock: &mut Recorded<W>,
        topo: &Topology,
        apply: bool,
        dev: &String,
    ) -> (r: KeySet<Mac>)
        ensures
            final(sock).marks() == old(sock).marks(),
            same_cost(*old(self), *final(self)),
            pair_read(
                topo@,
                apply,
                dev@,
                old(self)@,
                old(sock).log(),
                final(self)@,
                final(sock).log(),
            ),
            r@ == owned_in(final(self)@.book.dir, dev@),
    {
        let ghost s = self@;
        let ghost log = sock.log();
        let known = self.memory.carried.contains_key(dev);
        self.memory.load_ports(&mut self.book, sock, dev, topo);
        let ghost b1 = self@.book;
        let ghost l1 = sock.log();
        assert(memory_loaded(s.memory, s.book, log, topo@, dev@, self@.memory, b1, l1));
        if apply && !self.dry_run && !known {
            if let Some(ports) = self.memory.carried.get(dev) {
                let line = say_took_over(dev, ports.len() as u64);
                assert(line@ == took_over_text(dev@, self@.memory.ports(dev@).dom().len()));
                self.book.say(line);
            }
        }
        let ghost bs = self@.book;
        assert(bs == took_over_said(b1, apply, dev@, s, self@.memory));
        let owned = self.book.load_owned(sock, dev);
        assert(note_looked(bs, l1, dev@, self@.book, sock.log()));
        owned
    }

    /// Asks the driver afresh where a carried answer would decide a growth. What
    /// the filter should hold, and whether the answer is still a carried one.
    pub(crate) fn settle_answer<W: FdbWriter>(
        &mut self,
        sock: &mut Recorded<W>,
        topo: &Topology,
        given: &Given,
        anat: &Anatomy,
        dev: &String,
        owned: &KeySet<Mac>,
        present: &KeySet<Mac>,
        carried: bool,
    ) -> (r: Result<(Wanted, bool), Errno>)
        requires
            present@ == own_entries(given.fdb@, anat.dev),
        ensures
            match r {
                Ok((w, carried2)) => {
                    &&& answer_settled(
                        pass_of(*topo, *given),
                        anat@,
                        dev@,
                        owned@,
                        old(self)@,
                        old(sock).log(),
                        carried,
                        final(self)@,
                        final(sock).log(),
                        carried2,
                        None,
                    )
                    &&& wanted_is(
                        final(self)@.rules(),
                        topo@.links,
                        anat@,
                        given.fdb@,
                        final(self)@.vf_answer(),
                        owned@,
                        final(self)@.memory.ports(dev@),
                        w,
                    )
                },
                Err(e) => answer_settled(
                    pass_of(*topo, *given),
                    anat@,
                    dev@,
                    owned@,
                    old(self)@,
                    old(sock).log(),
                    carried,
                    final(self)@,
                    final(sock).log(),
                    carried,
                    Some(e),
                ),
            },
            final(self).timings == old(self).timings,
            marks_grew(old(sock).marks(), final(sock).marks()),
            r is Ok ==> measured(
                old(sock).marks(),
                old(self).asking,
                final(sock).marks(),
                final(self).asking,
            ) && final(sock).marks().len() - old(sock).marks().len() == 2 * since(
                old(sock).log(),
                final(sock).log(),
            ).len(),
    {
        let ghost m0 = sock.marks();
        let ghost a0 = self.asking;
        proof {
            lemma_measured_none(m0, a0);
        }
        let w = self.ask_wanted(topo, given, anat, dev, owned);
        if !carried {
            return Ok((w, false));
        }
        let newly = match self.book.said.quiet.get(dev) {
            Some(said) => !w.kept.within(said),
            None => !w.kept.is_empty(),
        };
        proof {
            assert(newly == newly_quiet(self@.book.said.quiet, dev@, w.kept@));
        }
        if !newly && w.want.within(present) {
            return Ok((w, true));
        }
        self.vf_stale = true;
        let mark = sock.mark();
        match sock.vf_macs_of(&given.pfs) {
            Ok(fresh) => {
                let done = sock.mark();
                proof {
                    lemma_measured_one(m0, a0, mark, done);
                }
                let took: u64 = elapsed(mark.nanos, done.nanos);
                self.asking = self.asking.saturating_add(took);
                self.remember_vf(copy_indices(&given.pfs), fresh);
                let again = self.ask_wanted(topo, given, anat, dev, owned);
                Ok((again, false))
            },
            Err(e) => Err(e),
        }
    }

    /// Decides for a pair, and remembers what it decided.
    pub(crate) fn decide_pair(
        &mut self,
        topo: &Topology,
        given: &Given,
        anat: &Anatomy,
        dev: &String,
        owned: &KeySet<Mac>,
        present: &KeySet<Mac>,
        wanted: Wanted,
    ) -> (r: Decided)
        requires
            present@ == own_entries(given.fdb@, anat.dev),
            wanted_is(
                old(self)@.rules(),
                topo@.links,
                anat@,
                given.fdb@,
                old(self)@.vf_answer(),
                owned@,
                old(self)@.memory.ports(dev@),
                wanted,
            ),
        ensures
            same_cost(*old(self), *final(self)),
            pair_decided(
                pass_of(*topo, *given),
                anat@,
                dev@,
                owned@,
                old(self)@,
                final(self)@,
                decision_of(r),
            ),
            r.learnt_at@ == behind_map(topo@.links, anat@, given.fdb@),
            if topo@.links.contains_key(anat.bridge) {
                names_stacked(texts(r.stacked@), topo@.links, anat.bridge)
            } else {
                r.stacked@.len() == 0
            },
    {
        let ghost s = self@;
        let ghost c = pass_of(*topo, *given);
        let Wanted { want, stacked, wire, learnt_at, kept } = wanted;
        let ghost want0 = want@;
        let ghost kept0 = kept@;
        let on_card = own_set(&given.fdb, anat.card);
        let foreign = count_without(&on_card, &want, owned);
        let needed: u128 = want.len() as u128 + foreign as u128;
        let mut unpinned = self.extra.dup();
        unpinned.subtract(&want);
        let limit = self.open_pair(topo, anat.card, dev);
        let ghost s1 = self@;
        assert(s1 == opened(c, anat@, dev@, s));
        assert(limit == limit_for(c, anat@, dev@, s));
        let over: u128 = if needed + CAPACITY_HEADROOM as u128 > limit as u128 {
            needed + CAPACITY_HEADROOM as u128 - limit as u128
        } else {
            0
        };
        assert(over == pressure(c, anat@, dev@, owned@, s));
        let shed = self.choose_shed(dev, &kept, over);
        let (want, kept, shed_len) = surrender(want, kept, &shed);
        let occupied: u128 = needed - shed_len as u128;
        self.mark_pair(dev, unpinned, wire, kept.dup(), limit, shed_len, given.apply);
        let r = Decided { want, kept, occupied, stacked, learnt_at };
        assert(pair_shed(c, anat@, dev@, owned@, s, shed@, decision_of(r)));
        proof {
            lemma_decided(c, anat@, dev@, owned@, s, shed@, decision_of(r), limit, self@);
        }
        r
    }

    /// Says of virtual functions that their address cannot be known, and
    /// remembers which interface holds the filter. What that can hold.
    fn open_pair(&mut self, topo: &Topology, card: u32, dev: &String) -> (r: usize)
        ensures
            same_cost(*old(self), *final(self)),
            final(self)@ == (SyncerModel {
                karte_von: cards_after(old(self)@.karte_von, topo@, card, dev@),
                ..unknown_said(old(self)@, topo@, dev@)
            }),
            r == final(self)@.limit(dev@),
    {
        let vf = self.answer_in_force();
        self.warn_about_unknowable_vfs(topo, dev, &vf);
        self.find_card(topo, card, dev)
    }

    /// Remembers which interface holds the filter an uplink writes into. What
    /// that can hold.
    fn find_card(&mut self, topo: &Topology, card: u32, dev: &String) -> (r: usize)
        ensures
            same_cost(*old(self), *final(self)),
            final(self)@ == (SyncerModel {
                karte_von: cards_after(old(self)@.karte_von, topo@, card, dev@),
                ..old(self)@
            }),
            r == final(self)@.limit(dev@),
    {
        if let Some(n) = topo.name_of(card) {
            if *n != *dev {
                self.karte_von.insert(dev.clone(), n.clone());
            } else {
                let _ = self.karte_von.remove(dev);
            }
        }
        assert(name_map(self.karte_von@) =~= cards_after(
            old(self)@.karte_von,
            topo@,
            card,
            dev@,
        ));
        self.limit_of(dev)
    }

    /// Which of the kept addresses are surrendered.
    fn choose_shed(&self, dev: &String, kept: &KeySet<Mac>, over: u128) -> (r: Vec<Mac>)
        ensures
            released(kept@, self@.memory.ports(dev@), over as nat, r@),
            kept@.finite(),
    {
        let none: Ports = KeyMap::new();
        let ports: &Ports = match self.memory.carried.get(dev) {
            Some(p) => p,
            None => &none,
        };
        assert(ports@ == self@.memory.ports(dev@));
        longest_silent(kept, ports, over)
    }

    /// What is said of pinned, surrendered and kept addresses.
    fn lines_of(
        &self,
        dev: &String,
        unpinned: &KeySet<Mac>,
        kept: &KeySet<Mac>,
        limit: usize,
        shed: usize,
        apply: bool,
    ) -> (r: Vec<String>)
        ensures
            texts(r@) == marked_lines(
                dev@,
                self@.book.said,
                unpinned@,
                kept@,
                limit,
                shed as int,
                apply,
            ),
    {
        let news = unsaid(&self.book.said.extra, dev, unpinned);
        let mut out = say_all_pinned(dev, &news);
        let ghost pinned = out@;
        if apply && shed > 0 {
            out.push(say_pressure(dev, limit as u64, shed as u64));
        }
        let ghost middle = out@;
        let fresh = unsaid(&self.book.said.quiet, dev, kept).len();
        if apply && fresh > 0 {
            out.push(say_quiet(dev, fresh as u64));
        }
        assert(texts(out@) =~= marked_lines(
            dev@,
            self@.book.said,
            unpinned@,
            kept@,
            limit,
            shed as int,
            apply,
        ));
        out
    }

    /// Remembers what was decided for a pair.
    fn mark_pair(
        &mut self,
        dev: &String,
        unpinned: KeySet<Mac>,
        wire: KeySet<Mac>,
        kept: KeySet<Mac>,
        limit: usize,
        shed: usize,
        apply: bool,
    )
        ensures
            same_cost(*old(self), *final(self)),
            final(self)@ == (SyncerModel {
                carried_wire: old(self)@.carried_wire.insert(dev@, wire@),
                ..old(self)@.with_said(
                    Marks {
                        extra: old(self)@.book.said.extra.insert(dev@, unpinned@),
                        quiet: old(self)@.book.said.quiet.insert(dev@, kept@),
                        ..old(self)@.book.said
                    },
                ).saying_all(
                    marked_lines(
                        dev@,
                        old(self)@.book.said,
                        unpinned@,
                        kept@,
                        limit,
                        shed as int,
                        apply,
                    ),
                )
            }),
    {
        let ghost s = self@;
        let ghost (u, w, k) = (unpinned@, wire@, kept@);
        let lines = self.lines_of(dev, &unpinned, &kept, limit, shed, apply);
        self.book.say_all(lines);
        self.book.said.extra.insert(dev.clone(), unpinned);
        self.carried_wire.insert(dev.clone(), wire);
        self.book.said.quiet.insert(dev.clone(), kept);
        assert(mac_sets(self.book.said.extra@) =~= s.book.said.extra.insert(dev@, u));
        assert(mac_sets(self.book.said.quiet@) =~= s.book.said.quiet.insert(dev@, k));
        assert(mac_sets(self.carried_wire@) =~= s.carried_wire.insert(dev@, w));
    }
}

/// The syncer once the virtual functions that cannot be known are said.
spec fn unknown_said(s: SyncerModel, t: TopologyModel, dev: Seq<char>) -> SyncerModel {
    s.with_said(
        Marks {
            unknown_vf: unknown_marks(s.book.said.unknown_vf, t, dev, s.vf_answer()),
            ..s.book.said
        },
    ).saying_all(unknown_lines(s.book.said.unknown_vf, t, dev, s.vf_answer()))
}

/// The syncer once a pair's card is known as well.
spec fn opened(c: Pass, anat: AnatomyModel, dev: Seq<char>, s: SyncerModel) -> SyncerModel {
    SyncerModel {
        karte_von: cards_after(s.karte_von, c.t, anat.card, dev),
        ..unknown_said(s, c.t, dev)
    }
}

/// What the steps of a decision add up to.
proof fn lemma_decided(
    c: Pass,
    anat: AnatomyModel,
    dev: Seq<char>,
    owned: Set<Mac>,
    s: SyncerModel,
    shed: Seq<Mac>,
    d: Decision,
    limit: usize,
    s2: SyncerModel,
)
    requires
        pair_shed(c, anat, dev, owned, s, shed, d),
        limit == limit_for(c, anat, dev, s),
        ({
            let s1 = opened(c, anat, dev, s);
            let unpinned = s.extra.difference(want_of(c, anat, dev, owned, s));
            s2 == (SyncerModel {
                carried_wire: s1.carried_wire.insert(dev, wire_set(c.t.links, anat, c.fdb)),
                ..s1.with_said(
                    Marks {
                        extra: s1.book.said.extra.insert(dev, unpinned),
                        quiet: s1.book.said.quiet.insert(dev, d.kept),
                        ..s1.book.said
                    },
                ).saying_all(
                    marked_lines(
                        dev,
                        s1.book.said,
                        unpinned,
                        d.kept,
                        limit,
                        shed.len() as int,
                        c.apply,
                    ),
                )
            })
        }),
    ensures
        pair_decided(c, anat, dev, owned, s, s2, d),
{
    let want = want_of(c, anat, dev, owned, s);
    lemma_lines_join(
        s.book.journal,
        unknown_lines(s.book.said.unknown_vf, c.t, dev, s.vf_answer()),
        marked_lines(
            dev,
            s.book.said,
            s.extra.difference(want),
            d.kept,
            limit,
            slots_needed(c, anat, want, owned) - d.occupied,
            c.apply,
        ),
    );
}

proof fn lemma_lines_join(a: Seq<Seq<char>>, b: Seq<Seq<char>>, c: Seq<Seq<char>>)
    ensures
        (a + b) + c == a + (b + c),
{
    assert((a + b) + c =~= a + (b + c));
}

/// The addresses that nothing has been said of yet.
fn unsaid(marks: &KeyMap<String, KeySet<Mac>>, dev: &String, macs: &KeySet<Mac>) -> (r: KeySet<Mac>)
    ensures
        r@ == macs@.difference(said_of(mac_sets(marks@), dev@)),
{
    let mut r = macs.dup();
    match marks.get(dev) {
        Some(s) => {
            r.subtract(s);
        },
        None => {
            assert(macs@.difference(Set::empty()) =~= macs@);
        },
    }
    r
}

/// Takes what is surrendered off what is wanted and kept. How much that is.
fn surrender(want: KeySet<Mac>, kept: KeySet<Mac>, shed: &Vec<Mac>) -> (r: (
    KeySet<Mac>,
    KeySet<Mac>,
    usize,
))
    requires
        shed@.no_duplicates(),
        shed@.to_set().subset_of(kept@),
        kept@.subset_of(want@),
    ensures
        r.0@ == want@.difference(shed@.to_set()),
        r.1@ == kept@.difference(shed@.to_set()),
        r.2 == shed@.len(),
        shed@.len() <= want@.len(),
{
    let _ = want.len();
    proof {
        lemma_mac_models(shed@);
        shed@.unique_seq_to_set();
        vstd::set_lib::lemma_len_subset(shed@.to_set(), want@);
    }
    let mut want = want;
    let mut kept = kept;
    want.subtract_list(shed);
    kept.subtract_list(shed);
    (want, kept, shed.len())
}

/// What putting addresses in came to.
pub struct AddedHere {
    pub count: usize,
    pub owned: KeySet<Mac>,
    pub landed: Vec<Mac>,
}

/// What putting addresses in came to.
pub open spec fn added_of(a: AddedHere) -> Added {
    Added { count: a.count as nat, owned: a.owned@, landed: a.landed@.to_set() }
}

/// What taking addresses out came to.
pub struct DroppedHere {
    pub count: usize,
    pub owned: KeySet<Mac>,
    pub gone: Vec<Mac>,
}

/// What taking addresses out came to.
pub open spec fn dropped_of(x: DroppedHere) -> Dropped {
    Dropped { count: x.count as nat, owned: x.owned@, gone: x.gone@.to_set() }
}

/// Appends texts to a list of them.
fn append_texts(to: &mut Vec<String>, more: Vec<String>)
    ensures
        texts(final(to)@) == texts(old(to)@) + texts(more@),
{
    let ghost all = texts(more@);
    let mut more = more;
    let ghost whole = more@;
    to.append(&mut more);
    assert(texts(to@) =~= texts(old(to)@) + all);
}

impl Syncer {
    /// Registers what is wanted and not there.
    pub(crate) fn register_pair<W: FdbWriter>(
        &mut self,
        sock: &mut Recorded<W>,
        topo: &Topology,
        given: &Given,
        anat: &Anatomy,
        dev: &String,
        owned: &KeySet<Mac>,
        want: &KeySet<Mac>,
        present: &KeySet<Mac>,
        failures: &mut Vec<String>,
    ) -> (r: AddedHere)
        requires
            present@ == own_entries(given.fdb@, anat.dev),
        ensures
            final(sock).marks() == old(sock).marks(),
            same_cost(*old(self), *final(self)),
            pair_registered(
                pass_of(*topo, *given),
                anat@,
                dev@,
                owned@,
                want@,
                (Run { s: old(self)@, log: old(sock).log(), failures: texts(old(failures)@) }),
                (Run {
                    s: final(self)@,
                    log: final(sock).log(),
                    failures: texts(final(failures)@),
                }),
                added_of(r),
            ),
    {
        let ghost c = pass_of(*topo, *given);
        let ghost r0 = Run { s: self@, log: sock.log(), failures: texts(failures@) };
        let macs = list_without(want, present);
        assert(lists(macs@, want@.difference(own_entries(c.fdb, anat@.dev))));
        let mine = owned.dup();
        if !given.apply || self.dry_run {
            let none: Vec<Mac> = Vec::new();
            assert(none@.to_set() =~= Set::empty());
            let r = AddedHere { count: macs.len(), owned: mine, landed: none };
            proof {
                let r2 = Run { s: self@, log: sock.log(), failures: texts(failures@) };
                assert(pair_registered(c, anat@, dev@, owned@, want@, r0, r2, added_of(r)));
            }
            return r;
        }
        let r = self.register_batch(sock, anat, dev, owned, macs, failures);
        r
    }

    fn register_batch<W: FdbWriter>(
        &mut self,
        sock: &mut Recorded<W>,
        anat: &Anatomy,
        dev: &String,
        owned: &KeySet<Mac>,
        macs: Vec<Mac>,
        failures: &mut Vec<String>,
    ) -> (r: AddedHere)
        ensures
            final(sock).marks() == old(sock).marks(),
            same_cost(*old(self), *final(self)),
            batch_passed(
                anat@,
                dev@,
                owned@,
                macs@,
                (Run { s: old(self)@, log: old(sock).log(), failures: texts(old(failures)@) }),
                (Run {
                    s: final(self)@,
                    log: final(sock).log(),
                    failures: texts(final(failures)@),
                }),
                added_of(r),
            ),
    {
        let ghost r0 = Run { s: self@, log: sock.log(), failures: texts(failures@) };
        let mut mine = owned.dup();
        if !(owned.is_empty() && macs.len() == 0) {
            self.book.note_index(sock, dev, anat.dev);
        }
        let ghost b1 = self@.book;
        let ghost l1 = sock.log();
        assert(index_passed(r0.s.book, r0.log, dev@, anat@.dev, owned@, macs@, b1, l1));
        let none: Vec<Mac> = Vec::new();
        assert(none@.to_set() =~= Set::empty());
        if macs.len() == 0 {
            let r = AddedHere { count: 0, owned: mine, landed: none };
            proof {
                let r2 = Run { s: self@, log: sock.log(), failures: texts(failures@) };
                assert(r2 == (Run { s: r0.s.with_book(b1), log: l1, ..r0 }));
                assert(batch_passed(anat@, dev@, owned@, macs@, r0, r2, added_of(r)));
            }
            return r;
        }
        let reg = register_batch_locked(&mut self.book, sock, dev, anat.dev, &macs);
        let ghost x = opt_registered(reg);
        let ghost b2 = self@.book;
        let ghost l2 = sock.log();
        assert(batch_registered(b1, l1, dev@, anat@.dev, macs@, b2, l2, x));
        let r = match reg {
            Some(g) => {
                proof {
                    lemma_mac_models(g.put@);
                }
                mine.extend_list(&g.put);
                append_texts(failures, g.failures);
                AddedHere { count: g.put.len(), owned: mine, landed: g.held }
            },
            None => {
                let mut text = dev.clone();
                push_text(&mut text, ": note unusable, ");
                push_number(&mut text, macs.len() as u64);
                push_text(&mut text, " registration(s) held back");
                assert(text@ =~= held_back_text(dev@, macs@.len()));
                let ghost before = failures@;
                let ghost said = text@;
                failures.push(text);
                assert(texts(failures@) =~= texts(before).push(said));
                AddedHere { count: 0, owned: mine, landed: none }
            },
        };
        proof {
            let r2 = Run { s: self@, log: sock.log(), failures: texts(failures@) };
            assert(r2.s == r0.s.with_book(r2.s.book));
            assert(batch_registered(b1, l1, dev@, anat@.dev, macs@, r2.s.book, r2.log, x));
            assert(batch_passed(anat@, dev@, owned@, macs@, r0, r2, added_of(r)));
        }
        r
    }

    /// Takes out what is ours and no longer wanted.
    pub(crate) fn retire_pair<W: FdbWriter>(
        &mut self,
        sock: &mut Recorded<W>,
        topo: &Topology,
        given: &Given,
        anat: &Anatomy,
        dev: &String,
        owned: &KeySet<Mac>,
        want: &KeySet<Mac>,
        failures: &mut Vec<String>,
    ) -> (r: DroppedHere)
        ensures
            final(sock).marks() == old(sock).marks(),
            same_cost(*old(self), *final(self)),
            pair_retired(
                pass_of(*topo, *given),
                anat@,
                dev@,
                owned@,
                want@,
                (Run { s: old(self)@, log: old(sock).log(), failures: texts(old(failures)@) }),
                (Run {
                    s: final(self)@,
                    log: final(sock).log(),
                    failures: texts(final(failures)@),
                }),
                dropped_of(r),
            ),
    {
        let ghost c = pass_of(*topo, *given);
        let ghost r0 = Run { s: self@, log: sock.log(), failures: texts(failures@) };
        let stale = list_without(owned, want);
        assert(lists(stale@, owned@.difference(want@)));
        let mut mine = owned.dup();
        if !given.apply || self.dry_run || stale.len() == 0 {
            let none: Vec<Mac> = Vec::new();
            assert(none@.to_set() =~= Set::empty());
            let r = DroppedHere { count: stale.len(), owned: mine, gone: none };
            proof {
                let r2 = Run { s: self@, log: sock.log(), failures: texts(failures@) };
                assert(pair_retired(c, anat@, dev@, owned@, want@, r0, r2, dropped_of(r)));
            }
            return r;
        }
        let out = take_out(&mut self.book, sock, dev, anat.dev, &stale, Why::Stale);
        let ghost o = out@;
        let ghost b2 = self@.book;
        let ghost l2 = sock.log();
        proof {
            lemma_taken_out_errors(
                r0.s.book,
                r0.log,
                dev@,
                anat@.dev,
                stale@,
                b2,
                l2,
                o,
                Why::Stale,
            );
            lemma_mac_models(out.settled@);
        }
        mine.subtract_list(&out.settled);
        self.memory.evict(dev, &out.failed);
        let said = say_refusals(dev, "unregister", &out.failed, &out.errors);
        append_texts(failures, said);
        let r = DroppedHere { count: out.settled.len(), owned: mine, gone: out.settled };
        proof {
            let r2 = Run { s: self@, log: sock.log(), failures: texts(failures@) };
            assert(taken_out(r0.s.book, r0.log, dev@, anat@.dev, stale@, r2.s.book, r2.log, o, Why::Stale));
            assert(r2.s == (SyncerModel {
                book: r2.s.book,
                memory: evicted(r0.s.memory, dev@, o.failed.to_set()),
                ..r0.s
            }));
            assert(stale_taken_out(anat@, dev@, owned@, stale@, r0, r2, dropped_of(r)));
            assert(pair_retired(c, anat@, dev@, owned@, want@, r0, r2, dropped_of(r)));
        }
        r
    }

    /// Brings note and memory up to date.
    pub(crate) fn remember_pair<W: FdbWriter>(
        &mut self,
        sock: &mut Recorded<W>,
        topo: &Topology,
        given: &Given,
        anat: &Anatomy,
        dev: &String,
        before: &KeySet<Mac>,
        after: &KeySet<Mac>,
        readable: bool,
        learnt_at: &KeyMap<Mac, u32>,
    )
        requires
            learnt_at@ == behind_map(topo@.links, anat@, given.fdb@),
        ensures
            final(sock).marks() == old(sock).marks(),
            same_cost(*old(self), *final(self)),
            pair_remembered(
                pass_of(*topo, *given),
                anat@,
                dev@,
                before@,
                after@,
                readable,
                old(self)@,
                old(sock).log(),
                final(self)@,
                final(sock).log(),
            ),
    {
        let ghost c = pass_of(*topo, *given);
        let ghost s = self@;
        let ghost log = sock.log();
        let dry_run = self.dry_run;
        if given.apply && !after.equals(before) {
            self.book.save_owned_merged(sock, dev, before, after, dry_run);
        }
        let ghost b1 = self@.book;
        let ghost l1 = sock.log();
        assert(note_brought_up(
            c.apply,
            s.dry_run,
            s.book,
            log,
            dev@,
            before@,
            after@,
            b1,
            l1,
        ));
        if readable {
            self.memory.pass_over(dev, learnt_at, given.pass_at, after);
            if given.apply {
                self.memory.save_ports(
                    &mut self.book,
                    sock,
                    dev,
                    topo,
                    given.pass_at,
                    dry_run,
                );
            }
        }
    }

    /// Remembers how full the filter is.
    pub(crate) fn carry_pair(
        &mut self,
        topo: &Topology,
        given: &Given,
        anat: &Anatomy,
        dev: &String,
        d: &Decided,
        present: &KeySet<Mac>,
        landed: &Vec<Mac>,
        gone: &Vec<Mac>,
        readable: bool,
    )
        requires
            present@ == own_entries(given.fdb@, anat.dev),
        ensures
            same_cost(*old(self), *final(self)),
            final(self)@ == pair_carried(
                pass_of(*topo, *given),
                anat@,
                dev@,
                decision_of(*d),
                landed@.to_set(),
                gone@.to_set(),
                readable,
                old(self)@,
            ),
    {
        let limit = self.limit_of(dev);
        if given.apply {
            if d.occupied > limit as u128 {
                if self.book.said.over.insert(dev.clone()) {
                    let line = say_over(dev, d.occupied, limit as u64);
                    self.book.say(line);
                }
            } else {
                let _ = self.book.said.over.remove(dev);
            }
            if d.occupied <= limit as u128 && limit as u128 - d.occupied
                >= CAPACITY_HEADROOM as u128 {
                let _ = self.book.said.tight.remove(dev);
            }
        }
        let passed_at: u64 = if readable {
            given.pass_at
        } else {
            match self.carried.get(dev) {
                Some(c) => c.passed_at,
                None => 0,
            }
        };
        let mut holds = present.dup();
        proof {
            lemma_mac_models(landed@);
            lemma_mac_models(gone@);
        }
        holds.extend_list(landed);
        holds.subtract_list(gone);
        let quiet = d.kept.dup();
        self.carried.insert(dev.clone(), Carried { present: holds, quiet, passed_at });
        assert(carried_models(self.carried@) =~= pair_carried(
            pass_of(*topo, *given),
            anat@,
            dev@,
            decision_of(*d),
            landed@.to_set(),
            gone@.to_set(),
            readable,
            old(self)@,
        ).carried);
    }

    /// The per-address half of a report.
    pub(crate) fn detail_of(
        &self,
        topo: &Topology,
        given: &Given,
        dev: &String,
        d: &Decided,
    ) -> (r: Detail)
        ensures
            detail_is(pass_of(*topo, *given), dev@, decision_of(*d), self@, r),
    {
        let none: KeySet<Mac> = KeySet::new();
        let wanted = list_without(&d.want, &none);
        assert(d.want@.difference(none@) =~= d.want@);
        let quiet_ages = self.memory.silence_of(dev, &d.kept, given.pass_at);
        let learnt_behind = self.ports_named(topo, dev, &d.want);
        Detail { wanted, quiet_ages, learnt_behind }
    }

    /// The names of the ports that these addresses were last learnt behind.
    pub(crate) fn ports_named(&self, topo: &Topology, dev: &String, want: &KeySet<Mac>) -> (r: Vec<
        (Mac, String),
    >)
        ensures
            r@.map_values(|p: (Mac, String)| p.0).no_duplicates(),
            forall|m: Mac, n: Seq<char>| #[trigger]
                names_port(r@, m, n) <==> {
                    &&& want@.contains(m)
                    &&& self@.memory.ports(dev@).contains_key(m)
                    &&& topo@.links.contains_key(self@.memory.ports(dev@)[m].0)
                    &&& topo@.links[self@.memory.ports(dev@)[m].0].name == n
                },
    {
        let none: Ports = KeyMap::new();
        let ports: &Ports = match self.memory.carried.get(dev) {
            Some(p) => p,
            None => &none,
        };
        let ghost pm = ports@;
        assert(pm == self@.memory.ports(dev@));
        let list = want.list();
        proof {
            lemma_mac_models(list@);
        }
        let mut out: Vec<(Mac, String)> = Vec::new();
        let mut i: usize = 0;
        while i < list.len()
            invariant
                pm == ports@,
                list@.no_duplicates(),
                i <= list@.len(),
                forall|j: int|
                    0 <= j < out@.len() ==> list@.take(i as int).contains((#[trigger] out@[j]).0),
                forall|a: int, b: int|
                    0 <= a < b < out@.len() ==> (#[trigger] out@[a]).0 != (#[trigger] out@[b]).0,
                forall|m: Mac, n: Seq<char>| #[trigger]
                    names_port(out@, m, n) <==> {
                        &&& list@.take(i as int).contains(m)
                        &&& pm.contains_key(m)
                        &&& topo@.links.contains_key(pm[m].0)
                        &&& topo@.links[pm[m].0].name == n
                    },
            decreases list@.len() - i,
        {
            let m = list[i];
            let ghost out0 = out@;
            let ghost done = list@.take(i as int);
            proof {
                assert(list@.take(i + 1) =~= done.push(m));
                lemma_push_contains(done, m);
                assert(!done.contains(m)) by {
                    if done.contains(m) {
                        let j = choose|j: int| 0 <= j < i && done[j] == m;
                        assert(list@[j] == list@[i as int]);
                    }
                }
            }
            let port: Option<u32> = match ports.get(&m) {
                Some(slot) => Some(slot.0),
                None => None,
            };
            let name: Option<&String> = match port {
                Some(p) => topo.name_of(p),
                None => None,
            };
            if let Some(n) = name {
                let entry = (m, n.clone());
                out.push(entry);
                proof {
                    assert forall|x: Mac, y: Seq<char>| #[trigger]
                        names_port(out@, x, y) <==> names_port(out0, x, y) || (x == m && y == n@) by {
                        if names_port(out@, x, y) {
                            let j = choose|j: int|
                                0 <= j < out@.len() && (#[trigger] out@[j]).0 == x && out@[j].1@ == y;
                            if j < out0.len() {
                                assert(out0[j] == out@[j]);
                            }
                        }
                        if names_port(out0, x, y) {
                            let j = choose|j: int|
                                0 <= j < out0.len() && (#[trigger] out0[j]).0 == x && out0[j].1@ == y;
                            assert(out@[j] == out0[j]);
                        }
                        if x == m && y == n@ {
                            assert(out@[out0.len() as int].0 == m);
                        }
                    }
                    assert forall|a: int, b: int|
                        0 <= a < b < out@.len() implies (#[trigger] out@[a]).0 != (
                    #[trigger] out@[b]).0 by {
                        if b == out0.len() {
                            assert(done.contains(out0[a].0));
                        }
                    }
                    assert forall|j: int| 0 <= j < out@.len() implies list@.take(i + 1).contains(
                        (#[trigger] out@[j]).0,
                    ) by {
                        if j < out0.len() {
                            assert(done.contains(out0[j].0));
                        }
                    }
                }
            } else {
                assert forall|j: int| 0 <= j < out@.len() implies list@.take(i + 1).contains(
                    (#[trigger] out@[j]).0,
                ) by {
                    assert(done.contains(out0[j].0));
                }
            }
            i += 1;
        }
        proof {
            assert(list@.take(i as int) =~= list@);
            assert forall|m: Mac| list@.contains(m) <==> want@.contains(m) by {
                assert(list@.to_set().contains(m) <==> list@.contains(m));
            }
            let keys = out@.map_values(|p: (Mac, String)| p.0);
            assert forall|a: int, b: int|
                0 <= a < keys.len() && 0 <= b < keys.len() && a != b implies keys[a] != keys[b] by {
                if a < b {
                    assert(out@[a].0 != out@[b].0);
                } else {
                    assert(out@[b].0 != out@[a].0);
                }
            }
        }
        out
    }
}

} // verus!
