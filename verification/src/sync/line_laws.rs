//! A line outlives the entry it names, whatever is done: a full pass, a flush,
//! and a batch of notifications.

use vstd::prelude::*;

use crate::mac::Mac;
use crate::netlink::{Errno, FdbEntry, Moment, Op, Refused, RTM_DELNEIGH, RTM_NEWNEIGH};
use crate::sync::apply::{
    all_reflected, answer_refreshed, base_urgency, batch_committed, batch_grown, batch_written,
    bursts_registered, doubted, fast_applied, growth_found, growth_settled, learns_answered,
    learns_answered_by, learns_worked, learns_worked_for, offers_growth, picked,
    reflections_answered, silences_dated, timed, urgency_of, At,
};
use crate::sync::batch::{
    burst_fresh, burst_over, burst_registered, burst_written, held_by, keeps_shed, keeps_shed_from,
    learns_of, lists_devs, pair_of, reflected_out, reflection_answered, reflection_found,
    reflection_remembered, room_made, shed_out, shed_remembered, shed_said, sheddable, stamped,
    tight_said,
};
use crate::sync::card::{
    batch_registered, failed_in, sets_all, taken_out, OutcomeModel, RegisteredModel, Why,
};
use crate::sync::decide::{behind_map, live_functions};
use crate::sync::fast::{fast_list, has_kind, offered, reskipped, FastModel, OfferModel};
use crate::sync::fast_laws::{all_placed, is_placed, lemma_fast_list, lemma_pair_of};
use crate::sync::files::{grew, lemma_grew_same, since, Files};
use crate::sync::flush::{
    device_flushed, devices_flushed, dumped_host, each_flushed, flushed, flushed_from, flushed_said,
    note_flushed, target_index, through_said, would_said,
};
use crate::sync::lines_kept::{
    believes_right, careful, lemma_kept_looked, lemma_kept_merged, lemma_kept_moved,
    lemma_kept_plain, lemma_kept_registered, lemma_kept_removed, lemma_kept_settled,
    lemma_kept_taken_out, lemma_kept_unlock, lemma_kept_written, lemma_plain_cards,
    lemma_plain_index, lemma_plain_loaded, lemma_plain_lock, lemma_plain_one, lemma_plain_saved,
    lines_kept, may_go, may_shrink, undisturbed,
};
use crate::sync::memory::{memory_loaded, memory_saved, passed_over, MemoryModel};
use crate::sync::notes::{
    devices_asked, file_read, index_name, index_noted, lock_asked, looked_each, note_looked,
    note_moved, note_written, owned_in, sorted_list, BookModel, Stage,
};
use crate::sync::orphans::{
    cleared_said, each_settled, entries_taken, index_by_name, note_settled, orphan_cleared,
    orphan_followed, orphan_settled, orphan_taken, orphan_traced, orphans_dropped, orphans_found,
    rename_settled, renamed_state, renamed_to, still_said, taken_said, without_device, Run,
};
use crate::sync::pass::{
    answer_settled, batch_passed, evicted, held_back_text, index_passed, lists, note_brought_up,
    own_entries, pair_carried, pair_decided, pair_read, pair_registered, pair_remembered,
    pair_retired, place_of, stale_taken_out, took_over_said, Added, Decision, Dropped, Pass,
    Progress,
};
use crate::sync::reconcile::{
    answer_first, at_after, orphans_reconciled, pair_devs, pair_finished, pair_passed, pair_stopped,
    pair_worked, pair_written, pairs_passed, pairs_reconciled, pass_findings, pass_made, pass_start,
    reconciled, table_reconciled,
};
use crate::sync::syncer::SyncerModel;
use crate::sync::types::{PairModel, Report, Urgency};
use crate::sync::valve::released;
use crate::topology::{AnatomyModel, TopologyModel};

verus! {

/// What a moment of a run is held to.
pub open spec fn run_kept(
    t: TopologyModel,
    d0: Files,
    l0: Seq<Op>,
    s: SyncerModel,
    log: Seq<Op>,
) -> bool {
    lines_kept(t, d0, l0, s.book.dir, log)
}

proof fn lemma_orphan_taken(
    t: TopologyModel,
    d0: Files,
    l0: Seq<Op>,
    apply: bool,
    dev: Seq<char>,
    r: Run,
    r2: Run,
)
    requires
        run_kept(t, d0, l0, r.s, r.log),
        orphan_taken(t, apply, dev, r, r2),
    ensures
        run_kept(t, d0, l0, r2.s, r2.log),
{
    if !apply || r.s.dry_run {
        let b1 = choose|b1: BookModel| #[trigger]
            note_looked(r.s.book, r.log, dev, b1, r2.log) && r2 == (Run {
                s: r.s.with_book(still_said(b1, dev)),
                log: r2.log,
                failures: r.failures,
            });
        lemma_kept_looked(t, d0, l0, r.s.book, r.log, dev, b1, r2.log);
    } else {
        let (bl, ll, b1, l1, b2, l2, said) = choose|
            bl: BookModel,
            ll: Seq<Op>,
            b1: BookModel,
            l1: Seq<Op>,
            b2: BookModel,
            l2: Seq<Op>,
            said: Option<Seq<char>>,
        |
            {
                &&& #[trigger] lock_asked(r.s.book, r.log, dev, bl, ll)
                &&& #[trigger] note_looked(bl, ll, dev, b1, l1)
                &&& #[trigger] orphan_cleared(t, dev, b1, l1, b2, l2, said)
                &&& r2 == (Run {
                    s: without_device(r.s.with_book(b2), dev),
                    log: l2.push(Op::Unlock { dev }),
                    failures: match said {
                        Some(x) => r.failures.push(x),
                        None => r.failures,
                    },
                })
            };
        lemma_plain_lock(r.s.book, r.log, dev, bl, ll);
        lemma_kept_plain(t, d0, l0, r.s.book.dir, r.log, bl.dir, ll);
        lemma_kept_looked(t, d0, l0, bl, ll, dev, b1, l1);
        let owned = owned_in(b1.dir, dev);
        if owned == Set::<Mac>::empty() {
            if b1.readable(dev) {
                assert(may_shrink(t, d0, l0, l1, dev, Set::empty()));
                lemma_kept_removed(t, d0, l0, b1, l1, dev, b2, l2);
            }
        } else {
            let (lx, kept, clean) = choose|lx: Seq<Op>, kept: Set<Mac>, clean: bool|
                {
                    &&& #[trigger] entries_taken(index_by_name(t, dev), owned, l1, lx, kept)
                    &&& #[trigger] note_settled(
                        cleared_said(b1, dev, owned, l1, lx, kept),
                        lx,
                        dev,
                        kept,
                        b2,
                        l2,
                        clean,
                    )
                };
            let bs = cleared_said(b1, dev, owned, l1, lx, kept);
            lemma_kept_settled(
                t,
                d0,
                l0,
                bs,
                l1,
                dev,
                lx,
                kept,
                index_by_name(t, dev),
                b2,
                l2,
                clean,
            );
        }
        lemma_kept_unlock(t, d0, l0, b2.dir, l2, dev);
    }
}

proof fn lemma_orphan_followed(
    t: TopologyModel,
    d0: Files,
    l0: Seq<Op>,
    apply: bool,
    dev: Seq<char>,
    index: u32,
    name: Seq<char>,
    r: Run,
    r2: Run,
)
    requires
        !t.names.contains_key(dev),
        run_kept(t, d0, l0, r.s, r.log),
        orphan_followed(t, apply, dev, index, name, r, r2),
    ensures
        run_kept(t, d0, l0, r2.s, r2.log),
{
    if apply && !r.s.dry_run {
        let (m1, b1, l1, b2, l2, moved) = choose|
            m1: MemoryModel,
            b1: BookModel,
            l1: Seq<Op>,
            b2: BookModel,
            l2: Seq<Op>,
            moved: bool,
        |
            {
                let s = SyncerModel { memory: m1, book: b2, ..r.s };
                &&& #[trigger] memory_loaded(
                    r.s.memory,
                    r.s.book,
                    r.log,
                    t,
                    dev,
                    m1,
                    b1,
                    l1,
                )
                &&& #[trigger] note_moved(b1, l1, dev, name, index, b2, l2, moved)
                &&& if moved {
                    rename_settled(t, renamed_state(s, dev, name), l2, name, r.failures, r2)
                } else {
                    r2 == (Run { s, log: l2, failures: r.failures })
                }
            };
        lemma_plain_loaded(r.s.memory, r.s.book, r.log, t, dev, m1, b1, l1);
        lemma_kept_plain(t, d0, l0, r.s.book.dir, r.log, b1.dir, l1);
        lemma_kept_moved(t, d0, l0, b1, l1, dev, name, index, b2, l2, moved);
        if moved {
            let s = renamed_state(SyncerModel { memory: m1, book: b2, ..r.s }, dev, name);
            lemma_plain_saved(
                s.memory,
                s.book,
                l2,
                t,
                name,
                s.last_pass_at,
                s.dry_run,
                r2.s.memory,
                r2.s.book,
                r2.log,
            );
            lemma_kept_plain(t, d0, l0, s.book.dir, l2, r2.s.book.dir, r2.log);
        }
    }
}

proof fn lemma_orphan_settled(
    t: TopologyModel,
    d0: Files,
    l0: Seq<Op>,
    apply: bool,
    dev: Seq<char>,
    r: Run,
    r2: Run,
)
    requires
        run_kept(t, d0, l0, r.s, r.log),
        orphan_settled(t, apply, dev, r, r2),
    ensures
        run_kept(t, d0, l0, r2.s, r2.log),
{
    if t.names.contains_key(dev) {
        lemma_orphan_taken(t, d0, l0, apply, dev, r, r2);
    } else {
        let (b1, l1) = choose|b1: BookModel, l1: Seq<Op>| #[trigger]
            file_read(r.s.book, r.log, index_name(dev), b1, l1) && orphan_traced(
                t,
                apply,
                dev,
                renamed_to(t, b1.dir, dev),
                Run { s: r.s.with_book(b1), log: l1, failures: r.failures },
                r2,
            );
        let r1 = Run { s: r.s.with_book(b1), log: l1, failures: r.failures };
        lemma_plain_one(r.s.book.dir, r.log, l1.last());
        lemma_kept_plain(t, d0, l0, r.s.book.dir, r.log, b1.dir, l1);
        match renamed_to(t, b1.dir, dev) {
            Some((index, name)) => {
                lemma_orphan_followed(t, d0, l0, apply, dev, index, name, r1, r2);
            },
            None => {
                lemma_orphan_taken(t, d0, l0, apply, dev, r1, r2);
            },
        }
    }
}

proof fn lemma_each_settled(
    t: TopologyModel,
    d0: Files,
    l0: Seq<Op>,
    apply: bool,
    devs: Seq<Seq<char>>,
    runs: Seq<Run>,
    n: int,
)
    requires
        run_kept(t, d0, l0, runs[0].s, runs[0].log),
        each_settled(t, apply, devs, runs),
        0 <= n <= devs.len(),
    ensures
        run_kept(t, d0, l0, runs[n].s, runs[n].log),
    decreases n,
{
    if n > 0 {
        lemma_each_settled(t, d0, l0, apply, devs, runs, n - 1);
        let dev = devs[n - 1];
        lemma_orphan_settled(t, d0, l0, apply, dev, runs[n - 1], runs[n]);
    }
}

proof fn lemma_orphans_dropped(
    t: TopologyModel,
    d0: Files,
    l0: Seq<Op>,
    apply: bool,
    r: Run,
    r2: Run,
)
    requires
        run_kept(t, d0, l0, r.s, r.log),
        orphans_dropped(t, apply, r, r2),
    ensures
        run_kept(t, d0, l0, r2.s, r2.log),
{
    let (devs, runs) = choose|devs: Seq<Seq<char>>, runs: Seq<Run>|
        {
            &&& #[trigger] each_settled(t, apply, devs, runs)
            &&& orphans_found(r.s, r.log, runs[0].s, runs[0].log, devs)
            &&& runs[0].failures == r.failures
            &&& r2 == runs.last()
        };
    if r.s.authoritative {
        let dir = r.s.book.dir;
        let clock = runs[0].log[r.log.len() as int];
        let l1 = r.log.push(clock);
        lemma_plain_one(dir, r.log, clock);
        lemma_kept_plain(t, d0, l0, dir, r.log, dir, l1);
        lemma_plain_one(dir, l1, runs[0].log.last());
        lemma_kept_plain(t, d0, l0, dir, l1, runs[0].s.book.dir, runs[0].log);
    }
    lemma_each_settled(t, d0, l0, apply, devs, runs, devs.len() as int);
}

proof fn lemma_pair_read(
    t: TopologyModel,
    apply: bool,
    d0: Files,
    l0: Seq<Op>,
    dev: Seq<char>,
    s: SyncerModel,
    log: Seq<Op>,
    s2: SyncerModel,
    log2: Seq<Op>,
)
    requires
        run_kept(t, d0, l0, s, log),
        pair_read(t, apply, dev, s, log, s2, log2),
    ensures
        run_kept(t, d0, l0, s2, log2),
{
    let (b1, l1) = choose|b1: BookModel, l1: Seq<Op>|
        {
            &&& #[trigger] memory_loaded(s.memory, s.book, log, t, dev, s2.memory, b1, l1)
            &&& #[trigger] note_looked(
                took_over_said(b1, apply, dev, s, s2.memory),
                l1,
                dev,
                s2.book,
                log2,
            )
            &&& s2 == (SyncerModel { memory: s2.memory, book: s2.book, ..s })
        };
    let bs = took_over_said(b1, apply, dev, s, s2.memory);
    lemma_plain_loaded(s.memory, s.book, log, t, dev, s2.memory, b1, l1);
    lemma_kept_plain(t, d0, l0, s.book.dir, log, b1.dir, l1);
    lemma_kept_looked(t, d0, l0, bs, l1, dev, s2.book, log2);
}

proof fn lemma_answer(
    t: TopologyModel,
    d0: Files,
    l0: Seq<Op>,
    c: Pass,
    anat: AnatomyModel,
    dev: Seq<char>,
    owned: Set<Mac>,
    s: SyncerModel,
    log: Seq<Op>,
    carried: bool,
    s2: SyncerModel,
    log2: Seq<Op>,
    carried2: bool,
    failed: Option<Errno>,
)
    requires
        run_kept(t, d0, l0, s, log),
        answer_settled(c, anat, dev, owned, s, log, carried, s2, log2, carried2, failed),
    ensures
        run_kept(t, d0, l0, s2, log2),
{
    if log2 != log {
        lemma_plain_one(s.book.dir, log, log2.last());
        lemma_kept_plain(t, d0, l0, s.book.dir, log, s2.book.dir, log2);
    }
}

proof fn lemma_pair_registered(
    d0: Files,
    l0: Seq<Op>,
    c: Pass,
    anat: AnatomyModel,
    dev: Seq<char>,
    owned: Set<Mac>,
    want: Set<Mac>,
    r: Run,
    r2: Run,
    a: Added,
)
    requires
        c.t.names.contains_key(dev) && c.t.names[dev] == anat.dev,
        run_kept(c.t, d0, l0, r.s, r.log),
        pair_registered(c, anat, dev, owned, want, r, r2, a),
    ensures
        run_kept(c.t, d0, l0, r2.s, r2.log),
        owned.subset_of(a.owned),
{
    let macs = choose|macs: Seq<Mac>|
        {
            &&& #[trigger] lists(macs, want.difference(own_entries(c.fdb, anat.dev)))
            &&& if !c.apply || r.s.dry_run {
                &&& r2 == r
                &&& a == (Added { count: macs.len(), owned, landed: Set::empty() })
            } else {
                batch_passed(anat, dev, owned, macs, r, r2, a)
            }
        };
    if c.apply && !r.s.dry_run {
        let none = Added { count: 0, owned, landed: Set::empty() };
        let (b1, l1) = choose|b1: BookModel, l1: Seq<Op>|
            {
                &&& #[trigger] index_passed(r.s.book, r.log, dev, anat.dev, owned, macs, b1, l1)
                &&& if macs.len() == 0 {
                    &&& r2 == (Run { s: r.s.with_book(b1), log: l1, ..r })
                    &&& a == none
                } else {
                    exists|reg: Option<RegisteredModel>|
                        {
                            &&& #[trigger] batch_registered(
                                b1,
                                l1,
                                dev,
                                anat.dev,
                                macs,
                                r2.s.book,
                                r2.log,
                                reg,
                            )
                            &&& r2.s == r.s.with_book(r2.s.book)
                            &&& match reg {
                                Some(x) => {
                                    &&& a == (Added {
                                        count: x.put.len(),
                                        owned: owned.union(x.put.to_set()),
                                        landed: x.held.to_set(),
                                    })
                                    &&& r2.failures == r.failures + x.failures
                                },
                                None => {
                                    &&& a == none
                                    &&& r2.failures == r.failures.push(
                                        held_back_text(dev, macs.len()),
                                    )
                                },
                            }
                        }
                }
            };
        if !(owned == Set::<Mac>::empty() && macs.len() == 0) {
            lemma_plain_index(r.s.book, r.log, dev, anat.dev, b1, l1);
            lemma_kept_plain(c.t, d0, l0, r.s.book.dir, r.log, b1.dir, l1);
        }
        if macs.len() > 0 {
            let reg = choose|reg: Option<RegisteredModel>|
                {
                    &&& #[trigger] batch_registered(
                        b1,
                        l1,
                        dev,
                        anat.dev,
                        macs,
                        r2.s.book,
                        r2.log,
                        reg,
                    )
                    &&& r2.s == r.s.with_book(r2.s.book)
                    &&& match reg {
                        Some(x) => {
                            &&& a == (Added {
                                count: x.put.len(),
                                owned: owned.union(x.put.to_set()),
                                landed: x.held.to_set(),
                            })
                            &&& r2.failures == r.failures + x.failures
                        },
                        None => {
                            &&& a == none
                            &&& r2.failures == r.failures.push(held_back_text(dev, macs.len()))
                        },
                    }
                };
            lemma_kept_registered(
                c.t,
                d0,
                l0,
                b1,
                l1,
                dev,
                anat.dev,
                macs,
                r2.s.book,
                r2.log,
                reg,
            );
        }
    }
}

proof fn lemma_pair_retired(
    d0: Files,
    l0: Seq<Op>,
    c: Pass,
    anat: AnatomyModel,
    dev: Seq<char>,
    owned: Set<Mac>,
    want: Set<Mac>,
    r: Run,
    r2: Run,
    x: Dropped,
)
    requires
        c.t.names.contains_key(dev) && c.t.names[dev] == anat.dev,
        run_kept(c.t, d0, l0, r.s, r.log),
        pair_retired(c, anat, dev, owned, want, r, r2, x),
    ensures
        run_kept(c.t, d0, l0, r2.s, r2.log),
        forall|m: Mac| #[trigger]
            owned.difference(x.owned).contains(m) ==> may_go(c.t, since(l0, r2.log), dev, m),
{
    let stale = choose|stale: Seq<Mac>|
        {
            &&& #[trigger] lists(stale, owned.difference(want))
            &&& if !c.apply || r.s.dry_run || stale.len() == 0 {
                &&& r2 == r
                &&& x == (Dropped { count: stale.len(), owned, gone: Set::empty() })
            } else {
                stale_taken_out(anat, dev, owned, stale, r, r2, x)
            }
        };
    if c.apply && !r.s.dry_run && stale.len() > 0 {
        let o = choose|o: OutcomeModel|
            {
                &&& #[trigger] taken_out(
                    r.s.book,
                    r.log,
                    dev,
                    anat.dev,
                    stale,
                    r2.s.book,
                    r2.log,
                    o,
                    Why::Stale,
                )
                &&& r2.s == (SyncerModel {
                    book: r2.s.book,
                    memory: evicted(r.s.memory, dev, o.failed.to_set()),
                    ..r.s
                })
                &&& x.owned == owned.difference(o.settled.to_set())
            };
        lemma_kept_taken_out(
            c.t,
            d0,
            l0,
            r.s.book,
            r.log,
            dev,
            anat.dev,
            stale,
            r2.s.book,
            r2.log,
            o,
            Why::Stale,
        );
        assert forall|m: Mac| #[trigger] owned.difference(x.owned).contains(m) implies may_go(
            c.t,
            since(l0, r2.log),
            dev,
            m,
        ) by {
            assert(o.settled.to_set().contains(m));
        }
    }
}

proof fn lemma_pair_remembered(
    d0: Files,
    l0: Seq<Op>,
    c: Pass,
    anat: AnatomyModel,
    dev: Seq<char>,
    before: Set<Mac>,
    after: Set<Mac>,
    readable: bool,
    s: SyncerModel,
    log: Seq<Op>,
    s2: SyncerModel,
    log2: Seq<Op>,
)
    requires
        run_kept(c.t, d0, l0, s, log),
        pair_remembered(c, anat, dev, before, after, readable, s, log, s2, log2),
        forall|m: Mac| #[trigger]
            before.difference(after).contains(m) ==> may_go(c.t, since(l0, log), dev, m),
    ensures
        run_kept(c.t, d0, l0, s2, log2),
{
    let ports = passed_over(
        s.memory.ports(dev),
        behind_map(c.t.links, anat, c.fdb),
        c.pass_at,
        after,
    );
    let mem = MemoryModel { carried: s.memory.carried.insert(dev, ports), ..s.memory };
    let (b1, l1) = choose|b1: BookModel, l1: Seq<Op>|
        {
            &&& #[trigger] note_brought_up(
                c.apply,
                s.dry_run,
                s.book,
                log,
                dev,
                before,
                after,
                b1,
                l1,
            )
            &&& s2 == (SyncerModel { book: s2.book, memory: s2.memory, ..s })
            &&& if !readable {
                s2.memory == s.memory && s2.book == b1 && log2 == l1
            } else if !c.apply {
                s2.memory == mem && s2.book == b1 && log2 == l1
            } else {
                memory_saved(
                    mem,
                    b1,
                    l1,
                    c.t,
                    dev,
                    c.pass_at,
                    s.dry_run,
                    s2.memory,
                    s2.book,
                    log2,
                )
            }
        };
    if c.apply && !s.dry_run && before != after {
        lemma_kept_merged(c.t, d0, l0, s.book, log, dev, before, after, b1, l1);
    }
    if readable && c.apply {
        lemma_plain_saved(
            mem,
            b1,
            l1,
            c.t,
            dev,
            c.pass_at,
            s.dry_run,
            s2.memory,
            s2.book,
            log2,
        );
        lemma_kept_plain(c.t, d0, l0, b1.dir, l1, s2.book.dir, log2);
    }
}

proof fn lemma_pair_written(
    d0: Files,
    l0: Seq<Op>,
    c: Pass,
    pair: PairModel,
    anat: AnatomyModel,
    owned: Set<Mac>,
    readable: bool,
    d: Decision,
    r: Run,
    reports: Seq<Report>,
    p2: Progress,
)
    requires
        c.t.names.contains_key(pair.dev) && c.t.names[pair.dev] == anat.dev,
        run_kept(c.t, d0, l0, r.s, r.log),
        pair_written(c, pair, anat, owned, readable, d, r, reports, p2),
    ensures
        run_kept(c.t, d0, l0, p2.run.s, p2.run.log),
{
    let (r1, a, r2, x) = choose|r1: Run, a: Added, r2: Run, x: Dropped|
        {
            &&& #[trigger] pair_registered(c, anat, pair.dev, owned, d.want, r, r1, a)
            &&& #[trigger] pair_retired(c, anat, pair.dev, a.owned, d.want, r1, r2, x)
            &&& pair_finished(c, pair, anat, owned, readable, d, a, x, r2, reports, p2)
        };
    lemma_pair_registered(d0, l0, c, anat, pair.dev, owned, d.want, r, r1, a);
    lemma_pair_retired(d0, l0, c, anat, pair.dev, a.owned, d.want, r1, r2, x);
    let s3 = choose|s3: SyncerModel|
        {
            &&& #[trigger] pair_remembered(
                c,
                anat,
                pair.dev,
                owned,
                x.owned,
                readable,
                r2.s,
                r2.log,
                s3,
                p2.run.log,
            )
            &&& p2.run.s == pair_carried(c, anat, pair.dev, d, a.landed, x.gone, readable, s3)
        };
    assert forall|m: Mac| #[trigger] owned.difference(x.owned).contains(m) implies may_go(
        c.t,
        since(l0, r2.log),
        pair.dev,
        m,
    ) by {
        assert(a.owned.difference(x.owned).contains(m));
    }
    lemma_pair_remembered(
        d0,
        l0,
        c,
        anat,
        pair.dev,
        owned,
        x.owned,
        readable,
        r2.s,
        r2.log,
        s3,
        p2.run.log,
    );
}

proof fn lemma_pair_passed(
    d0: Files,
    l0: Seq<Op>,
    c: Pass,
    pair: PairModel,
    p: Progress,
    p2: Progress,
)
    requires
        run_kept(c.t, d0, l0, p.run.s, p.run.log),
        pair_passed(c, pair, p, p2),
    ensures
        run_kept(c.t, d0, l0, p2.run.s, p2.run.log),
{
    if let Some(anat) = place_of(c.t, pair) {
        let (sa, la) = choose|sa: SyncerModel, la: Seq<Op>| #[trigger]
            pair_read(c.t, c.apply, pair.dev, p.run.s, p.run.log, sa, la) && pair_worked(
                c,
                pair,
                anat,
                owned_in(sa.book.dir, pair.dev),
                sa.book.readable(pair.dev),
                Progress { run: Run { s: sa, log: la, failures: p.run.failures }, ..p },
                p2,
            );
        let owned = owned_in(sa.book.dir, pair.dev);
        let readable = sa.book.readable(pair.dev);
        let q = Progress { run: Run { s: sa, log: la, failures: p.run.failures }, ..p };
        lemma_pair_read(c.t, c.apply, d0, l0, pair.dev, p.run.s, p.run.log, sa, la);
        let (sb, lb, sc, d) = choose|sb: SyncerModel, lb: Seq<Op>, sc: SyncerModel, d: Decision|
            {
                &&& #[trigger] answer_settled(
                    c,
                    anat,
                    pair.dev,
                    owned,
                    q.run.s,
                    q.run.log,
                    q.vf_carried,
                    sb,
                    lb,
                    p2.vf_carried,
                    None,
                )
                &&& #[trigger] pair_decided(c, anat, pair.dev, owned, sb, sc, d)
                &&& pair_written(
                    c,
                    pair,
                    anat,
                    owned,
                    readable,
                    d,
                    Run { s: sc, log: lb, failures: q.run.failures },
                    q.reports,
                    p2,
                )
            };
        lemma_answer(
            c.t,
            d0,
            l0,
            c,
            anat,
            pair.dev,
            owned,
            sa,
            la,
            p.vf_carried,
            sb,
            lb,
            p2.vf_carried,
            None,
        );
        let r = Run { s: sc, log: lb, failures: q.run.failures };
        lemma_pair_written(d0, l0, c, pair, anat, owned, readable, d, r, q.reports, p2);
    }
}

proof fn lemma_pairs_passed(
    d0: Files,
    l0: Seq<Op>,
    c: Pass,
    pairs: Seq<PairModel>,
    ps: Seq<Progress>,
    n: int,
)
    requires
        run_kept(c.t, d0, l0, ps[0].run.s, ps[0].run.log),
        pairs_passed(c, pairs, ps),
        0 <= n <= pairs.len(),
    ensures
        run_kept(c.t, d0, l0, ps[n].run.s, ps[n].run.log),
    decreases n,
{
    if n > 0 {
        lemma_pairs_passed(d0, l0, c, pairs, ps, n - 1);
        let pair = pairs[n - 1];
        lemma_pair_passed(d0, l0, c, pair, ps[n - 1], ps[n]);
    }
}

proof fn lemma_pairs_reconciled(
    d0: Files,
    l0: Seq<Op>,
    c: Pass,
    pairs: Seq<PairModel>,
    p: Progress,
    s2: SyncerModel,
    log2: Seq<Op>,
    r: Result<Seq<Report>, Errno>,
)
    requires
        run_kept(c.t, d0, l0, p.run.s, p.run.log),
        pairs_reconciled(c, pairs, p, s2, log2, r),
    ensures
        run_kept(c.t, d0, l0, s2, log2),
{
    let (ps, k) = choose|ps: Seq<Progress>, k: int|
        {
            &&& 0 <= k <= pairs.len()
            &&& #[trigger] pairs_passed(c, pairs.take(k), ps)
            &&& ps[0] == p
            &&& match r {
                Ok(reports) => {
                    &&& k == pairs.len()
                    &&& reports == ps.last().reports
                    &&& s2 == (SyncerModel {
                        timings: pass_findings(c, ps.last()),
                        ..ps.last().run.s
                    })
                    &&& log2 == ps.last().run.log
                },
                Err(e) => k < pairs.len() && pair_stopped(c, pairs[k], ps.last(), s2, log2, e),
            }
        };
    lemma_pairs_passed(d0, l0, c, pairs.take(k), ps, k);
    if let Err(e) = r {
        let (pair, q) = (pairs[k], ps.last());
        let anat = place_of(c.t, pair)->0;
        let (sa, la) = choose|sa: SyncerModel, la: Seq<Op>| #[trigger]
            pair_read(c.t, c.apply, pair.dev, q.run.s, q.run.log, sa, la) && answer_settled(
                c,
                anat,
                pair.dev,
                owned_in(sa.book.dir, pair.dev),
                sa,
                la,
                q.vf_carried,
                s2,
                log2,
                q.vf_carried,
                Some(e),
            );
        lemma_pair_read(c.t, c.apply, d0, l0, pair.dev, q.run.s, q.run.log, sa, la);
        lemma_answer(
            c.t,
            d0,
            l0,
            c,
            anat,
            pair.dev,
            owned_in(sa.book.dir, pair.dev),
            sa,
            la,
            q.vf_carried,
            s2,
            log2,
            q.vf_carried,
            Some(e),
        );
    }
}

proof fn lemma_answer_first(
    t: TopologyModel,
    d0: Files,
    l0: Seq<Op>,
    s: SyncerModel,
    log: Seq<Op>,
    pfs: Seq<u32>,
    s2: SyncerModel,
    log2: Seq<Op>,
    failed: Option<Errno>,
)
    requires
        run_kept(t, d0, l0, s, log),
        answer_first(s, log, pfs, s2, log2, failed),
    ensures
        run_kept(t, d0, l0, s2, log2),
{
    if !s.vf_usable(pfs) {
        lemma_plain_one(s.book.dir, log, log2.last());
        lemma_kept_plain(t, d0, l0, s.book.dir, log, s2.book.dir, log2);
    }
}

proof fn lemma_pass_made(
    t: TopologyModel,
    d0: Files,
    l0: Seq<Op>,
    apply: bool,
    fdb: Seq<FdbEntry>,
    pfs: Seq<u32>,
    carried: bool,
    s: SyncerModel,
    log: Seq<Op>,
    s2: SyncerModel,
    log2: Seq<Op>,
    r: Result<Seq<Report>, Errno>,
)
    requires
        run_kept(t, d0, l0, s, log),
        pass_made(t, apply, fdb, pfs, carried, s, log, s2, log2, r),
    ensures
        run_kept(t, d0, l0, s2, log2),
{
    let (now, r1) = choose|now: Moment, r1: Run|
        {
            &&& #[trigger] orphans_dropped(
                t,
                apply,
                pass_start(s, log.push(Op::Clock { reading: now }), at_after(s, now)),
                r1,
            )
            &&& pairs_reconciled(
                Pass { t, fdb, pfs, pass_at: at_after(s, now), apply },
                s.pairs,
                Progress { run: r1, vf_carried: carried, reports: Seq::empty() },
                s2,
                log2,
                r,
            )
        };
    let at = at_after(s, now);
    let clock = Op::Clock { reading: now };
    let lc = log.push(clock);
    lemma_plain_one(s.book.dir, log, clock);
    lemma_kept_plain(t, d0, l0, s.book.dir, log, s.book.dir, lc);
    lemma_orphans_dropped(t, d0, l0, apply, pass_start(s, lc, at), r1);
    lemma_pairs_reconciled(
        d0,
        l0,
        Pass { t, fdb, pfs, pass_at: at, apply },
        s.pairs,
        Progress { run: r1, vf_carried: carried, reports: Seq::empty() },
        s2,
        log2,
        r,
    );
}

proof fn lemma_start(t: TopologyModel, d0: Files, dir: Files, log: Seq<Op>)
    requires
        believes_right(dir, d0),
    ensures
        lines_kept(t, d0, log, dir, log),
{
    lemma_grew_same(log);
}

/// In a full pass a line outlives the entry it names: as long as the files are
/// what they are believed to be and nobody else writes them, a line leaves the
/// note of a device that is there only after the card has said that no entry of
/// ours stands behind it.
pub proof fn lines_outlive_entries_in_a_pass(
    t: TopologyModel,
    d0: Files,
    apply: bool,
    s: SyncerModel,
    log: Seq<Op>,
    s2: SyncerModel,
    log2: Seq<Op>,
    r: Result<Seq<Report>, Errno>,
)
    requires
        reconciled(t, apply, s, log, s2, log2, r),
        believes_right(s.book.dir, d0),
        undisturbed(d0, since(log, log2)),
    ensures
        careful(t, d0, since(log, log2)),
{
    lemma_start(t, d0, s.book.dir, log);
    if s.pairs.len() == 0 {
        assert(orphans_reconciled(t, apply, s, log, s2, log2, r));
        let r0 = Run { s, log, failures: Seq::empty() };
        let r1 = choose|r1: Run| #[trigger]
            orphans_dropped(t, apply, r0, r1) && log2 == r1.log;
        lemma_orphans_dropped(t, d0, log, apply, r0, r1);
    } else {
        let dump = log2[log.len() as int];
        let la = log.push(dump);
        lemma_plain_one(s.book.dir, log, dump);
        lemma_kept_plain(t, d0, log, s.book.dir, log, s.book.dir, la);
        if let Op::DumpFdb { table: Ok(fdb) } = dump {
            let pfs = live_functions(t, pair_devs(s.pairs));
            assert(table_reconciled(t, apply, fdb, pfs, s, la, s2, log2, r));
            let (s1, l1, failed) = choose|s1: SyncerModel, l1: Seq<Op>, failed: Option<Errno>|
                {
                    &&& #[trigger] answer_first(s, la, pfs, s1, l1, failed)
                    &&& match failed {
                        None => pass_made(
                            t,
                            apply,
                            fdb,
                            pfs,
                            s.vf_usable(pfs),
                            s1,
                            l1,
                            s2,
                            log2,
                            r,
                        ),
                        Some(e) => r == Err::<Seq<Report>, Errno>(e) && s2 == s1 && log2 == l1,
                    }
                };
            lemma_answer_first(t, d0, log, s, la, pfs, s1, l1, failed);
            if failed is None {
                lemma_pass_made(t, d0, log, apply, fdb, pfs, s.vf_usable(pfs), s1, l1, s2, log2, r);
            }
        }
    }
}

proof fn lemma_settled_gone(
    t: TopologyModel,
    d0: Files,
    l0: Seq<Op>,
    b: BookModel,
    log: Seq<Op>,
    dev: Seq<char>,
    owned: Set<Mac>,
    l1: Seq<Op>,
    kept: Set<Mac>,
    index: Option<u32>,
    b2: BookModel,
    log2: Seq<Op>,
    clean: bool,
)
    requires
        !t.names.contains_key(dev),
        lines_kept(t, d0, l0, b.dir, log),
        entries_taken(index, owned, log, l1, kept),
        note_settled(b, l1, dev, kept, b2, log2, clean),
    ensures
        lines_kept(t, d0, l0, b2.dir, log2),
{
    if let Some(i) = index {
        let macs = choose|macs: Seq<Mac>|
            {
                &&& macs.no_duplicates() && macs.to_set() == owned
                &&& grew(log, l1)
                &&& #[trigger] sets_all(since(log, l1), i, macs, false)
                &&& kept == failed_in(since(log, l1)).to_set()
            };
        lemma_plain_cards(b.dir, log, l1, i, macs, false);
        lemma_kept_plain(t, d0, l0, b.dir, log, b.dir, l1);
    }
    assert(may_shrink(t, d0, l0, l1, dev, kept));
    if kept == Set::<Mac>::empty() && b.readable(dev) {
        lemma_kept_removed(t, d0, l0, b, l1, dev, b2, log2);
    } else {
        let r = choose|r: bool| note_written(b, l1, dev, kept, b2, log2, r);
        lemma_kept_written(t, d0, l0, b, l1, dev, kept, b2, log2, r);
    }
}

proof fn lemma_device_flushed(
    t: TopologyModel,
    d0: Files,
    l0: Seq<Op>,
    dry_run: bool,
    dev: Seq<char>,
    b: BookModel,
    log: Seq<Op>,
    b2: BookModel,
    log2: Seq<Op>,
    clean: bool,
)
    requires
        lines_kept(t, d0, l0, b.dir, log),
        device_flushed(t, dry_run, dev, b, log, b2, log2, clean),
    ensures
        lines_kept(t, d0, l0, b2.dir, log2),
{
    if dry_run {
        let b1 = choose|b1: BookModel| #[trigger]
            note_looked(b, log, dev, b1, log2) && clean == b1.readable(dev) && b2 == would_said(
                b1,
                dev,
            );
        lemma_kept_looked(t, d0, l0, b, log, dev, b1, log2);
    } else {
        let (bl, ll, b1, l1, l2) = choose|
            bl: BookModel,
            ll: Seq<Op>,
            b1: BookModel,
            l1: Seq<Op>,
            l2: Seq<Op>,
        |
            {
                &&& #[trigger] lock_asked(b, log, dev, bl, ll)
                &&& #[trigger] note_looked(bl, ll, dev, b1, l1)
                &&& #[trigger] note_flushed(t, dev, owned_in(b1.dir, dev), b1, l1, b2, l2, clean)
                &&& log2 == l2.push(Op::Unlock { dev })
            };
        let owned = owned_in(b1.dir, dev);
        lemma_plain_lock(b, log, dev, bl, ll);
        lemma_kept_plain(t, d0, l0, b.dir, log, bl.dir, ll);
        lemma_kept_looked(t, d0, l0, bl, ll, dev, b1, l1);
        if t.names.contains_key(dev) {
            let index = index_by_name(t, dev);
            let (lx, kept, b3) = choose|lx: Seq<Op>, kept: Set<Mac>, b3: BookModel|
                {
                    &&& #[trigger] entries_taken(index, owned, l1, lx, kept)
                    &&& #[trigger] note_settled(
                        taken_said(b1, dev, l1, lx),
                        lx,
                        dev,
                        kept,
                        b3,
                        l2,
                        clean,
                    )
                    &&& b2 == flushed_said(b3, dev, owned, kept, clean)
                };
            let bs = taken_said(b1, dev, l1, lx);
            lemma_kept_settled(t, d0, l0, bs, l1, dev, lx, kept, index, b3, l2, clean);
        } else {
            let (by, ly) = choose|by: BookModel, ly: Seq<Op>| #[trigger]
                file_read(b1, l1, index_name(dev), by, ly) && flushed_from(
                    target_index(renamed_to(t, by.dir, dev)),
                    owned,
                    dev,
                    through_said(t, by, dev),
                    ly,
                    b2,
                    l2,
                    clean,
                );
            lemma_plain_one(b1.dir, l1, ly.last());
            lemma_kept_plain(t, d0, l0, b1.dir, l1, by.dir, ly);
            let index = target_index(renamed_to(t, by.dir, dev));
            let bz = through_said(t, by, dev);
            let (lx, kept, b3) = choose|lx: Seq<Op>, kept: Set<Mac>, b3: BookModel|
                {
                    &&& #[trigger] entries_taken(index, owned, ly, lx, kept)
                    &&& #[trigger] note_settled(
                        taken_said(bz, dev, ly, lx),
                        lx,
                        dev,
                        kept,
                        b3,
                        l2,
                        clean,
                    )
                    &&& b2 == flushed_said(b3, dev, owned, kept, clean)
                };
            let bs = taken_said(bz, dev, ly, lx);
            lemma_settled_gone(t, d0, l0, bs, ly, dev, owned, lx, kept, index, b3, l2, clean);
        }
        lemma_kept_unlock(t, d0, l0, b2.dir, l2, dev);
    }
}

proof fn lemma_each_flushed(
    t: TopologyModel,
    d0: Files,
    l0: Seq<Op>,
    dry_run: bool,
    devs: Seq<Seq<char>>,
    stages: Seq<Stage>,
    cleans: Seq<bool>,
    n: int,
)
    requires
        lines_kept(t, d0, l0, stages[0].book.dir, stages[0].log),
        each_flushed(t, dry_run, devs, stages, cleans),
        0 <= n <= devs.len(),
    ensures
        lines_kept(t, d0, l0, stages[n].book.dir, stages[n].log),
    decreases n,
{
    if n > 0 {
        lemma_each_flushed(t, d0, l0, dry_run, devs, stages, cleans, n - 1);
        let dev = devs[n - 1];
        let (a, b) = (stages[n - 1], stages[n]);
        lemma_device_flushed(
            t,
            d0,
            l0,
            dry_run,
            dev,
            a.book,
            a.log,
            b.book,
            b.log,
            cleans[n - 1],
        );
    }
}

/// In a flush a line outlives the entry it names: as long as the files are what
/// they are believed to be and nobody else writes them, a line leaves the note
/// of a device that is there only after the card has said that no entry of ours
/// stands behind it.
pub proof fn lines_outlive_entries_in_a_flush(
    t: TopologyModel,
    d0: Files,
    s: SyncerModel,
    log: Seq<Op>,
    s2: SyncerModel,
    log2: Seq<Op>,
    r: Result<bool, Errno>,
)
    requires
        flushed(s, log, s2, log2, r),
        log2[log.len() as int] matches Op::DumpLinks { links: Ok(infos) } ==> t == dumped_host(
            infos,
        ),
        believes_right(s.book.dir, d0),
        undisturbed(d0, since(log, log2)),
    ensures
        careful(t, d0, since(log, log2)),
{
    lemma_start(t, d0, s.book.dir, log);
    let dump = log2[log.len() as int];
    let la = log.push(dump);
    lemma_plain_one(s.book.dir, log, dump);
    lemma_kept_plain(t, d0, log, s.book.dir, log, s.book.dir, la);
    if dump->links is Ok {
        let (l1, listed) = choose|l1: Seq<Op>, listed: Result<Seq<Seq<char>>, Refused>|
            {
                &&& #[trigger] devices_asked(la, l1, listed)
                &&& match listed {
                    Ok(devs) => {
                        &&& s2 == (SyncerModel { book: s2.book, ..s })
                        &&& r matches Ok(clean) && devices_flushed(
                            t,
                            s.dry_run,
                            devs,
                            s.book,
                            l1,
                            s2.book,
                            log2,
                            clean,
                        )
                    },
                    Err(e) => r == Err::<bool, Errno>(e.errno) && s2 == s && log2 == l1,
                }
            };
        lemma_plain_one(s.book.dir, la, l1.last());
        lemma_kept_plain(t, d0, log, s.book.dir, la, s.book.dir, l1);
        if let Ok(devs) = listed {
            let clean = r->Ok_0;
            let (stages, cleans) = choose|stages: Seq<Stage>, cleans: Seq<bool>|
                {
                    &&& #[trigger] each_flushed(t, s.dry_run, devs, stages, cleans)
                    &&& stages[0] == (Stage { book: s.book, log: l1 })
                    &&& stages.last() == (Stage { book: s2.book, log: log2 })
                    &&& clean == forall|i: int| 0 <= i < cleans.len() ==> #[trigger] cleans[i]
                };
            lemma_each_flushed(t, d0, log, s.dry_run, devs, stages, cleans, devs.len() as int);
        }
    }
}

proof fn lemma_reflected_out(
    t: TopologyModel,
    d0: Files,
    l0: Seq<Op>,
    f: FastModel,
    ours: Set<Mac>,
    s: SyncerModel,
    log: Seq<Op>,
    s2: SyncerModel,
    log2: Seq<Op>,
    urgent: bool,
)
    requires
        is_placed(t, f),
        run_kept(t, d0, l0, s, log),
        reflected_out(t, f, ours, s, log, s2, log2, urgent),
    ensures
        run_kept(t, d0, l0, s2, log2),
{
    let (v, b1, l1, o) = choose|v: Seq<Mac>, b1: BookModel, l1: Seq<Op>, o: OutcomeModel|
        {
            &&& lists(v, ours)
            &&& #[trigger] taken_out(s.book, log, f.dev, f.anat.dev, v, b1, l1, o, Why::Wire)
            &&& urgent == (o.done.len() > 0 || o.failed.len() > 0)
            &&& reflection_remembered(t, f.dev, v, o, s.with_book(b1), l1, s2, log2)
        };
    lemma_kept_taken_out(t, d0, l0, s.book, log, f.dev, f.anat.dev, v, b1, l1, o, Why::Wire);
    if v.len() > 0 {
        let s0 = s.with_book(b1);
        let s1 = SyncerModel { memory: evicted(s0.memory, f.dev, v.to_set()), ..s0 };
        lemma_plain_saved(
            s1.memory,
            s1.book,
            l1,
            t,
            f.dev,
            s1.passed_at(f.dev),
            s1.dry_run,
            s2.memory,
            s2.book,
            log2,
        );
        lemma_kept_plain(t, d0, l0, b1.dir, l1, s2.book.dir, log2);
    }
}

proof fn lemma_reflection_answered(
    t: TopologyModel,
    d0: Files,
    l0: Seq<Op>,
    f: FastModel,
    s: SyncerModel,
    log: Seq<Op>,
    s2: SyncerModel,
    log2: Seq<Op>,
    urgent: bool,
)
    requires
        is_placed(t, f),
        run_kept(t, d0, l0, s, log),
        reflection_answered(t, f, s, log, s2, log2, urgent),
    ensures
        run_kept(t, d0, l0, s2, log2),
{
    if f.reflected != Set::<Mac>::empty() {
        let (b1, l1) = choose|b1: BookModel, l1: Seq<Op>| #[trigger]
            note_looked(s.book, log, f.dev, b1, l1) && if owned_in(b1.dir, f.dev).disjoint(
                f.reflected,
            ) {
                s2 == s.with_book(b1) && log2 == l1 && !urgent
            } else {
                reflection_found(t, f, b1, s, l1, s2, log2, urgent)
            };
        lemma_kept_looked(t, d0, l0, s.book, log, f.dev, b1, l1);
        if !owned_in(b1.dir, f.dev).disjoint(f.reflected) {
            let (b2, l2) = choose|b2: BookModel, l2: Seq<Op>| #[trigger]
                note_looked(b1, l1, f.dev, b2, l2) && reflected_out(
                    t,
                    f,
                    f.reflected.intersect(owned_in(b2.dir, f.dev)),
                    s.with_book(b2),
                    l2,
                    s2,
                    log2,
                    urgent,
                );
            lemma_kept_looked(t, d0, l0, b1, l1, f.dev, b2, l2);
            lemma_reflected_out(
                t,
                d0,
                l0,
                f,
                f.reflected.intersect(owned_in(b2.dir, f.dev)),
                s.with_book(b2),
                l2,
                s2,
                log2,
                urgent,
            );
        }
    }
}

proof fn lemma_reflections_answered(
    t: TopologyModel,
    d0: Files,
    l0: Seq<Op>,
    fps: Seq<FastModel>,
    ats: Seq<At>,
    urgents: Seq<bool>,
    n: int,
)
    requires
        all_placed(t, fps),
        run_kept(t, d0, l0, ats[0].s, ats[0].log),
        reflections_answered(t, fps, ats, urgents),
        0 <= n <= fps.len(),
    ensures
        run_kept(t, d0, l0, ats[n].s, ats[n].log),
    decreases n,
{
    if n > 0 {
        lemma_reflections_answered(t, d0, l0, fps, ats, urgents, n - 1);
        let f = fps[n - 1];
        assert(is_placed(t, f));
        let (a, b) = (ats[n - 1], ats[n]);
        lemma_reflection_answered(t, d0, l0, f, a.s, a.log, b.s, b.log, urgents[n - 1]);
    }
}

proof fn lemma_shed_out(
    t: TopologyModel,
    d0: Files,
    l0: Seq<Op>,
    dev: Seq<char>,
    index: u32,
    shed: Seq<Mac>,
    s: SyncerModel,
    log: Seq<Op>,
    s2: SyncerModel,
    log2: Seq<Op>,
    freed: nat,
)
    requires
        t.names.contains_key(dev) && t.names[dev] == index,
        shed.no_duplicates(),
        run_kept(t, d0, l0, s, log),
        shed_out(t, dev, index, shed, s, log, s2, log2, freed),
    ensures
        run_kept(t, d0, l0, s2, log2),
{
    let (b1, l1, o) = choose|b1: BookModel, l1: Seq<Op>, o: OutcomeModel|
        {
            &&& #[trigger] taken_out(s.book, log, dev, index, shed, b1, l1, o, Why::Quiet)
            &&& if o.settled.len() == 0 {
                s2 == s.with_book(b1) && log2 == l1 && freed == 0
            } else {
                &&& shed_remembered(
                    t,
                    dev,
                    SyncerModel {
                        book: b1,
                        memory: evicted(s.memory, dev, o.settled.to_set()),
                        ..s
                    },
                    l1,
                    o.settled,
                    s2,
                    log2,
                )
                &&& freed == o.settled.to_set().intersect(s.held(dev)).len()
            }
        };
    lemma_kept_taken_out(t, d0, l0, s.book, log, dev, index, shed, b1, l1, o, Why::Quiet);
    if o.settled.len() > 0 {
        let s1 = SyncerModel {
            book: b1,
            memory: evicted(s.memory, dev, o.settled.to_set()),
            ..s
        };
        let b3 = choose|b3: BookModel| #[trigger]
            memory_saved(
                s1.memory,
                s1.book,
                l1,
                t,
                dev,
                s1.passed_at(dev),
                s1.dry_run,
                s2.memory,
                b3,
                log2,
            ) && s2 == (SyncerModel {
                memory: s2.memory,
                book: shed_said(b3, dev, s1.limit(dev), o.settled.len()),
                ..s1.not_holding(dev, o.settled.to_set())
            });
        lemma_plain_saved(
            s1.memory,
            s1.book,
            l1,
            t,
            dev,
            s1.passed_at(dev),
            s1.dry_run,
            s2.memory,
            b3,
            log2,
        );
        lemma_kept_plain(t, d0, l0, b1.dir, l1, s2.book.dir, log2);
    }
}

proof fn lemma_room_made(
    t: TopologyModel,
    d0: Files,
    l0: Seq<Op>,
    dev: Seq<char>,
    index: u32,
    over: nat,
    fresh: nat,
    s: SyncerModel,
    log: Seq<Op>,
    s2: SyncerModel,
    log2: Seq<Op>,
)
    requires
        t.names.contains_key(dev) && t.names[dev] == index,
        run_kept(t, d0, l0, s, log),
        room_made(t, dev, index, over, fresh, s, log, s2, log2),
    ensures
        run_kept(t, d0, l0, s2, log2),
{
    if over > 0 {
        let (s1, freed) = choose|s1: SyncerModel, freed: nat|
            {
                &&& #[trigger] keeps_shed(t, dev, index, over, s, log, s1, log2, freed)
                &&& s2 == if freed < over {
                    tight_said(s1, dev, fresh)
                } else {
                    s1
                }
            };
        let (b1, l1) = choose|b1: BookModel, l1: Seq<Op>| #[trigger]
            note_looked(s.book, log, dev, b1, l1) && keeps_shed_from(
                t,
                dev,
                index,
                over,
                s.with_book(b1),
                l1,
                s1,
                log2,
                freed,
            );
        lemma_kept_looked(t, d0, l0, s.book, log, dev, b1, l1);
        let sb = s.with_book(b1);
        if !(!sb.book.readable(dev) || over == 0 || sheddable(sb, dev) == Set::<Mac>::empty()) {
            let shed = choose|shed: Seq<Mac>|
                {
                    &&& #[trigger] released(sheddable(sb, dev), sb.memory.ports(dev), over, shed)
                    &&& shed_out(t, dev, index, shed, sb, l1, s1, log2, freed)
                };
            lemma_shed_out(t, d0, l0, dev, index, shed, sb, l1, s1, log2, freed);
        }
    }
}

proof fn lemma_burst_registered(
    t: TopologyModel,
    d0: Files,
    l0: Seq<Op>,
    f: FastModel,
    learnt: Map<Mac, u32>,
    s: SyncerModel,
    log: Seq<Op>,
    s2: SyncerModel,
    log2: Seq<Op>,
)
    requires
        is_placed(t, f),
        run_kept(t, d0, l0, s, log),
        burst_registered(t, f, learnt, s, log, s2, log2),
    ensures
        run_kept(t, d0, l0, s2, log2),
{
    let (now, macs, s1, l1) = choose|now: Moment, macs: Seq<Mac>, s1: SyncerModel, l1: Seq<Op>|
        {
            &&& sorted_list(macs, learnt.dom())
            &&& #[trigger] room_made(
                t,
                f.dev,
                f.anat.dev,
                burst_over(stamped(s, f.dev, learnt, now.boot_millis), f.dev, learnt.dom()),
                burst_fresh(stamped(s, f.dev, learnt, now.boot_millis), f.dev, learnt.dom()),
                stamped(s, f.dev, learnt, now.boot_millis),
                log.push(Op::Clock { reading: now }),
                s1,
                l1,
            )
            &&& #[trigger] burst_written(f.dev, f.anat.dev, macs, s1, l1, s2, log2)
        };
    let st = stamped(s, f.dev, learnt, now.boot_millis);
    let clock = Op::Clock { reading: now };
    let lc = log.push(clock);
    lemma_plain_one(s.book.dir, log, clock);
    lemma_kept_plain(t, d0, l0, s.book.dir, log, s.book.dir, lc);
    lemma_room_made(
        t,
        d0,
        l0,
        f.dev,
        f.anat.dev,
        burst_over(st, f.dev, learnt.dom()),
        burst_fresh(st, f.dev, learnt.dom()),
        st,
        lc,
        s1,
        l1,
    );
    let (b1, la, b2, reg) = choose|
        b1: BookModel,
        la: Seq<Op>,
        b2: BookModel,
        reg: Option<RegisteredModel>,
    |
        {
            &&& #[trigger] index_noted(s1.book, l1, f.dev, f.anat.dev, b1, la)
            &&& #[trigger] batch_registered(b1, la, f.dev, f.anat.dev, macs, b2, log2, reg)
            &&& s2 == s1.with_book(b2).holding(f.dev, held_by(reg))
        };
    lemma_plain_index(s1.book, l1, f.dev, f.anat.dev, b1, la);
    lemma_kept_plain(t, d0, l0, s1.book.dir, l1, b1.dir, la);
    lemma_kept_registered(t, d0, l0, b1, la, f.dev, f.anat.dev, macs, b2, log2, reg);
}

proof fn lemma_bursts_registered(
    t: TopologyModel,
    d0: Files,
    l0: Seq<Op>,
    fps: Seq<FastModel>,
    offers: Seq<OfferModel>,
    devs: Seq<Seq<char>>,
    ats: Seq<At>,
    n: int,
)
    requires
        all_placed(t, fps),
        run_kept(t, d0, l0, ats[0].s, ats[0].log),
        bursts_registered(t, fps, offers, devs, ats),
        0 <= n <= devs.len(),
    ensures
        run_kept(t, d0, l0, ats[n].s, ats[n].log),
    decreases n,
{
    if n > 0 {
        lemma_bursts_registered(t, d0, l0, fps, offers, devs, ats, n - 1);
        let dev = devs[n - 1];
        lemma_pair_of(t, fps, dev);
        let f = pair_of(fps, dev)->0;
        let (a, b) = (ats[n - 1], ats[n]);
        lemma_burst_registered(t, d0, l0, f, learns_of(offers, dev), a.s, a.log, b.s, b.log);
    }
}

proof fn lemma_batch_committed(
    t: TopologyModel,
    d0: Files,
    l0: Seq<Op>,
    fps: Seq<FastModel>,
    events: Seq<(u16, FdbEntry)>,
    s: SyncerModel,
    log: Seq<Op>,
    s2: SyncerModel,
    log2: Seq<Op>,
    urgent: bool,
)
    requires
        all_placed(t, fps),
        run_kept(t, d0, l0, s, log),
        batch_committed(t, fps, events, s, log, s2, log2, urgent),
    ensures
        run_kept(t, d0, l0, s2, log2),
{
    let offers = offered(t, s.carried_wire, fps, events, false);
    let sd = doubted(t, events, s);
    assert(batch_written(t, fps, offers, sd, log, s2, log2));
    let (devs, ats) = choose|devs: Seq<Seq<char>>, ats: Seq<At>|
        {
            &&& lists_devs(devs, offers)
            &&& #[trigger] bursts_registered(t, fps, offers, devs, ats)
            &&& ats[0] == (At { s: sd, log })
            &&& ats.last() == (At { s: s2, log: log2 })
        };
    lemma_bursts_registered(t, d0, l0, fps, offers, devs, ats, devs.len() as int);
}

proof fn lemma_looked_each(
    t: TopologyModel,
    d0: Files,
    l0: Seq<Op>,
    devs: Seq<Seq<char>>,
    stages: Seq<Stage>,
    n: int,
)
    requires
        lines_kept(t, d0, l0, stages[0].book.dir, stages[0].log),
        looked_each(devs, stages),
        0 <= n <= devs.len(),
    ensures
        lines_kept(t, d0, l0, stages[n].book.dir, stages[n].log),
    decreases n,
{
    if n > 0 {
        lemma_looked_each(t, d0, l0, devs, stages, n - 1);
        let dev = devs[n - 1];
        let (a, b) = (stages[n - 1], stages[n]);
        lemma_kept_looked(t, d0, l0, a.book, a.log, dev, b.book, b.log);
    }
}

proof fn lemma_growth_settled(
    t: TopologyModel,
    d0: Files,
    l0: Seq<Op>,
    pfs: Seq<u32>,
    fps: Seq<FastModel>,
    events: Seq<(u16, FdbEntry)>,
    s: SyncerModel,
    log: Seq<Op>,
    s2: SyncerModel,
    log2: Seq<Op>,
    failed: Option<Errno>,
)
    requires
        run_kept(t, d0, l0, s, log),
        growth_settled(t, pfs, fps, events, s, log, s2, log2, failed),
    ensures
        run_kept(t, d0, l0, s2, log2),
{
    let offers = offered(t, s.carried_wire, fps, events, true);
    let (b1, l1, growing, would) = choose|
        b1: BookModel,
        l1: Seq<Op>,
        growing: Seq<Seq<char>>,
        would: Seq<OfferModel>,
    |
        {
            &&& #[trigger] growth_found(offers, s, log, b1, l1, growing, would)
            &&& #[trigger] answer_refreshed(
                t,
                pfs,
                fps,
                would,
                growing,
                doubted(t, events, s).with_book(b1),
                l1,
                s2,
                log2,
                failed,
            )
        };
    let (devs, stages, which) = choose|
        devs: Seq<Seq<char>>,
        stages: Seq<Stage>,
        which: Seq<bool>,
    |
        {
            &&& lists_devs(devs, offers)
            &&& #[trigger] looked_each(devs, stages)
            &&& stages[0] == (Stage { book: s.book, log })
            &&& stages.last() == (Stage { book: b1, log: l1 })
            &&& which.len() == devs.len()
            &&& forall|i: int|
                0 <= i < devs.len() ==> #[trigger] which[i] == offers_growth(
                    offers,
                    devs[i],
                    owned_in(stages[i + 1].book.dir, devs[i]),
                    s.held(devs[i]),
                )
            &&& growing == #[trigger] picked(devs, which)
        };
    lemma_looked_each(t, d0, l0, devs, stages, devs.len() as int);
    if growing.len() > 0 {
        lemma_plain_one(b1.dir, l1, log2.last());
        lemma_kept_plain(t, d0, l0, b1.dir, l1, s2.book.dir, log2);
    }
}

proof fn lemma_batch_grown(
    t: TopologyModel,
    d0: Files,
    l0: Seq<Op>,
    pfs: Seq<u32>,
    carried: bool,
    fps: Seq<FastModel>,
    events: Seq<(u16, FdbEntry)>,
    base: Urgency,
    s: SyncerModel,
    log: Seq<Op>,
    s2: SyncerModel,
    log2: Seq<Op>,
    r: Result<Urgency, Errno>,
)
    requires
        all_placed(t, fps),
        run_kept(t, d0, l0, s, log),
        batch_grown(t, pfs, carried, fps, events, base, s, log, s2, log2, r),
    ensures
        run_kept(t, d0, l0, s2, log2),
{
    if !carried {
        let urgent = choose|urgent: bool| #[trigger]
            batch_committed(t, fps, events, s, log, s2, log2, urgent) && r == Ok::<
                Urgency,
                Errno,
            >(urgency_of(base, urgent));
        lemma_batch_committed(t, d0, l0, fps, events, s, log, s2, log2, urgent);
    } else {
        let (s1, l1, failed) = choose|s1: SyncerModel, l1: Seq<Op>, failed: Option<Errno>|
            {
                &&& #[trigger] growth_settled(t, pfs, fps, events, s, log, s1, l1, failed)
                &&& match failed {
                    Some(e) => r == Err::<Urgency, Errno>(e) && s2 == s1 && log2 == l1,
                    None => exists|urgent: bool| #[trigger]
                        batch_committed(
                            t,
                            reskipped(t, s1.exclude, s1.vf_answer(), fps),
                            events,
                            s1,
                            l1,
                            s2,
                            log2,
                            urgent,
                        ) && r == Ok::<Urgency, Errno>(urgency_of(base, urgent)),
                }
            };
        lemma_growth_settled(t, d0, l0, pfs, fps, events, s, log, s1, l1, failed);
        if failed is None {
            let again = reskipped(t, s1.exclude, s1.vf_answer(), fps);
            let urgent = choose|urgent: bool| #[trigger]
                batch_committed(t, again, events, s1, l1, s2, log2, urgent) && r == Ok::<
                    Urgency,
                    Errno,
                >(urgency_of(base, urgent));
            assert forall|i: int| 0 <= i < again.len() implies is_placed(t, #[trigger] again[i]) by {
                assert(is_placed(t, fps[i]));
            }
            lemma_batch_committed(t, d0, l0, again, events, s1, l1, s2, log2, urgent);
        }
    }
}

proof fn lemma_learns_answered(
    t: TopologyModel,
    d0: Files,
    l0: Seq<Op>,
    pfs: Seq<u32>,
    events: Seq<(u16, FdbEntry)>,
    base: Urgency,
    s: SyncerModel,
    log: Seq<Op>,
    s2: SyncerModel,
    log2: Seq<Op>,
    r: Result<Urgency, Errno>,
)
    requires
        run_kept(t, d0, l0, s, log),
        learns_answered_by(t, pfs, events, base, s, log, s2, log2, r),
    ensures
        run_kept(t, d0, l0, s2, log2),
{
    let (s1, l1, failed) = choose|s1: SyncerModel, l1: Seq<Op>, failed: Option<Errno>|
        {
            &&& #[trigger] answer_first(s, log, pfs, s1, l1, failed)
            &&& match failed {
                Some(e) => r == Err::<Urgency, Errno>(e) && s2 == s1 && log2 == l1,
                None => learns_worked(t, events, base, pfs, s.vf_usable(pfs), s1, l1, s2, log2, r),
            }
        };
    lemma_answer_first(t, d0, l0, s, log, pfs, s1, l1, failed);
    if failed is None {
        let carried = s.vf_usable(pfs);
        let fps = fast_list(t, s1.exclude, s1.vf_answer(), carried, events, s1.pairs);
        assert(learns_worked_for(t, fps, events, base, pfs, carried, s1, l1, s2, log2, r));
        assert forall|i: int| 0 <= i < fps.len() implies is_placed(t, #[trigger] fps[i]) by {
            let _ = lemma_fast_list(
                t,
                s1.exclude,
                s1.vf_answer(),
                carried,
                events,
                s1.pairs,
                i,
            );
        }
        let (sx, lx, urgent) = choose|sx: SyncerModel, lx: Seq<Op>, urgent: bool|
            {
                &&& #[trigger] all_reflected(t, fps, s1, l1, sx, lx, urgent)
                &&& batch_grown(
                    t,
                    pfs,
                    carried,
                    fps,
                    events,
                    urgency_of(base, urgent),
                    sx,
                    lx,
                    s2,
                    log2,
                    r,
                )
            };
        let (ats, urgents) = choose|ats: Seq<At>, urgents: Seq<bool>|
            {
                &&& #[trigger] reflections_answered(t, fps, ats, urgents)
                &&& ats[0] == (At { s: s1, log: l1 })
                &&& ats.last() == (At { s: sx, log: lx })
                &&& urgent == exists|i: int| 0 <= i < urgents.len() && #[trigger] urgents[i]
            };
        lemma_reflections_answered(t, d0, l0, fps, ats, urgents, fps.len() as int);
        lemma_batch_grown(
            t,
            d0,
            l0,
            pfs,
            carried,
            fps,
            events,
            urgency_of(base, urgent),
            sx,
            lx,
            s2,
            log2,
            r,
        );
    }
}

/// In a batch of notifications a line outlives the entry it names: as long as
/// the files are what they are believed to be and nobody else writes them, a
/// line leaves the note of a device that is there only after the card has said
/// that no entry of ours stands behind it.
pub proof fn lines_outlive_entries_in_a_batch(
    t: TopologyModel,
    d0: Files,
    events: Seq<(u16, FdbEntry)>,
    s: SyncerModel,
    log: Seq<Op>,
    s2: SyncerModel,
    log2: Seq<Op>,
    r: Result<Urgency, Errno>,
)
    requires
        fast_applied(t, events, s, log, s2, log2, r),
        believes_right(s.book.dir, d0),
        undisturbed(d0, since(log, log2)),
    ensures
        careful(t, d0, since(log, log2)),
{
    lemma_start(t, d0, s.book.dir, log);
    if events.len() > 0 && !s.dry_run && has_kind(events, RTM_NEWNEIGH) {
        let base = base_urgency(events);
        let now = choose|now: Moment|
            #![trigger silences_dated(t, events, s, now.boot_millis)]
            learns_answered(
                t,
                events,
                base,
                silences_dated(t, events, s, now.boot_millis),
                timed(events, log, now),
                s2,
                log2,
                r,
            );
        let sd = silences_dated(t, events, s, now.boot_millis);
        let lc = timed(events, log, now);
        if has_kind(events, RTM_DELNEIGH) {
            lemma_plain_one(s.book.dir, log, lc.last());
            lemma_kept_plain(t, d0, log, s.book.dir, log, s.book.dir, lc);
        }
        let pfs = live_functions(t, pair_devs(sd.pairs));
        assert(learns_answered_by(t, pfs, events, base, sd, lc, s2, log2, r));
        lemma_learns_answered(t, d0, log, pfs, events, base, sd, lc, s2, log2, r);
    }
}

} // verus!
