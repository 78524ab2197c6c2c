//! No refusal goes unsaid: a full pass that reports no failure had every change
//! accepted, and so had a flush that calls itself clean.

use vstd::prelude::*;

use crate::mac::Mac;
use crate::netlink::{Errno, FdbEntry, Moment, Op, Refused};
use crate::sync::card::{
    batch_answered, batch_noted, batch_registered, batch_settled, failed_in, lemma_answered,
    outcome_of, outcome_said, reduced_said, refusal_texts, refused_said, sets_all, settled_in,
    taken_out, unclaimed, verdict_of, OutcomeModel, RegisteredModel, Verdict, Why,
};
use crate::sync::decide::live_functions;
use crate::sync::files::{grew, lemma_grew_same, lemma_grew_trans, since, Files};
use crate::sync::flush::{
    device_flushed, devices_flushed, dumped_host, each_flushed, flushed, flushed_from, flushed_said,
    note_flushed, target_index, through_said, would_said,
};
use crate::sync::journal::unnoted_text;
use crate::sync::laws::lemma_filework_remembered;
use crate::sync::memory::{lemma_filework_loaded, lemma_filework_saved, memory_loaded, MemoryModel};
use crate::sync::notes::{
    devices_asked, file_read, filework, index_name, is_filework, lemma_filework_extended,
    lemma_filework_forgets, lemma_filework_index, lemma_filework_looked, lemma_filework_moved,
    lemma_filework_reduced, lemma_filework_removed, lock_asked, note_extended, note_forgets,
    note_looked, note_moved, note_reduced, owned_in, BookModel, Stage,
};
use crate::sync::orphans::{
    cleared_said, each_settled, entries_taken, index_by_name, left_text,
    lemma_filework_note_settled, note_settled, orphan_cleared, orphan_followed, orphan_settled,
    orphan_taken, orphan_traced, orphans_dropped, orphans_found, rename_settled, renamed_state,
    renamed_to, still_said, taken_said, without_device, Run,
};
use crate::sync::pass::{
    answer_settled, batch_passed, held_back_text, index_passed, lists, own_entries, pair_carried,
    pair_decided, pair_read, pair_registered, pair_remembered, pair_retired, place_of,
    stale_taken_out, took_over_said, Added, Decision, Dropped, Pass, Progress,
};
use crate::sync::reconcile::{
    answer_first, at_after, orphans_reconciled, pair_devs, pair_finished, pair_passed, pair_worked,
    pair_written, pairs_passed, pairs_reconciled, pass_findings, pass_made, pass_start, reconciled,
    table_reconciled,
};
use crate::sync::syncer::SyncerModel;
use crate::sync::types::{PairModel, Report};
use crate::topology::{AnatomyModel, TopologyModel};

verus! {

/// Whether a card refused a request.
pub open spec fn is_refusal(op: Op) -> bool {
    op matches Op::Card { add, refused, .. } && verdict_of(add, refused) == Verdict::Failed
}

/// Whether a card refused something between two states of the log.
pub open spec fn met_refusal(log: Seq<Op>, log2: Seq<Op>) -> bool {
    exists|i: int| log.len() <= i < log2.len() && is_refusal(#[trigger] log2[i])
}

/// Whether a stretch that led from one list of failures to another left no
/// refusal unsaid.
pub open spec fn told(
    log: Seq<Op>,
    failures: Seq<Seq<char>>,
    log2: Seq<Op>,
    failures2: Seq<Seq<char>>,
) -> bool {
    &&& grew(log, log2)
    &&& failures.len() <= failures2.len()
    &&& met_refusal(log, log2) ==> failures2.len() > 0
}

proof fn lemma_told_trans(
    l0: Seq<Op>,
    f0: Seq<Seq<char>>,
    l1: Seq<Op>,
    f1: Seq<Seq<char>>,
    l2: Seq<Op>,
    f2: Seq<Seq<char>>,
)
    requires
        told(l0, f0, l1, f1),
        told(l1, f1, l2, f2),
    ensures
        told(l0, f0, l2, f2),
{
    lemma_grew_trans(l0, l1, l2);
    if met_refusal(l0, l2) {
        let i = choose|i: int| l0.len() <= i < l2.len() && is_refusal(#[trigger] l2[i]);
        if i < l1.len() {
            assert(l2.take(l1.len() as int)[i] == l1[i]);
            assert(is_refusal(l1[i]));
        } else {
            assert(met_refusal(l1, l2));
        }
    }
}

proof fn lemma_told_files(
    d1: Files,
    l1: Seq<Op>,
    d2: Files,
    l2: Seq<Op>,
    failures: Seq<Seq<char>>,
)
    requires
        filework(d1, l1, d2, l2),
    ensures
        told(l1, failures, l2, failures),
        !met_refusal(l1, l2),
{
    assert forall|i: int| l1.len() <= i < l2.len() implies !is_refusal(#[trigger] l2[i]) by {
        let j = i - l1.len();
        assert(since(l1, l2)[j] == l2[i]);
        assert(is_filework(since(l1, l2)[j]));
    }
}

proof fn lemma_told_same(log: Seq<Op>, failures: Seq<Seq<char>>)
    ensures
        told(log, failures, log, failures),
        !met_refusal(log, log),
{
    lemma_grew_same(log);
}

pub(crate) proof fn lemma_told_ask(log: Seq<Op>, op: Op, failures: Seq<Seq<char>>)
    requires
        !(op is Card),
    ensures
        told(log, failures, log.push(op), failures),
        !met_refusal(log, log.push(op)),
{
    assert(log.push(op).take(log.len() as int) =~= log);
    assert forall|i: int| log.len() <= i < log.push(op).len() implies !is_refusal(
        #[trigger] log.push(op)[i],
    ) by {}
}

proof fn lemma_no_refusal_trans(l0: Seq<Op>, l1: Seq<Op>, l2: Seq<Op>)
    requires
        grew(l0, l1),
        grew(l1, l2),
        !met_refusal(l0, l1),
        !met_refusal(l1, l2),
    ensures
        grew(l0, l2),
        !met_refusal(l0, l2),
{
    lemma_grew_trans(l0, l1, l2);
    assert forall|i: int| l0.len() <= i < l2.len() implies !is_refusal(#[trigger] l2[i]) by {
        if i < l1.len() {
            assert(l2.take(l1.len() as int)[i] == l1[i]);
        }
    }
}

/// A refusal in a row of requests is among the failed ones.
proof fn lemma_row_refused(ops: Seq<Op>)
    requires
        exists|i: int| 0 <= i < ops.len() && is_refusal(#[trigger] ops[i]),
    ensures
        failed_in(ops).len() > 0,
    decreases ops.len(),
{
    let i = choose|i: int| 0 <= i < ops.len() && is_refusal(#[trigger] ops[i]);
    if i < ops.len() - 1 {
        assert(is_refusal(ops.drop_last()[i]));
        lemma_row_refused(ops.drop_last());
    }
}

proof fn lemma_row(log: Seq<Op>, log2: Seq<Op>)
    requires
        grew(log, log2),
        failed_in(since(log, log2)).len() == 0,
    ensures
        !met_refusal(log, log2),
{
    if met_refusal(log, log2) {
        let i = choose|i: int| log.len() <= i < log2.len() && is_refusal(#[trigger] log2[i]);
        assert(is_refusal(since(log, log2)[i - log.len()]));
        lemma_row_refused(since(log, log2));
    }
}

/// What registering a batch says of the card's refusals.
proof fn lemma_registered(
    b: BookModel,
    log: Seq<Op>,
    dev: Seq<char>,
    index: u32,
    macs: Seq<Mac>,
    b2: BookModel,
    log2: Seq<Op>,
    r: Option<RegisteredModel>,
)
    requires
        batch_registered(b, log, dev, index, macs, b2, log2, r),
    ensures
        grew(log, log2),
        met_refusal(log, log2) ==> (r matches Some(x) && x.failures.len() > 0),
{
    let (bl, ll, l3) = choose|bl: BookModel, ll: Seq<Op>, l2: Seq<Op>|
        {
            &&& #[trigger] lock_asked(b, log, dev, bl, ll)
            &&& #[trigger] batch_noted(bl, ll, dev, index, macs, b2, l2, r)
            &&& log2 == l2.push(Op::Unlock { dev })
        };
    let none = Seq::<Seq<char>>::empty();
    lemma_told_ask(log, ll.last(), none);
    let (b1, l1, fresh) = choose|b1: BookModel, l1: Seq<Op>, fresh: Option<Seq<Mac>>|
        {
            &&& #[trigger] note_extended(bl, ll, dev, macs, b1, l1, fresh)
            &&& match (fresh, r) {
                (None, None) => b2 == b1.saying(unnoted_text(dev, macs.len())) && l3 == l1,
                (Some(f), Some(reg)) => batch_settled(
                    b1,
                    l1,
                    dev,
                    index,
                    macs,
                    f,
                    b2,
                    l3,
                    reg,
                ),
                _ => false,
            }
        };
    lemma_filework_extended(bl, ll, dev, macs, b1, l1, fresh);
    lemma_told_files(bl.dir, ll, b1.dir, l1, none);
    lemma_no_refusal_trans(log, ll, l1);
    if let Some(f) = fresh {
        let reg = r->0;
        let l2 = choose|l2: Seq<Op>| #[trigger]
            batch_answered(b1, l1, l2, dev, index, macs, f, b2, l3, reg);
        let row = since(l1, l2);
        let theirs = unclaimed(row, f);
        lemma_told_same(l2, none);
        if theirs.len() > 0 {
            let bs = refused_said(b1, dev, row);
            let (ok, b3) = choose|ok: bool, b3: BookModel| #[trigger]
                note_reduced(bs, l2, dev, theirs.to_set(), b3, l3, ok) && b2 == reduced_said(
                    b3,
                    dev,
                    theirs.len(),
                    ok,
                );
            lemma_filework_reduced(bs, l2, dev, theirs.to_set(), b3, l3, ok);
            lemma_told_files(b1.dir, l2, b2.dir, l3, none);
        }
        lemma_told_ask(l3, Op::Unlock { dev }, none);
        lemma_no_refusal_trans(l2, l3, log2);
        lemma_grew_trans(log, l1, l2);
        lemma_grew_trans(log, l2, log2);
        if reg.failures.len() == 0 {
            assert(failed_in(row).len() == 0);
            lemma_row(l1, l2);
            lemma_no_refusal_trans(log, l1, l2);
            lemma_no_refusal_trans(log, l2, log2);
        }
    } else {
        lemma_told_ask(l3, Op::Unlock { dev }, none);
        lemma_no_refusal_trans(log, l3, log2);
    }
}

proof fn lemma_taken(
    b: BookModel,
    log: Seq<Op>,
    dev: Seq<char>,
    index: u32,
    macs: Seq<Mac>,
    b2: BookModel,
    log2: Seq<Op>,
    o: OutcomeModel,
    why: Why,
)
    requires
        taken_out(b, log, dev, index, macs, b2, log2, o, why),
    ensures
        grew(log, log2),
        met_refusal(log, log2) ==> o.failed.len() > 0,
{
    let (bl, ll, l1, l2) = choose|bl: BookModel, ll: Seq<Op>, l1: Seq<Op>, l2: Seq<Op>|
        {
            &&& #[trigger] lock_asked(b, log, dev, bl, ll)
            &&& grew(ll, l1)
            &&& sets_all(since(ll, l1), index, macs, false)
            &&& o == outcome_of(since(ll, l1))
            &&& #[trigger] note_forgets(outcome_said(bl, dev, o, why), l1, dev, o.settled, b2, l2)
            &&& log2 == l2.push(Op::Unlock { dev })
        };
    let none = Seq::<Seq<char>>::empty();
    lemma_told_ask(log, ll.last(), none);
    lemma_filework_forgets(outcome_said(bl, dev, o, why), l1, dev, o.settled, b2, l2);
    lemma_told_files(bl.dir, l1, b2.dir, l2, none);
    lemma_told_ask(l2, Op::Unlock { dev }, none);
    lemma_no_refusal_trans(l1, l2, log2);
    lemma_grew_trans(log, ll, l1);
    lemma_grew_trans(log, l1, log2);
    if o.failed.len() == 0 {
        lemma_row(ll, l1);
        lemma_no_refusal_trans(log, ll, l1);
        lemma_no_refusal_trans(log, l1, log2);
    }
}

/// Settling a note after its entries were taken out is clean only where none was
/// refused.
proof fn lemma_settled(
    index: Option<u32>,
    owned: Set<Mac>,
    log: Seq<Op>,
    l1: Seq<Op>,
    kept: Set<Mac>,
    b: BookModel,
    dev: Seq<char>,
    b2: BookModel,
    log2: Seq<Op>,
    clean: bool,
)
    requires
        entries_taken(index, owned, log, l1, kept),
        note_settled(b, l1, dev, kept, b2, log2, clean),
    ensures
        grew(log, log2),
        met_refusal(log, log2) ==> !clean,
{
    let none = Seq::<Seq<char>>::empty();
    lemma_filework_note_settled(b, l1, dev, kept, b2, log2, clean);
    lemma_told_files(b.dir, l1, b2.dir, log2, none);
    lemma_told_same(log, none);
    if let Some(i) = index {
        let macs = choose|macs: Seq<Mac>|
            {
                &&& macs.no_duplicates() && macs.to_set() == owned
                &&& grew(log, l1)
                &&& #[trigger] sets_all(since(log, l1), i, macs, false)
                &&& kept == failed_in(since(log, l1)).to_set()
            };
        lemma_grew_trans(log, l1, log2);
        if clean {
            let failed = failed_in(since(log, l1));
            assert(failed.len() == 0) by {
                if failed.len() > 0 {
                    assert(failed.to_set().contains(failed[0]));
                }
            }
            lemma_row(log, l1);
            lemma_no_refusal_trans(log, l1, log2);
        }
    }
}

proof fn lemma_orphan_taken(t: TopologyModel, apply: bool, dev: Seq<char>, r: Run, r2: Run)
    requires
        orphan_taken(t, apply, dev, r, r2),
    ensures
        told(r.log, r.failures, r2.log, r2.failures),
{
    if !apply || r.s.dry_run {
        let b1 = choose|b1: BookModel| #[trigger]
            note_looked(r.s.book, r.log, dev, b1, r2.log) && r2 == (Run {
                s: r.s.with_book(still_said(b1, dev)),
                log: r2.log,
                failures: r.failures,
            });
        lemma_filework_looked(r.s.book, r.log, dev, b1, r2.log);
        lemma_told_files(r.s.book.dir, r.log, r2.s.book.dir, r2.log, r.failures);
    } else {
        let (bl, ll, b1, l1, b2, l2, said) = choose|
            bl: BookModel,
            ll: Seq<Op>,
            b1: BookModel,
            l1: Seq<Op>,
            b2: BookModel,
            l2: Seq<Op>,
            said: Option<Seq<char>>,
        |
            {
                &&& #[trigger] lock_asked(r.s.book, r.log, dev, bl, ll)
                &&& #[trigger] note_looked(bl, ll, dev, b1, l1)
                &&& #[trigger] orphan_cleared(t, dev, b1, l1, b2, l2, said)
                &&& r2 == (Run {
                    s: without_device(r.s.with_book(b2), dev),
                    log: l2.push(Op::Unlock { dev }),
                    failures: match said {
                        Some(x) => r.failures.push(x),
                        None => r.failures,
                    },
                })
            };
        let f = r.failures;
        let f2 = r2.failures;
        lemma_told_ask(r.log, ll.last(), f);
        lemma_filework_looked(bl, ll, dev, b1, l1);
        lemma_told_files(bl.dir, ll, b1.dir, l1, f);
        lemma_told_trans(r.log, f, ll, f, l1, f);
        let owned = owned_in(b1.dir, dev);
        if owned == Set::<Mac>::empty() {
            lemma_told_same(l1, f);
            if b1.readable(dev) {
                lemma_filework_removed(b1, l1, dev, b2, l2);
                lemma_told_files(b1.dir, l1, b2.dir, l2, f);
            }
        } else {
            let (lx, kept, clean) = choose|lx: Seq<Op>, kept: Set<Mac>, clean: bool|
                {
                    &&& #[trigger] entries_taken(index_by_name(t, dev), owned, l1, lx, kept)
                    &&& #[trigger] note_settled(
                        cleared_said(b1, dev, owned, l1, lx, kept),
                        lx,
                        dev,
                        kept,
                        b2,
                        l2,
                        clean,
                    )
                    &&& said == if clean {
                        None
                    } else {
                        Some(left_text(dev, kept.len()))
                    }
                };
            let bs = cleared_said(b1, dev, owned, l1, lx, kept);
            lemma_settled(index_by_name(t, dev), owned, l1, lx, kept, bs, dev, b2, l2, clean);
        }
        assert(told(l1, f, l2, f2));
        lemma_told_trans(r.log, f, l1, f, l2, f2);
        lemma_told_ask(l2, Op::Unlock { dev }, f2);
        lemma_told_trans(r.log, f, l2, f2, r2.log, f2);
    }
}

proof fn lemma_orphan_followed(
    t: TopologyModel,
    apply: bool,
    dev: Seq<char>,
    index: u32,
    name: Seq<char>,
    r: Run,
    r2: Run,
)
    requires
        orphan_followed(t, apply, dev, index, name, r, r2),
    ensures
        told(r.log, r.failures, r2.log, r2.failures),
{
    let f = r.failures;
    lemma_told_same(r.log, f);
    if apply && !r.s.dry_run {
        let (m1, b1, l1, b2, l2, moved) = choose|
            m1: MemoryModel,
            b1: BookModel,
            l1: Seq<Op>,
            b2: BookModel,
            l2: Seq<Op>,
            moved: bool,
        |
            {
                let s = SyncerModel { memory: m1, book: b2, ..r.s };
                &&& #[trigger] memory_loaded(
                    r.s.memory,
                    r.s.book,
                    r.log,
                    t,
                    dev,
                    m1,
                    b1,
                    l1,
                )
                &&& #[trigger] note_moved(b1, l1, dev, name, index, b2, l2, moved)
                &&& if moved {
                    rename_settled(t, renamed_state(s, dev, name), l2, name, r.failures, r2)
                } else {
                    r2 == (Run { s, log: l2, failures: r.failures })
                }
            };
        lemma_filework_loaded(r.s.memory, r.s.book, r.log, t, dev, m1, b1, l1);
        lemma_told_files(r.s.book.dir, r.log, b1.dir, l1, f);
        lemma_filework_moved(b1, l1, dev, name, index, b2, l2, moved);
        lemma_told_files(b1.dir, l1, b2.dir, l2, f);
        lemma_told_trans(r.log, f, l1, f, l2, f);
        if moved {
            let s = renamed_state(SyncerModel { memory: m1, book: b2, ..r.s }, dev, name);
            lemma_filework_saved(
                s.memory,
                s.book,
                l2,
                t,
                name,
                s.last_pass_at,
                s.dry_run,
                r2.s.memory,
                r2.s.book,
                r2.log,
            );
            lemma_told_files(s.book.dir, l2, r2.s.book.dir, r2.log, f);
            lemma_told_trans(r.log, f, l2, f, r2.log, f);
        }
    }
}

pub(crate) proof fn lemma_orphan_settled(
    t: TopologyModel,
    apply: bool,
    dev: Seq<char>,
    r: Run,
    r2: Run,
)
    requires
        orphan_settled(t, apply, dev, r, r2),
    ensures
        told(r.log, r.failures, r2.log, r2.failures),
{
    if t.names.contains_key(dev) {
        lemma_orphan_taken(t, apply, dev, r, r2);
    } else {
        let (b1, l1) = choose|b1: BookModel, l1: Seq<Op>| #[trigger]
            file_read(r.s.book, r.log, index_name(dev), b1, l1) && orphan_traced(
                t,
                apply,
                dev,
                renamed_to(t, b1.dir, dev),
                Run { s: r.s.with_book(b1), log: l1, failures: r.failures },
                r2,
            );
        let r1 = Run { s: r.s.with_book(b1), log: l1, failures: r.failures };
        lemma_told_ask(r.log, l1.last(), r.failures);
        match renamed_to(t, b1.dir, dev) {
            Some((index, name)) => {
                lemma_orphan_followed(t, apply, dev, index, name, r1, r2);
            },
            None => {
                lemma_orphan_taken(t, apply, dev, r1, r2);
            },
        }
        lemma_told_trans(r.log, r.failures, l1, r.failures, r2.log, r2.failures);
    }
}

proof fn lemma_each_settled(
    t: TopologyModel,
    apply: bool,
    devs: Seq<Seq<char>>,
    runs: Seq<Run>,
    n: int,
)
    requires
        each_settled(t, apply, devs, runs),
        0 <= n <= devs.len(),
    ensures
        told(runs[0].log, runs[0].failures, runs[n].log, runs[n].failures),
    decreases n,
{
    let a = runs[0];
    lemma_told_same(a.log, a.failures);
    if n > 0 {
        lemma_each_settled(t, apply, devs, runs, n - 1);
        let dev = devs[n - 1];
        let (b, c) = (runs[n - 1], runs[n]);
        lemma_orphan_settled(t, apply, dev, b, c);
        lemma_told_trans(a.log, a.failures, b.log, b.failures, c.log, c.failures);
    }
}

pub(crate) proof fn lemma_orphans_dropped(t: TopologyModel, apply: bool, r: Run, r2: Run)
    requires
        orphans_dropped(t, apply, r, r2),
    ensures
        told(r.log, r.failures, r2.log, r2.failures),
{
    let (devs, runs) = choose|devs: Seq<Seq<char>>, runs: Seq<Run>|
        {
            &&& #[trigger] each_settled(t, apply, devs, runs)
            &&& orphans_found(r.s, r.log, runs[0].s, runs[0].log, devs)
            &&& runs[0].failures == r.failures
            &&& r2 == runs.last()
        };
    lemma_told_same(r.log, r.failures);
    if r.s.authoritative {
        let clock = runs[0].log[r.log.len() as int];
        let l1 = r.log.push(clock);
        lemma_told_ask(r.log, clock, r.failures);
        lemma_told_ask(l1, runs[0].log.last(), r.failures);
        lemma_told_trans(r.log, r.failures, l1, r.failures, runs[0].log, r.failures);
    }
    lemma_each_settled(t, apply, devs, runs, devs.len() as int);
    lemma_told_trans(r.log, r.failures, runs[0].log, r.failures, r2.log, r2.failures);
}

pub(crate) proof fn lemma_pair_read(
    t: TopologyModel,
    apply: bool,
    dev: Seq<char>,
    s: SyncerModel,
    log: Seq<Op>,
    s2: SyncerModel,
    log2: Seq<Op>,
    f: Seq<Seq<char>>,
)
    requires
        pair_read(t, apply, dev, s, log, s2, log2),
    ensures
        told(log, f, log2, f),
{
    let (b1, l1) = choose|b1: BookModel, l1: Seq<Op>|
        {
            &&& #[trigger] memory_loaded(s.memory, s.book, log, t, dev, s2.memory, b1, l1)
            &&& #[trigger] note_looked(
                took_over_said(b1, apply, dev, s, s2.memory),
                l1,
                dev,
                s2.book,
                log2,
            )
            &&& s2 == (SyncerModel { memory: s2.memory, book: s2.book, ..s })
        };
    let bs = took_over_said(b1, apply, dev, s, s2.memory);
    lemma_filework_loaded(s.memory, s.book, log, t, dev, s2.memory, b1, l1);
    lemma_told_files(s.book.dir, log, b1.dir, l1, f);
    lemma_filework_looked(bs, l1, dev, s2.book, log2);
    lemma_told_files(b1.dir, l1, s2.book.dir, log2, f);
    lemma_told_trans(log, f, l1, f, log2, f);
}

pub(crate) proof fn lemma_pair_registered(
    c: Pass,
    anat: AnatomyModel,
    dev: Seq<char>,
    owned: Set<Mac>,
    want: Set<Mac>,
    r: Run,
    r2: Run,
    a: Added,
)
    requires
        pair_registered(c, anat, dev, owned, want, r, r2, a),
    ensures
        told(r.log, r.failures, r2.log, r2.failures),
{
    let f = r.failures;
    lemma_told_same(r.log, f);
    let macs = choose|macs: Seq<Mac>|
        {
            &&& #[trigger] lists(macs, want.difference(own_entries(c.fdb, anat.dev)))
            &&& if !c.apply || r.s.dry_run {
                &&& r2 == r
                &&& a == (Added { count: macs.len(), owned, landed: Set::empty() })
            } else {
                batch_passed(anat, dev, owned, macs, r, r2, a)
            }
        };
    if c.apply && !r.s.dry_run {
        let (b1, l1) = choose|b1: BookModel, l1: Seq<Op>|
            {
                &&& #[trigger] index_passed(r.s.book, r.log, dev, anat.dev, owned, macs, b1, l1)
                &&& if macs.len() == 0 {
                    r2 == (Run { s: r.s.with_book(b1), log: l1, ..r })
                } else {
                    exists|reg: Option<RegisteredModel>|
                        {
                            &&& #[trigger] batch_registered(
                                b1,
                                l1,
                                dev,
                                anat.dev,
                                macs,
                                r2.s.book,
                                r2.log,
                                reg,
                            )
                            &&& match reg {
                                Some(x) => r2.failures == r.failures + x.failures,
                                None => r2.failures == r.failures.push(
                                    held_back_text(dev, macs.len()),
                                ),
                            }
                        }
                }
            };
        if !(owned == Set::<Mac>::empty() && macs.len() == 0) {
            lemma_filework_index(r.s.book, r.log, dev, anat.dev, b1, l1);
            lemma_told_files(r.s.book.dir, r.log, b1.dir, l1, f);
        }
        if macs.len() > 0 {
            let reg = choose|reg: Option<RegisteredModel>|
                {
                    &&& #[trigger] batch_registered(
                        b1,
                        l1,
                        dev,
                        anat.dev,
                        macs,
                        r2.s.book,
                        r2.log,
                        reg,
                    )
                    &&& match reg {
                        Some(x) => r2.failures == r.failures + x.failures,
                        None => r2.failures == r.failures.push(held_back_text(dev, macs.len())),
                    }
                };
            lemma_registered(b1, l1, dev, anat.dev, macs, r2.s.book, r2.log, reg);
            lemma_told_trans(r.log, f, l1, f, r2.log, r2.failures);
        }
    }
}

pub(crate) proof fn lemma_pair_retired(
    c: Pass,
    anat: AnatomyModel,
    dev: Seq<char>,
    owned: Set<Mac>,
    want: Set<Mac>,
    r: Run,
    r2: Run,
    x: Dropped,
)
    requires
        pair_retired(c, anat, dev, owned, want, r, r2, x),
    ensures
        told(r.log, r.failures, r2.log, r2.failures),
{
    lemma_told_same(r.log, r.failures);
    let stale = choose|stale: Seq<Mac>|
        {
            &&& #[trigger] lists(stale, owned.difference(want))
            &&& if !c.apply || r.s.dry_run || stale.len() == 0 {
                &&& r2 == r
                &&& x == (Dropped { count: stale.len(), owned, gone: Set::empty() })
            } else {
                stale_taken_out(anat, dev, owned, stale, r, r2, x)
            }
        };
    if c.apply && !r.s.dry_run && stale.len() > 0 {
        let o = choose|o: OutcomeModel|
            {
                &&& #[trigger] taken_out(
                    r.s.book,
                    r.log,
                    dev,
                    anat.dev,
                    stale,
                    r2.s.book,
                    r2.log,
                    o,
                    Why::Stale,
                )
                &&& r2.failures == r.failures + refusal_texts(
                    dev,
                    "unregister"@,
                    o.failed,
                    o.errors,
                )
            };
        lemma_taken(r.s.book, r.log, dev, anat.dev, stale, r2.s.book, r2.log, o, Why::Stale);
    }
}

pub(crate) proof fn lemma_pair_written(
    c: Pass,
    pair: PairModel,
    anat: AnatomyModel,
    owned: Set<Mac>,
    readable: bool,
    d: Decision,
    r: Run,
    reports: Seq<Report>,
    p2: Progress,
)
    requires
        pair_written(c, pair, anat, owned, readable, d, r, reports, p2),
    ensures
        told(r.log, r.failures, p2.run.log, p2.run.failures),
{
    let (r1, a, r2, x) = choose|r1: Run, a: Added, r2: Run, x: Dropped|
        {
            &&& #[trigger] pair_registered(c, anat, pair.dev, owned, d.want, r, r1, a)
            &&& #[trigger] pair_retired(c, anat, pair.dev, a.owned, d.want, r1, r2, x)
            &&& pair_finished(c, pair, anat, owned, readable, d, a, x, r2, reports, p2)
        };
    lemma_pair_registered(c, anat, pair.dev, owned, d.want, r, r1, a);
    lemma_pair_retired(c, anat, pair.dev, a.owned, d.want, r1, r2, x);
    lemma_told_trans(r.log, r.failures, r1.log, r1.failures, r2.log, r2.failures);
    let s3 = choose|s3: SyncerModel|
        {
            &&& #[trigger] pair_remembered(
                c,
                anat,
                pair.dev,
                owned,
                x.owned,
                readable,
                r2.s,
                r2.log,
                s3,
                p2.run.log,
            )
            &&& p2.run.s == pair_carried(c, anat, pair.dev, d, a.landed, x.gone, readable, s3)
        };
    lemma_filework_remembered(
        c,
        anat,
        pair.dev,
        owned,
        x.owned,
        readable,
        r2.s,
        r2.log,
        s3,
        p2.run.log,
    );
    lemma_told_files(r2.s.book.dir, r2.log, s3.book.dir, p2.run.log, r2.failures);
    lemma_told_trans(r.log, r.failures, r2.log, r2.failures, p2.run.log, r2.failures);
}

pub(crate) proof fn lemma_pair_passed(c: Pass, pair: PairModel, p: Progress, p2: Progress)
    requires
        pair_passed(c, pair, p, p2),
    ensures
        told(p.run.log, p.run.failures, p2.run.log, p2.run.failures),
{
    let f = p.run.failures;
    lemma_told_same(p.run.log, f);
    if let Some(anat) = place_of(c.t, pair) {
        let (sa, la) = choose|sa: SyncerModel, la: Seq<Op>| #[trigger]
            pair_read(c.t, c.apply, pair.dev, p.run.s, p.run.log, sa, la) && pair_worked(
                c,
                pair,
                anat,
                owned_in(sa.book.dir, pair.dev),
                sa.book.readable(pair.dev),
                Progress { run: Run { s: sa, log: la, failures: p.run.failures }, ..p },
                p2,
            );
        let owned = owned_in(sa.book.dir, pair.dev);
        let readable = sa.book.readable(pair.dev);
        let q = Progress { run: Run { s: sa, log: la, failures: p.run.failures }, ..p };
        lemma_pair_read(c.t, c.apply, pair.dev, p.run.s, p.run.log, sa, la, f);
        let (sb, lb, sc, d) = choose|sb: SyncerModel, lb: Seq<Op>, sc: SyncerModel, d: Decision|
            {
                &&& #[trigger] answer_settled(
                    c,
                    anat,
                    pair.dev,
                    owned,
                    q.run.s,
                    q.run.log,
                    q.vf_carried,
                    sb,
                    lb,
                    p2.vf_carried,
                    None,
                )
                &&& #[trigger] pair_decided(c, anat, pair.dev, owned, sb, sc, d)
                &&& pair_written(
                    c,
                    pair,
                    anat,
                    owned,
                    readable,
                    d,
                    Run { s: sc, log: lb, failures: q.run.failures },
                    q.reports,
                    p2,
                )
            };
        lemma_told_same(la, f);
        if lb != la {
            lemma_told_ask(la, lb.last(), f);
        }
        let r = Run { s: sc, log: lb, failures: q.run.failures };
        lemma_pair_written(c, pair, anat, owned, readable, d, r, q.reports, p2);
        lemma_told_trans(p.run.log, f, la, f, lb, f);
        lemma_told_trans(p.run.log, f, lb, f, p2.run.log, p2.run.failures);
    }
}

pub(crate) proof fn lemma_pairs_passed(c: Pass, pairs: Seq<PairModel>, ps: Seq<Progress>, n: int)
    requires
        pairs_passed(c, pairs, ps),
        0 <= n <= pairs.len(),
    ensures
        told(ps[0].run.log, ps[0].run.failures, ps[n].run.log, ps[n].run.failures),
    decreases n,
{
    let a = ps[0].run;
    lemma_told_same(a.log, a.failures);
    if n > 0 {
        lemma_pairs_passed(c, pairs, ps, n - 1);
        let pair = pairs[n - 1];
        lemma_pair_passed(c, pair, ps[n - 1], ps[n]);
        let (b, e) = (ps[n - 1].run, ps[n].run);
        lemma_told_trans(a.log, a.failures, b.log, b.failures, e.log, e.failures);
    }
}

proof fn lemma_pairs_reconciled(
    c: Pass,
    pairs: Seq<PairModel>,
    p: Progress,
    s2: SyncerModel,
    log2: Seq<Op>,
    reports: Seq<Report>,
)
    requires
        pairs_reconciled(c, pairs, p, s2, log2, Ok(reports)),
    ensures
        told(p.run.log, p.run.failures, log2, s2.timings.failures),
{
    let (ps, k) = choose|ps: Seq<Progress>, k: int|
        {
            &&& 0 <= k <= pairs.len()
            &&& #[trigger] pairs_passed(c, pairs.take(k), ps)
            &&& ps[0] == p
            &&& k == pairs.len()
            &&& reports == ps.last().reports
            &&& s2 == (SyncerModel {
                timings: pass_findings(c, ps.last()),
                ..ps.last().run.s
            })
            &&& log2 == ps.last().run.log
        };
    lemma_pairs_passed(c, pairs.take(k), ps, k);
}

proof fn lemma_pass_made(
    t: TopologyModel,
    apply: bool,
    fdb: Seq<FdbEntry>,
    pfs: Seq<u32>,
    carried: bool,
    s: SyncerModel,
    log: Seq<Op>,
    s2: SyncerModel,
    log2: Seq<Op>,
    reports: Seq<Report>,
)
    requires
        pass_made(t, apply, fdb, pfs, carried, s, log, s2, log2, Ok(reports)),
    ensures
        told(log, Seq::empty(), log2, s2.timings.failures),
{
    let r = Ok::<Seq<Report>, Errno>(reports);
    let (now, r1) = choose|now: Moment, r1: Run|
        {
            &&& #[trigger] orphans_dropped(
                t,
                apply,
                pass_start(s, log.push(Op::Clock { reading: now }), at_after(s, now)),
                r1,
            )
            &&& pairs_reconciled(
                Pass { t, fdb, pfs, pass_at: at_after(s, now), apply },
                s.pairs,
                Progress { run: r1, vf_carried: carried, reports: Seq::empty() },
                s2,
                log2,
                r,
            )
        };
    let at = at_after(s, now);
    let clock = Op::Clock { reading: now };
    let lc = log.push(clock);
    let none = Seq::<Seq<char>>::empty();
    lemma_told_ask(log, clock, none);
    lemma_orphans_dropped(t, apply, pass_start(s, lc, at), r1);
    lemma_told_trans(log, none, lc, none, r1.log, r1.failures);
    lemma_pairs_reconciled(
        Pass { t, fdb, pfs, pass_at: at, apply },
        s.pairs,
        Progress { run: r1, vf_carried: carried, reports: Seq::empty() },
        s2,
        log2,
        reports,
    );
    lemma_told_trans(log, none, r1.log, r1.failures, log2, s2.timings.failures);
}

/// A pass that got through and reports no failure had every change accepted:
/// whatever the card refused is among the failures it reports.
pub proof fn a_refusal_in_a_pass_is_reported(
    t: TopologyModel,
    apply: bool,
    s: SyncerModel,
    log: Seq<Op>,
    s2: SyncerModel,
    log2: Seq<Op>,
    reports: Seq<Report>,
)
    requires
        reconciled(t, apply, s, log, s2, log2, Ok(reports)),
        s2.timings.failures.len() == 0,
    ensures
        !met_refusal(log, log2),
{
    let r = Ok::<Seq<Report>, Errno>(reports);
    let none = Seq::<Seq<char>>::empty();
    if s.pairs.len() == 0 {
        assert(orphans_reconciled(t, apply, s, log, s2, log2, r));
        let r0 = Run { s, log, failures: none };
        let r1 = choose|r1: Run| #[trigger]
            orphans_dropped(t, apply, r0, r1) && log2 == r1.log && s2.timings.failures
                == r1.failures;
        lemma_orphans_dropped(t, apply, r0, r1);
    } else {
        let dump = log2[log.len() as int];
        let la = log.push(dump);
        lemma_told_ask(log, dump, none);
        let fdb = dump->table->Ok_0;
        let pfs = live_functions(t, pair_devs(s.pairs));
        assert(table_reconciled(t, apply, fdb, pfs, s, la, s2, log2, r));
        let (s1, l1, failed) = choose|s1: SyncerModel, l1: Seq<Op>, failed: Option<Errno>|
            {
                &&& #[trigger] answer_first(s, la, pfs, s1, l1, failed)
                &&& match failed {
                    None => pass_made(
                        t,
                        apply,
                        fdb,
                        pfs,
                        s.vf_usable(pfs),
                        s1,
                        l1,
                        s2,
                        log2,
                        r,
                    ),
                    Some(e) => r == Err::<Seq<Report>, Errno>(e) && s2 == s1 && log2 == l1,
                }
            };
        lemma_told_same(la, none);
        if !s.vf_usable(pfs) {
            lemma_told_ask(la, l1.last(), none);
        }
        lemma_told_trans(log, none, la, none, l1, none);
        lemma_pass_made(t, apply, fdb, pfs, s.vf_usable(pfs), s1, l1, s2, log2, reports);
        lemma_told_trans(log, none, l1, none, log2, s2.timings.failures);
    }
}

proof fn lemma_device_flushed(
    t: TopologyModel,
    dry_run: bool,
    dev: Seq<char>,
    b: BookModel,
    log: Seq<Op>,
    b2: BookModel,
    log2: Seq<Op>,
    clean: bool,
)
    requires
        device_flushed(t, dry_run, dev, b, log, b2, log2, clean),
        clean,
    ensures
        grew(log, log2),
        !met_refusal(log, log2),
{
    let none = Seq::<Seq<char>>::empty();
    if dry_run {
        let b1 = choose|b1: BookModel| #[trigger]
            note_looked(b, log, dev, b1, log2) && clean == b1.readable(dev) && b2 == would_said(
                b1,
                dev,
            );
        lemma_filework_looked(b, log, dev, b1, log2);
        lemma_told_files(b.dir, log, b2.dir, log2, none);
    } else {
        let (bl, ll, b1, l1, l2) = choose|
            bl: BookModel,
            ll: Seq<Op>,
            b1: BookModel,
            l1: Seq<Op>,
            l2: Seq<Op>,
        |
            {
                &&& #[trigger] lock_asked(b, log, dev, bl, ll)
                &&& #[trigger] note_looked(bl, ll, dev, b1, l1)
                &&& #[trigger] note_flushed(t, dev, owned_in(b1.dir, dev), b1, l1, b2, l2, clean)
                &&& log2 == l2.push(Op::Unlock { dev })
            };
        let owned = owned_in(b1.dir, dev);
        lemma_told_ask(log, ll.last(), none);
        lemma_filework_looked(bl, ll, dev, b1, l1);
        lemma_told_files(bl.dir, ll, b1.dir, l1, none);
        lemma_no_refusal_trans(log, ll, l1);
        if t.names.contains_key(dev) {
            let index = index_by_name(t, dev);
            let (lx, kept, b3) = choose|lx: Seq<Op>, kept: Set<Mac>, b3: BookModel|
                {
                    &&& #[trigger] entries_taken(index, owned, l1, lx, kept)
                    &&& #[trigger] note_settled(
                        taken_said(b1, dev, l1, lx),
                        lx,
                        dev,
                        kept,
                        b3,
                        l2,
                        clean,
                    )
                    &&& b2 == flushed_said(b3, dev, owned, kept, clean)
                };
            let bs = taken_said(b1, dev, l1, lx);
            lemma_settled(index, owned, l1, lx, kept, bs, dev, b3, l2, clean);
        } else {
            let (by, ly) = choose|by: BookModel, ly: Seq<Op>| #[trigger]
                file_read(b1, l1, index_name(dev), by, ly) && flushed_from(
                    target_index(renamed_to(t, by.dir, dev)),
                    owned,
                    dev,
                    through_said(t, by, dev),
                    ly,
                    b2,
                    l2,
                    clean,
                );
            lemma_told_ask(l1, ly.last(), none);
            let index = target_index(renamed_to(t, by.dir, dev));
            let bz = through_said(t, by, dev);
            let (lx, kept, b3) = choose|lx: Seq<Op>, kept: Set<Mac>, b3: BookModel|
                {
                    &&& #[trigger] entries_taken(index, owned, ly, lx, kept)
                    &&& #[trigger] note_settled(
                        taken_said(bz, dev, ly, lx),
                        lx,
                        dev,
                        kept,
                        b3,
                        l2,
                        clean,
                    )
                    &&& b2 == flushed_said(b3, dev, owned, kept, clean)
                };
            let bs = taken_said(bz, dev, ly, lx);
            lemma_settled(index, owned, ly, lx, kept, bs, dev, b3, l2, clean);
            lemma_no_refusal_trans(l1, ly, l2);
        }
        lemma_no_refusal_trans(log, l1, l2);
        lemma_told_ask(l2, Op::Unlock { dev }, none);
        lemma_no_refusal_trans(log, l2, log2);
    }
}

proof fn lemma_each_flushed(
    t: TopologyModel,
    dry_run: bool,
    devs: Seq<Seq<char>>,
    stages: Seq<Stage>,
    cleans: Seq<bool>,
    n: int,
)
    requires
        each_flushed(t, dry_run, devs, stages, cleans),
        forall|i: int| 0 <= i < cleans.len() ==> #[trigger] cleans[i],
        0 <= n <= devs.len(),
    ensures
        grew(stages[0].log, stages[n].log),
        !met_refusal(stages[0].log, stages[n].log),
    decreases n,
{
    lemma_told_same(stages[0].log, Seq::empty());
    if n > 0 {
        lemma_each_flushed(t, dry_run, devs, stages, cleans, n - 1);
        let dev = devs[n - 1];
        let (a, b) = (stages[n - 1], stages[n]);
        assert(cleans[n - 1]);
        lemma_device_flushed(
            t,
            dry_run,
            dev,
            a.book,
            a.log,
            b.book,
            b.log,
            cleans[n - 1],
        );
        lemma_no_refusal_trans(stages[0].log, a.log, b.log);
    }
}

/// A flush that calls itself clean had every removal accepted.
pub proof fn a_clean_flush_met_no_refusal(
    s: SyncerModel,
    log: Seq<Op>,
    s2: SyncerModel,
    log2: Seq<Op>,
)
    requires
        flushed(s, log, s2, log2, Ok(true)),
    ensures
        !met_refusal(log, log2),
{
    let none = Seq::<Seq<char>>::empty();
    let dump = log2[log.len() as int];
    let la = log.push(dump);
    lemma_told_ask(log, dump, none);
    let t = dumped_host(dump->links->Ok_0);
    let (l1, listed) = choose|l1: Seq<Op>, listed: Result<Seq<Seq<char>>, Refused>|
        {
            &&& #[trigger] devices_asked(la, l1, listed)
            &&& match listed {
                Ok(devs) => {
                    &&& s2 == (SyncerModel { book: s2.book, ..s })
                    &&& devices_flushed(t, s.dry_run, devs, s.book, l1, s2.book, log2, true)
                },
                Err(e) => false,
            }
        };
    lemma_told_ask(la, l1.last(), none);
    lemma_no_refusal_trans(log, la, l1);
    let devs = listed->Ok_0;
    let (stages, cleans) = choose|stages: Seq<Stage>, cleans: Seq<bool>|
        {
            &&& #[trigger] each_flushed(t, s.dry_run, devs, stages, cleans)
            &&& stages[0] == (Stage { book: s.book, log: l1 })
            &&& stages.last() == (Stage { book: s2.book, log: log2 })
            &&& true == forall|i: int| 0 <= i < cleans.len() ==> #[trigger] cleans[i]
        };
    lemma_each_flushed(t, s.dry_run, devs, stages, cleans, devs.len() as int);
    lemma_no_refusal_trans(log, l1, log2);
}

proof fn lemma_all_held(
    b: BookModel,
    log: Seq<Op>,
    dev: Seq<char>,
    index: u32,
    macs: Seq<Mac>,
    b2: BookModel,
    log2: Seq<Op>,
    x: RegisteredModel,
    m: Mac,
)
    requires
        batch_registered(b, log, dev, index, macs, b2, log2, Some(x)),
        x.failures.len() == 0,
        macs.contains(m),
    ensures
        x.held.contains(m),
{
    let r = Some(x);
    let (bl, ll, l3) = choose|bl: BookModel, ll: Seq<Op>, l2: Seq<Op>|
        {
            &&& #[trigger] lock_asked(b, log, dev, bl, ll)
            &&& #[trigger] batch_noted(bl, ll, dev, index, macs, b2, l2, r)
            &&& log2 == l2.push(Op::Unlock { dev })
        };
    let (b1, l1, fresh) = choose|b1: BookModel, l1: Seq<Op>, fresh: Option<Seq<Mac>>|
        {
            &&& #[trigger] note_extended(bl, ll, dev, macs, b1, l1, fresh)
            &&& match (fresh, r) {
                (None, None) => b2 == b1.saying(unnoted_text(dev, macs.len())) && l3 == l1,
                (Some(f), Some(reg)) => batch_settled(
                    b1,
                    l1,
                    dev,
                    index,
                    macs,
                    f,
                    b2,
                    l3,
                    reg,
                ),
                _ => false,
            }
        };
    let f = fresh->0;
    let l2 = choose|l2: Seq<Op>| #[trigger]
        batch_answered(b1, l1, l2, dev, index, macs, f, b2, l3, x);
    let row = since(l1, l2);
    lemma_answered(row, index, macs, true);
    assert(failed_in(row).len() == 0);
    assert(!failed_in(row).contains(m));
}

/// A pass over a pair that adds no failure leaves the filter as it is wanted:
/// everything wanted is in the card, and nothing that was on the note and is not
/// wanted any more.
pub proof fn a_clean_pass_leaves_the_filter_as_wanted(
    c: Pass,
    pair: PairModel,
    anat: AnatomyModel,
    owned: Set<Mac>,
    readable: bool,
    d: Decision,
    r: Run,
    reports: Seq<Report>,
    p2: Progress,
)
    requires
        pair_written(c, pair, anat, owned, readable, d, r, reports, p2),
        c.apply && !r.s.dry_run,
        p2.run.failures.len() == r.failures.len(),
    ensures
        d.want.subset_of(p2.run.s.carried[pair.dev].present),
        owned.difference(d.want).disjoint(p2.run.s.carried[pair.dev].present),
{
    let (r1, a, r2, x) = choose|r1: Run, a: Added, r2: Run, x: Dropped|
        {
            &&& #[trigger] pair_registered(c, anat, pair.dev, owned, d.want, r, r1, a)
            &&& #[trigger] pair_retired(c, anat, pair.dev, a.owned, d.want, r1, r2, x)
            &&& pair_finished(c, pair, anat, owned, readable, d, a, x, r2, reports, p2)
        };
    let present = own_entries(c.fdb, anat.dev);
    lemma_registered_fully(c, anat, pair.dev, owned, d.want, r, r1, a);
    lemma_retired_fully(c, anat, pair.dev, a.owned, d.want, r1, r2, x);
    let s3 = choose|s3: SyncerModel|
        {
            &&& #[trigger] pair_remembered(
                c,
                anat,
                pair.dev,
                owned,
                x.owned,
                readable,
                r2.s,
                r2.log,
                s3,
                p2.run.log,
            )
            &&& p2.run.s == pair_carried(c, anat, pair.dev, d, a.landed, x.gone, readable, s3)
        };
    let held = present.union(a.landed).difference(x.gone);
    assert(p2.run.s.carried[pair.dev].present == held);
    assert forall|m: Mac| d.want.contains(m) implies held.contains(m) by {
        if !present.contains(m) {
            assert(d.want.difference(present).contains(m));
        }
        if x.gone.contains(m) {
            assert(a.owned.difference(d.want).contains(m));
        }
    }
    assert forall|m: Mac| owned.difference(d.want).contains(m) implies !held.contains(m) by {
        assert(a.owned.difference(d.want).contains(m));
    }
}

pub(crate) proof fn lemma_registered_fully(
    c: Pass,
    anat: AnatomyModel,
    dev: Seq<char>,
    owned: Set<Mac>,
    want: Set<Mac>,
    r: Run,
    r2: Run,
    a: Added,
)
    requires
        pair_registered(c, anat, dev, owned, want, r, r2, a),
        c.apply && !r.s.dry_run,
    ensures
        r.failures.len() <= r2.failures.len(),
        r2.s.dry_run == r.s.dry_run,
        owned.subset_of(a.owned),
        r2.failures.len() == r.failures.len() ==> want.difference(
            own_entries(c.fdb, anat.dev),
        ).subset_of(a.landed),
{
    let new = want.difference(own_entries(c.fdb, anat.dev));
    let macs = choose|macs: Seq<Mac>|
        {
            &&& #[trigger] lists(macs, new)
            &&& batch_passed(anat, dev, owned, macs, r, r2, a)
        };
    let none = Added { count: 0, owned, landed: Set::empty() };
    let (b1, l1) = choose|b1: BookModel, l1: Seq<Op>|
        {
            &&& #[trigger] index_passed(r.s.book, r.log, dev, anat.dev, owned, macs, b1, l1)
            &&& if macs.len() == 0 {
                r2 == (Run { s: r.s.with_book(b1), log: l1, ..r }) && a == none
            } else {
                exists|reg: Option<RegisteredModel>| #[trigger]
                    batch_registered(
                        b1,
                        l1,
                        dev,
                        anat.dev,
                        macs,
                        r2.s.book,
                        r2.log,
                        reg,
                    ) && r2.s == r.s.with_book(r2.s.book) && match reg {
                        Some(x) => {
                            &&& a == (Added {
                                count: x.put.len(),
                                owned: owned.union(x.put.to_set()),
                                landed: x.held.to_set(),
                            })
                            &&& r2.failures == r.failures + x.failures
                        },
                        None => {
                            &&& a == none
                            &&& r2.failures == r.failures.push(held_back_text(dev, macs.len()))
                        },
                    }
            }
        };
    if macs.len() == 0 {
        assert forall|m: Mac| new.contains(m) implies a.landed.contains(m) by {
            assert(macs.to_set().contains(m));
        }
    } else {
        let reg = choose|reg: Option<RegisteredModel>| #[trigger]
            batch_registered(b1, l1, dev, anat.dev, macs, r2.s.book, r2.log, reg) && r2.s
                == r.s.with_book(r2.s.book) && match reg {
                Some(x) => {
                    &&& a == (Added {
                        count: x.put.len(),
                        owned: owned.union(x.put.to_set()),
                        landed: x.held.to_set(),
                    })
                    &&& r2.failures == r.failures + x.failures
                },
                None => {
                    &&& a == none
                    &&& r2.failures == r.failures.push(held_back_text(dev, macs.len()))
                },
            };
        if r2.failures.len() == r.failures.len() {
            let x = reg->0;
            assert forall|m: Mac| new.contains(m) implies a.landed.contains(m) by {
                assert(macs.to_set().contains(m));
                assert(macs.contains(m));
                lemma_all_held(b1, l1, dev, anat.dev, macs, r2.s.book, r2.log, x, m);
            }
        }
    }
}

pub(crate) proof fn lemma_retired_fully(
    c: Pass,
    anat: AnatomyModel,
    dev: Seq<char>,
    owned: Set<Mac>,
    want: Set<Mac>,
    r: Run,
    r2: Run,
    x: Dropped,
)
    requires
        pair_retired(c, anat, dev, owned, want, r, r2, x),
        c.apply && !r.s.dry_run,
    ensures
        r.failures.len() <= r2.failures.len(),
        x.gone.subset_of(owned.difference(want)),
        r2.failures.len() == r.failures.len() ==> owned.difference(want).subset_of(x.gone),
{
    let old = owned.difference(want);
    let stale = choose|stale: Seq<Mac>|
        {
            &&& #[trigger] lists(stale, old)
            &&& if stale.len() == 0 {
                &&& r2 == r
                &&& x == (Dropped { count: stale.len(), owned, gone: Set::empty() })
            } else {
                stale_taken_out(anat, dev, owned, stale, r, r2, x)
            }
        };
    if stale.len() == 0 {
        assert forall|m: Mac| old.contains(m) implies x.gone.contains(m) by {
            assert(stale.to_set().contains(m));
        }
    } else {
        let o = choose|o: OutcomeModel|
            {
                &&& #[trigger] taken_out(
                    r.s.book,
                    r.log,
                    dev,
                    anat.dev,
                    stale,
                    r2.s.book,
                    r2.log,
                    o,
                    Why::Stale,
                )
                &&& r2.failures == r.failures + refusal_texts(
                    dev,
                    "unregister"@,
                    o.failed,
                    o.errors,
                )
                &&& x == (Dropped {
                    count: o.settled.len(),
                    owned: owned.difference(o.settled.to_set()),
                    gone: o.settled.to_set(),
                })
            };
        let (bl, ll, l1, l2) = choose|bl: BookModel, ll: Seq<Op>, l1: Seq<Op>, l2: Seq<Op>|
            {
                &&& #[trigger] lock_asked(r.s.book, r.log, dev, bl, ll)
                &&& grew(ll, l1)
                &&& sets_all(since(ll, l1), anat.dev, stale, false)
                &&& o == outcome_of(since(ll, l1))
                &&& #[trigger] note_forgets(
                    outcome_said(bl, dev, o, Why::Stale),
                    l1,
                    dev,
                    o.settled,
                    r2.s.book,
                    l2,
                )
                &&& r2.log == l2.push(Op::Unlock { dev })
            };
        let row = since(ll, l1);
        lemma_answered(row, anat.dev, stale, false);
        assert forall|m: Mac| x.gone.contains(m) implies old.contains(m) by {
            assert(settled_in(row).contains(m));
            assert(stale.contains(m));
            assert(stale.to_set().contains(m));
        }
        if r2.failures.len() == r.failures.len() {
            assert(o.failed.len() == 0);
            assert forall|m: Mac| old.contains(m) implies x.gone.contains(m) by {
                assert(stale.to_set().contains(m));
                assert(stale.contains(m));
                assert(!failed_in(row).contains(m));
                assert(settled_in(row).contains(m));
            }
        }
    }
}

} // verus!
