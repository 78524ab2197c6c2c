//! What only looks changes nothing: a pass that may not touch the card, and
//! anything done in a dry run, puts nothing in, takes nothing out and writes no
//! file.

use vstd::prelude::*;

use crate::mac::Mac;
use crate::netlink::{Errno, FdbEntry, Moment, Op, Refused};
use crate::sync::apply::fast_applied;
use crate::sync::decide::live_functions;
use crate::sync::files::{grew, lemma_grew_same, lemma_grew_trans, since};
use crate::sync::flush::{devices_flushed, dumped_host, each_flushed, flushed, would_said};
use crate::sync::memory::memory_loaded;
use crate::sync::notes::{
    devices_asked, file_read, index_name, note_looked, owned_in, BookModel, Stage,
};
use crate::sync::orphans::{
    each_settled, orphan_settled, orphan_traced, orphans_dropped, orphans_found, renamed_to,
    still_said, Run,
};
use crate::sync::pass::{
    answer_settled, pair_carried, pair_decided, pair_read, pair_registered, pair_remembered,
    pair_retired, place_of, took_over_said, Added, Decision, Dropped, Pass, Progress,
};
use crate::sync::reconcile::{
    answer_first, at_after, orphans_reconciled, pair_devs, pair_finished, pair_passed, pair_stopped,
    pair_worked, pair_written, pairs_passed, pairs_reconciled, pass_findings, pass_made, pass_start,
    reconciled, table_reconciled,
};
use crate::sync::syncer::SyncerModel;
use crate::sync::types::{PairModel, Report, Urgency};
use crate::topology::{AnatomyModel, TopologyModel};

verus! {

/// Whether a request only asks.
pub open spec fn is_question(op: Op) -> bool {
    match op {
        Op::DumpFdb { .. } => true,
        Op::DumpLinks { .. } => true,
        Op::VfMacs { .. } => true,
        Op::Stat { .. } => true,
        Op::Read { .. } => true,
        Op::List { .. } => true,
        Op::Clock { .. } => true,
        _ => false,
    }
}

/// Whether everything between two states of the log only asked.
pub open spec fn only_asked(log: Seq<Op>, log2: Seq<Op>) -> bool {
    &&& grew(log, log2)
    &&& forall|i: int| log.len() <= i < log2.len() ==> is_question(#[trigger] log2[i])
}

proof fn lemma_asked_none(log: Seq<Op>)
    ensures
        only_asked(log, log),
{
    lemma_grew_same(log);
}

proof fn lemma_asked_one(log: Seq<Op>, op: Op)
    requires
        is_question(op),
    ensures
        only_asked(log, log.push(op)),
{
    assert(log.push(op).take(log.len() as int) =~= log);
}

proof fn lemma_asked_trans(a: Seq<Op>, b: Seq<Op>, c: Seq<Op>)
    requires
        only_asked(a, b),
        only_asked(b, c),
    ensures
        only_asked(a, c),
{
    lemma_grew_trans(a, b, c);
    assert forall|i: int| a.len() <= i < c.len() implies is_question(#[trigger] c[i]) by {
        if i < b.len() {
            assert(c.take(b.len() as int)[i] == b[i]);
        }
    }
}

proof fn lemma_looked(b: BookModel, log: Seq<Op>, dev: Seq<char>, b2: BookModel, log2: Seq<Op>)
    requires
        note_looked(b, log, dev, b2, log2),
    ensures
        only_asked(log, log2),
{
    let ops = since(log, log2);
    assert forall|i: int| log.len() <= i < log2.len() implies is_question(#[trigger] log2[i]) by {
        let j = i - log.len();
        assert(ops[j] == log2[i]);
        assert(j == 0 || j == 1 || j == 2 || j == 3 || j == 4);
    }
}

proof fn lemma_orphan(
    t: TopologyModel,
    apply: bool,
    dev: Seq<char>,
    r: Run,
    r2: Run,
)
    requires
        !apply || r.s.dry_run,
        orphan_settled(t, apply, dev, r, r2),
    ensures
        only_asked(r.log, r2.log),
        r2.s.dry_run == r.s.dry_run,
        r2.s.pairs == r.s.pairs,
{
    if t.names.contains_key(dev) {
        let b1 = choose|b1: BookModel| #[trigger]
            note_looked(r.s.book, r.log, dev, b1, r2.log) && r2 == (Run {
                s: r.s.with_book(still_said(b1, dev)),
                log: r2.log,
                failures: r.failures,
            });
        lemma_looked(r.s.book, r.log, dev, b1, r2.log);
    } else {
        let (b1, l1) = choose|b1: BookModel, l1: Seq<Op>| #[trigger]
            file_read(r.s.book, r.log, index_name(dev), b1, l1) && orphan_traced(
                t,
                apply,
                dev,
                renamed_to(t, b1.dir, dev),
                Run { s: r.s.with_book(b1), log: l1, failures: r.failures },
                r2,
            );
        lemma_asked_one(r.log, l1.last());
        if renamed_to(t, b1.dir, dev) is Some {
            lemma_asked_none(l1);
        } else {
            let bx = choose|bx: BookModel| #[trigger]
                note_looked(b1, l1, dev, bx, r2.log) && r2 == (Run {
                    s: r.s.with_book(b1).with_book(still_said(bx, dev)),
                    log: r2.log,
                    failures: r.failures,
                });
            lemma_looked(b1, l1, dev, bx, r2.log);
        }
        lemma_asked_trans(r.log, l1, r2.log);
    }
}

proof fn lemma_orphans(
    t: TopologyModel,
    apply: bool,
    devs: Seq<Seq<char>>,
    runs: Seq<Run>,
    n: int,
)
    requires
        !apply || runs[0].s.dry_run,
        each_settled(t, apply, devs, runs),
        0 <= n <= devs.len(),
    ensures
        only_asked(runs[0].log, runs[n].log),
        runs[n].s.dry_run == runs[0].s.dry_run,
    decreases n,
{
    lemma_asked_none(runs[0].log);
    if n > 0 {
        lemma_orphans(t, apply, devs, runs, n - 1);
        let dev = devs[n - 1];
        lemma_orphan(t, apply, dev, runs[n - 1], runs[n]);
        lemma_asked_trans(runs[0].log, runs[n - 1].log, runs[n].log);
    }
}

/// Orphans are only looked at where the card may not be touched.
proof fn lemma_orphans_dropped(t: TopologyModel, apply: bool, r: Run, r2: Run)
    requires
        !apply || r.s.dry_run,
        orphans_dropped(t, apply, r, r2),
    ensures
        only_asked(r.log, r2.log),
        r2.s.dry_run == r.s.dry_run,
{
    let (devs, runs) = choose|devs: Seq<Seq<char>>, runs: Seq<Run>|
        {
            &&& #[trigger] each_settled(t, apply, devs, runs)
            &&& orphans_found(r.s, r.log, runs[0].s, runs[0].log, devs)
            &&& runs[0].failures == r.failures
            &&& r2 == runs.last()
        };
    lemma_asked_none(r.log);
    if r.s.authoritative {
        let clock = runs[0].log[r.log.len() as int];
        let l1 = r.log.push(clock);
        lemma_asked_one(r.log, clock);
        lemma_asked_one(l1, runs[0].log.last());
        lemma_asked_trans(r.log, l1, runs[0].log);
    }
    lemma_orphans(t, apply, devs, runs, devs.len() as int);
    lemma_asked_trans(r.log, runs[0].log, r2.log);
}

proof fn lemma_pair_read(
    t: TopologyModel,
    apply: bool,
    dev: Seq<char>,
    s: SyncerModel,
    log: Seq<Op>,
    s2: SyncerModel,
    log2: Seq<Op>,
)
    requires
        pair_read(t, apply, dev, s, log, s2, log2),
    ensures
        only_asked(log, log2),
        s2.dry_run == s.dry_run,
{
    let (b1, l1) = choose|b1: BookModel, l1: Seq<Op>|
        {
            &&& #[trigger] memory_loaded(s.memory, s.book, log, t, dev, s2.memory, b1, l1)
            &&& #[trigger] note_looked(
                took_over_said(b1, apply, dev, s, s2.memory),
                l1,
                dev,
                s2.book,
                log2,
            )
            &&& s2 == (SyncerModel { memory: s2.memory, book: s2.book, ..s })
        };
    let bs = took_over_said(b1, apply, dev, s, s2.memory);
    lemma_asked_none(log);
    if !s.memory.loaded.contains(dev) && !s.memory.carried.contains_key(dev) {
        let clock = l1[log.len() as int];
        lemma_asked_one(log, clock);
        lemma_asked_one(log.push(clock), l1.last());
        lemma_asked_trans(log, log.push(clock), l1);
    }
    lemma_looked(bs, l1, dev, s2.book, log2);
    lemma_asked_trans(log, l1, log2);
}

proof fn lemma_answer(
    c: Pass,
    anat: AnatomyModel,
    dev: Seq<char>,
    owned: Set<Mac>,
    s: SyncerModel,
    log: Seq<Op>,
    carried: bool,
    s2: SyncerModel,
    log2: Seq<Op>,
    carried2: bool,
    failed: Option<Errno>,
)
    requires
        answer_settled(c, anat, dev, owned, s, log, carried, s2, log2, carried2, failed),
    ensures
        only_asked(log, log2),
        s2.dry_run == s.dry_run,
{
    lemma_asked_none(log);
    if log2 != log {
        lemma_asked_one(log, log2.last());
    }
}

proof fn lemma_pair_written(
    c: Pass,
    pair: PairModel,
    anat: AnatomyModel,
    owned: Set<Mac>,
    readable: bool,
    d: Decision,
    r: Run,
    reports: Seq<Report>,
    p2: Progress,
)
    requires
        !c.apply || r.s.dry_run,
        pair_written(c, pair, anat, owned, readable, d, r, reports, p2),
    ensures
        p2.run.log == r.log,
        p2.run.s.book.dir == r.s.book.dir,
        p2.run.s.dry_run == r.s.dry_run,
{
    let (r1, a, r2, x) = choose|r1: Run, a: Added, r2: Run, x: Dropped|
        {
            &&& #[trigger] pair_registered(c, anat, pair.dev, owned, d.want, r, r1, a)
            &&& #[trigger] pair_retired(c, anat, pair.dev, a.owned, d.want, r1, r2, x)
            &&& pair_finished(c, pair, anat, owned, readable, d, a, x, r2, reports, p2)
        };
    assert(r2 == r);
    let s3 = choose|s3: SyncerModel|
        {
            &&& #[trigger] pair_remembered(
                c,
                anat,
                pair.dev,
                owned,
                x.owned,
                readable,
                r2.s,
                r2.log,
                s3,
                p2.run.log,
            )
            &&& p2.run.s == pair_carried(c, anat, pair.dev, d, a.landed, x.gone, readable, s3)
        };
    assert(p2.run.log == r.log);
}

proof fn lemma_pair_passed(c: Pass, pair: PairModel, p: Progress, p2: Progress)
    requires
        !c.apply || p.run.s.dry_run,
        pair_passed(c, pair, p, p2),
    ensures
        only_asked(p.run.log, p2.run.log),
        p2.run.s.dry_run == p.run.s.dry_run,
{
    lemma_asked_none(p.run.log);
    if let Some(anat) = place_of(c.t, pair) {
        let (sa, la) = choose|sa: SyncerModel, la: Seq<Op>| #[trigger]
            pair_read(c.t, c.apply, pair.dev, p.run.s, p.run.log, sa, la) && pair_worked(
                c,
                pair,
                anat,
                owned_in(sa.book.dir, pair.dev),
                sa.book.readable(pair.dev),
                Progress { run: Run { s: sa, log: la, failures: p.run.failures }, ..p },
                p2,
            );
        let owned = owned_in(sa.book.dir, pair.dev);
        let readable = sa.book.readable(pair.dev);
        let q = Progress { run: Run { s: sa, log: la, failures: p.run.failures }, ..p };
        lemma_pair_read(c.t, c.apply, pair.dev, p.run.s, p.run.log, sa, la);
        let (sb, lb, sc, d) = choose|sb: SyncerModel, lb: Seq<Op>, sc: SyncerModel, d: Decision|
            {
                &&& #[trigger] answer_settled(
                    c,
                    anat,
                    pair.dev,
                    owned,
                    q.run.s,
                    q.run.log,
                    q.vf_carried,
                    sb,
                    lb,
                    p2.vf_carried,
                    None,
                )
                &&& #[trigger] pair_decided(c, anat, pair.dev, owned, sb, sc, d)
                &&& pair_written(
                    c,
                    pair,
                    anat,
                    owned,
                    readable,
                    d,
                    Run { s: sc, log: lb, failures: q.run.failures },
                    q.reports,
                    p2,
                )
            };
        lemma_answer(c, anat, pair.dev, owned, sa, la, p.vf_carried, sb, lb, p2.vf_carried, None);
        let r = Run { s: sc, log: lb, failures: q.run.failures };
        lemma_pair_written(c, pair, anat, owned, readable, d, r, q.reports, p2);
        lemma_asked_trans(p.run.log, la, lb);
    }
}

proof fn lemma_pairs_passed(c: Pass, pairs: Seq<PairModel>, ps: Seq<Progress>, n: int)
    requires
        !c.apply || ps[0].run.s.dry_run,
        pairs_passed(c, pairs, ps),
        0 <= n <= pairs.len(),
    ensures
        only_asked(ps[0].run.log, ps[n].run.log),
        ps[n].run.s.dry_run == ps[0].run.s.dry_run,
    decreases n,
{
    lemma_asked_none(ps[0].run.log);
    if n > 0 {
        lemma_pairs_passed(c, pairs, ps, n - 1);
        let pair = pairs[n - 1];
        lemma_pair_passed(c, pair, ps[n - 1], ps[n]);
        lemma_asked_trans(ps[0].run.log, ps[n - 1].run.log, ps[n].run.log);
    }
}

proof fn lemma_pairs_reconciled(
    c: Pass,
    pairs: Seq<PairModel>,
    p: Progress,
    s2: SyncerModel,
    log2: Seq<Op>,
    r: Result<Seq<Report>, Errno>,
)
    requires
        !c.apply || p.run.s.dry_run,
        pairs_reconciled(c, pairs, p, s2, log2, r),
    ensures
        only_asked(p.run.log, log2),
{
    let (ps, k) = choose|ps: Seq<Progress>, k: int|
        {
            &&& 0 <= k <= pairs.len()
            &&& #[trigger] pairs_passed(c, pairs.take(k), ps)
            &&& ps[0] == p
            &&& match r {
                Ok(reports) => {
                    &&& k == pairs.len()
                    &&& reports == ps.last().reports
                    &&& s2 == (SyncerModel {
                        timings: pass_findings(c, ps.last()),
                        ..ps.last().run.s
                    })
                    &&& log2 == ps.last().run.log
                },
                Err(e) => k < pairs.len() && pair_stopped(c, pairs[k], ps.last(), s2, log2, e),
            }
        };
    lemma_pairs_passed(c, pairs.take(k), ps, k);
    if let Err(e) = r {
        let (pair, q) = (pairs[k], ps.last());
        let anat = place_of(c.t, pair)->0;
        let (sa, la) = choose|sa: SyncerModel, la: Seq<Op>| #[trigger]
            pair_read(c.t, c.apply, pair.dev, q.run.s, q.run.log, sa, la) && answer_settled(
                c,
                anat,
                pair.dev,
                owned_in(sa.book.dir, pair.dev),
                sa,
                la,
                q.vf_carried,
                s2,
                log2,
                q.vf_carried,
                Some(e),
            );
        let owned = owned_in(sa.book.dir, pair.dev);
        lemma_pair_read(c.t, c.apply, pair.dev, q.run.s, q.run.log, sa, la);
        lemma_answer(
            c,
            anat,
            pair.dev,
            owned,
            sa,
            la,
            q.vf_carried,
            s2,
            log2,
            q.vf_carried,
            Some(e),
        );
        lemma_asked_trans(q.run.log, la, log2);
        lemma_asked_trans(p.run.log, q.run.log, log2);
    }
}

proof fn lemma_pass_made(
    t: TopologyModel,
    apply: bool,
    fdb: Seq<FdbEntry>,
    pfs: Seq<u32>,
    carried: bool,
    s: SyncerModel,
    log: Seq<Op>,
    s2: SyncerModel,
    log2: Seq<Op>,
    r: Result<Seq<Report>, Errno>,
)
    requires
        !apply || s.dry_run,
        pass_made(t, apply, fdb, pfs, carried, s, log, s2, log2, r),
    ensures
        only_asked(log, log2),
{
    let (now, r1) = choose|now: Moment, r1: Run|
        {
            &&& #[trigger] orphans_dropped(
                t,
                apply,
                pass_start(s, log.push(Op::Clock { reading: now }), at_after(s, now)),
                r1,
            )
            &&& pairs_reconciled(
                Pass { t, fdb, pfs, pass_at: at_after(s, now), apply },
                s.pairs,
                Progress { run: r1, vf_carried: carried, reports: Seq::empty() },
                s2,
                log2,
                r,
            )
        };
    let at = at_after(s, now);
    let clock = Op::Clock { reading: now };
    let lc = log.push(clock);
    lemma_asked_one(log, clock);
    lemma_orphans_dropped(t, apply, pass_start(s, lc, at), r1);
    lemma_asked_trans(log, lc, r1.log);
    lemma_pairs_reconciled(
        Pass { t, fdb, pfs, pass_at: at, apply },
        s.pairs,
        Progress { run: r1, vf_carried: carried, reports: Seq::empty() },
        s2,
        log2,
        r,
    );
    lemma_asked_trans(log, r1.log, log2);
}

/// A pass that may not touch the card, or runs dry, only asks: nothing goes
/// into a card or out of it, and no file is written or removed.
pub proof fn a_look_changes_nothing(
    t: TopologyModel,
    apply: bool,
    s: SyncerModel,
    log: Seq<Op>,
    s2: SyncerModel,
    log2: Seq<Op>,
    r: Result<Seq<Report>, Errno>,
)
    requires
        !apply || s.dry_run,
        reconciled(t, apply, s, log, s2, log2, r),
    ensures
        only_asked(log, log2),
{
    if s.pairs.len() == 0 {
        assert(orphans_reconciled(t, apply, s, log, s2, log2, r));
        let r0 = Run { s, log, failures: Seq::empty() };
        let r1 = choose|r1: Run| #[trigger]
            orphans_dropped(t, apply, r0, r1) && log2 == r1.log;
        lemma_orphans_dropped(t, apply, r0, r1);
    } else {
        let dump = log2[log.len() as int];
        let l0 = log.push(dump);
        lemma_asked_one(log, dump);
        if let Op::DumpFdb { table: Ok(fdb) } = dump {
            let pfs = live_functions(t, pair_devs(s.pairs));
            assert(table_reconciled(t, apply, fdb, pfs, s, l0, s2, log2, r));
            let (s1, l1, failed) = choose|s1: SyncerModel, l1: Seq<Op>, failed: Option<Errno>|
                {
                    &&& #[trigger] answer_first(s, l0, pfs, s1, l1, failed)
                    &&& match failed {
                        None => pass_made(
                            t,
                            apply,
                            fdb,
                            pfs,
                            s.vf_usable(pfs),
                            s1,
                            l1,
                            s2,
                            log2,
                            r,
                        ),
                        Some(e) => r == Err::<Seq<Report>, Errno>(e) && s2 == s1 && log2 == l1,
                    }
                };
            lemma_asked_none(l0);
            if !s.vf_usable(pfs) {
                lemma_asked_one(l0, l1.last());
            }
            lemma_asked_trans(log, l0, l1);
            if failed is None {
                lemma_pass_made(t, apply, fdb, pfs, s.vf_usable(pfs), s1, l1, s2, log2, r);
                lemma_asked_trans(log, l1, log2);
            }
        }
    }
}

proof fn lemma_each_flushed(
    t: TopologyModel,
    devs: Seq<Seq<char>>,
    stages: Seq<Stage>,
    cleans: Seq<bool>,
    n: int,
)
    requires
        each_flushed(t, true, devs, stages, cleans),
        0 <= n <= devs.len(),
    ensures
        only_asked(stages[0].log, stages[n].log),
    decreases n,
{
    lemma_asked_none(stages[0].log);
    if n > 0 {
        lemma_each_flushed(t, devs, stages, cleans, n - 1);
        let dev = devs[n - 1];
        let (a, b) = (stages[n - 1], stages[n]);
        let b1 = choose|b1: BookModel| #[trigger]
            note_looked(a.book, a.log, dev, b1, b.log) && cleans[n - 1] == b1.readable(dev)
                && b.book == would_said(b1, dev);
        lemma_looked(a.book, a.log, dev, b1, b.log);
        lemma_asked_trans(stages[0].log, a.log, b.log);
    }
}

/// A dry flush only asks.
pub proof fn a_dry_flush_changes_nothing(
    s: SyncerModel,
    log: Seq<Op>,
    s2: SyncerModel,
    log2: Seq<Op>,
    r: Result<bool, Errno>,
)
    requires
        s.dry_run,
        flushed(s, log, s2, log2, r),
    ensures
        only_asked(log, log2),
{
    let dump = log2[log.len() as int];
    let l0 = log.push(dump);
    lemma_asked_one(log, dump);
    if let Op::DumpLinks { links: Ok(infos) } = dump {
        let t = dumped_host(infos);
        let (l1, listed) = choose|l1: Seq<Op>, listed: Result<Seq<Seq<char>>, Refused>|
            {
                &&& #[trigger] devices_asked(l0, l1, listed)
                &&& match listed {
                    Ok(devs) => {
                        &&& s2 == (SyncerModel { book: s2.book, ..s })
                        &&& r matches Ok(clean) && devices_flushed(
                            t,
                            s.dry_run,
                            devs,
                            s.book,
                            l1,
                            s2.book,
                            log2,
                            clean,
                        )
                    },
                    Err(e) => r == Err::<bool, Errno>(e.errno) && s2 == s && log2 == l1,
                }
            };
        lemma_asked_one(l0, l1.last());
        lemma_asked_trans(log, l0, l1);
        if let Ok(devs) = listed {
            let clean = r->Ok_0;
            let (stages, cleans) = choose|stages: Seq<Stage>, cleans: Seq<bool>|
                {
                    &&& #[trigger] each_flushed(t, true, devs, stages, cleans)
                    &&& stages[0] == (Stage { book: s.book, log: l1 })
                    &&& stages.last() == (Stage { book: s2.book, log: log2 })
                    &&& clean == forall|i: int| 0 <= i < cleans.len() ==> #[trigger] cleans[i]
                };
            lemma_each_flushed(t, devs, stages, cleans, devs.len() as int);
            lemma_asked_trans(log, l1, log2);
        }
    }
}

/// A dry batch of notifications asks nothing at all and leaves the decision to
/// a full pass, at once.
pub proof fn a_dry_batch_does_nothing(
    t: TopologyModel,
    events: Seq<(u16, FdbEntry)>,
    s: SyncerModel,
    log: Seq<Op>,
    s2: SyncerModel,
    log2: Seq<Op>,
    r: Result<Urgency, Errno>,
)
    requires
        s.dry_run,
        fast_applied(t, events, s, log, s2, log2, r),
    ensures
        s2 == s,
        log2 == log,
        events.len() > 0 ==> r == Ok::<Urgency, Errno>(Urgency::Now),
{
}

} // verus!
