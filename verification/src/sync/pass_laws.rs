//! What a full pass does for every one of its pairs, by what is asked of the
//! driver and of the cards.

use vstd::prelude::*;

use crate::mac::Mac;
use crate::netlink::{Errno, FdbEntry, Moment, Op};
use crate::order::Ordered;
use crate::sync::card::{
    batch_answered, batch_noted, batch_registered, batch_settled, failed_in, lemma_answered,
    lemma_taken_out_asks,
    reduced_said, refused_said, taken_out, unclaimed, verdict_of, OutcomeModel, RegisteredModel,
    Verdict, Why,
};
use crate::sync::decide::{desired_set, live_functions, with_new};
use crate::sync::files::{grew, lemma_grew_push, lemma_grew_same, lemma_grew_trans, replay, since};
use crate::sync::filter_laws::{
    belongs, can_stand, driver_names, hangs_on, kept_out, learnt_on_wire, lemma_hangs_on,
    lemma_stands, only_the_uplinks_own_side_is_kept_out, the_wire_is_the_uplinks_port,
    what_belongs_is_desired,
};
use crate::sync::journal::unnoted_text;
use crate::sync::laws::lemma_filework_remembered;
use crate::sync::memory::{lemma_filework_loaded, memory_loaded, MemoryModel};
use crate::sync::notes::{
    file_read, index_name, lemma_filework_extended, lemma_filework_index, lemma_filework_looked,
    lemma_filework_reduced, lemma_filework_trans, lock_asked, note_extended, note_looked, note_name,
    note_reduced, owned_in, BookModel,
};
use crate::sync::orphans::{
    each_settled, orphan_followed, orphan_settled, orphan_taken, orphan_traced, orphans_dropped,
    orphans_found, renamed_to, Run,
};
use crate::sync::pass::{
    answer_settled, batch_passed, held_back_text, index_passed, lists, own_entries, pair_carried,
    pair_decided, pair_read, pair_registered, pair_remembered, pair_retired, pair_shed, place_of,
    stale_taken_out, took_over_said, want_of, Added, Decision, Dropped, Pass, Progress,
};
use crate::sync::reconcile::{
    answer_first, at_after, pair_devs, pair_done, pair_finished, pair_passed, pair_worked,
    pair_written, pairs_passed, pairs_reconciled, pass_findings, pass_made, pass_start, reconciled,
    table_reconciled,
};
use crate::sync::report_laws::{
    lemma_orphans_dropped, lemma_pair_passed, lemma_pair_read, lemma_pair_written,
    lemma_registered_fully, lemma_retired_fully, lemma_told_ask, told,
};
use crate::sync::syncer::SyncerModel;
use crate::sync::types::{PairModel, Report};
use crate::topology::{
    ascending, ascending_list, carrier, functions_of, AnatomyModel, LinkModel, TopologyModel,
};
use crate::topology::detect_laws::lemma_index_set_finite;
use crate::topology::path_laws::{
    an_uplink_stands_under_its_own_bridge, leads_to_masters, the_first_bridge_over_the_masters,
};

verus! {

/// Whether nothing that the operator or the cards say is changed.
pub(crate) open spec fn steady(a: SyncerModel, b: SyncerModel) -> bool {
    &&& b.pairs == a.pairs
    &&& b.exclude == a.exclude
    &&& b.extra == a.extra
    &&& b.dry_run == a.dry_run
    &&& b.max_macs == a.max_macs
    &&& b.max_macs_je_karte == a.max_macs_je_karte
}

/// Whether the driver's answer is the one there was, or one to this question
/// that came in since.
pub(crate) open spec fn same_answer_or_newer(
    pfs: Seq<u32>,
    a: SyncerModel,
    log: Seq<Op>,
    b: SyncerModel,
    log2: Seq<Op>,
) -> bool {
    ||| b.carried_vf == a.carried_vf
    ||| exists|k: int|
        log.len() <= k < log2.len() && ((#[trigger] log2[k]) matches Op::VfMacs {
            functions,
            answer: Ok(v),
        } && functions == pfs && b.carried_vf == Some((pfs, v)))
}

proof fn lemma_newer_trans(
    pfs: Seq<u32>,
    a: SyncerModel,
    la: Seq<Op>,
    b: SyncerModel,
    lb: Seq<Op>,
    c: SyncerModel,
    lc: Seq<Op>,
)
    requires
        same_answer_or_newer(pfs, a, la, b, lb),
        same_answer_or_newer(pfs, b, lb, c, lc),
        la.len() <= lb.len(),
        grew(lb, lc),
    ensures
        same_answer_or_newer(pfs, a, la, c, lc),
{
    if c.carried_vf == b.carried_vf {
        if b.carried_vf != a.carried_vf {
            let k = choose|k: int|
                la.len() <= k < lb.len() && ((#[trigger] lb[k]) matches Op::VfMacs {
                    functions,
                    answer: Ok(v),
                } && functions == pfs && b.carried_vf == Some((pfs, v)));
            assert(lc.take(lb.len() as int)[k] == lb[k]);
            assert(lc[k] == lb[k]);
        }
    } else {
        let k = choose|k: int|
            lb.len() <= k < lc.len() && ((#[trigger] lc[k]) matches Op::VfMacs {
                functions,
                answer: Ok(v),
            } && functions == pfs && c.carried_vf == Some((pfs, v)));
        assert(la.len() <= k < lc.len());
    }
}

proof fn lemma_orphan_taken(t: TopologyModel, apply: bool, dev: Seq<char>, r: Run, r2: Run)
    requires
        orphan_taken(t, apply, dev, r, r2),
    ensures
        steady(r.s, r2.s),
        r2.s.carried_vf == r.s.carried_vf,
{
}

proof fn lemma_orphan_followed(
    t: TopologyModel,
    apply: bool,
    dev: Seq<char>,
    index: u32,
    name: Seq<char>,
    r: Run,
    r2: Run,
)
    requires
        orphan_followed(t, apply, dev, index, name, r, r2),
    ensures
        steady(r.s, r2.s),
        r2.s.carried_vf == r.s.carried_vf,
{
}

proof fn lemma_each_settled(
    t: TopologyModel,
    apply: bool,
    devs: Seq<Seq<char>>,
    runs: Seq<Run>,
    n: int,
)
    requires
        each_settled(t, apply, devs, runs),
        0 <= n <= devs.len(),
    ensures
        steady(runs[0].s, runs[n].s),
        runs[n].s.carried_vf == runs[0].s.carried_vf,
    decreases n,
{
    if n > 0 {
        lemma_each_settled(t, apply, devs, runs, n - 1);
        let dev = devs[n - 1];
        let (r, r2) = (runs[n - 1], runs[n]);
        assert(orphan_settled(t, apply, dev, r, r2));
        if t.names.contains_key(dev) {
            lemma_orphan_taken(t, apply, dev, r, r2);
        } else {
            let (b1, l1) = choose|b1: BookModel, l1: Seq<Op>| #[trigger]
                file_read(r.s.book, r.log, index_name(dev), b1, l1) && orphan_traced(
                    t,
                    apply,
                    dev,
                    renamed_to(t, b1.dir, dev),
                    Run { s: r.s.with_book(b1), log: l1, failures: r.failures },
                    r2,
                );
            let q = Run { s: r.s.with_book(b1), log: l1, failures: r.failures };
            match renamed_to(t, b1.dir, dev) {
                Some((index, name)) => lemma_orphan_followed(t, apply, dev, index, name, q, r2),
                None => lemma_orphan_taken(t, apply, dev, q, r2),
            }
        }
    }
}

proof fn lemma_orphans_steady(t: TopologyModel, apply: bool, r: Run, r2: Run)
    requires
        orphans_dropped(t, apply, r, r2),
    ensures
        steady(r.s, r2.s),
        r2.s.carried_vf == r.s.carried_vf,
{
    let (devs, runs) = choose|devs: Seq<Seq<char>>, runs: Seq<Run>|
        {
            &&& #[trigger] each_settled(t, apply, devs, runs)
            &&& orphans_found(r.s, r.log, runs[0].s, runs[0].log, devs)
            &&& runs[0].failures == r.failures
            &&& r2 == runs.last()
        };
    lemma_each_settled(t, apply, devs, runs, devs.len() as int);
}

proof fn lemma_written_steady(
    c: Pass,
    pair: PairModel,
    anat: AnatomyModel,
    owned: Set<Mac>,
    readable: bool,
    d: Decision,
    r: Run,
    reports: Seq<Report>,
    p2: Progress,
)
    requires
        pair_written(c, pair, anat, owned, readable, d, r, reports, p2),
    ensures
        steady(r.s, p2.run.s),
        p2.run.s.carried_vf == r.s.carried_vf,
{
    let (r1, a, r2, x) = choose|r1: Run, a: Added, r2: Run, x: Dropped|
        {
            &&& #[trigger] pair_registered(c, anat, pair.dev, owned, d.want, r, r1, a)
            &&& #[trigger] pair_retired(c, anat, pair.dev, a.owned, d.want, r1, r2, x)
            &&& pair_finished(c, pair, anat, owned, readable, d, a, x, r2, reports, p2)
        };
    assert(steady(r.s, r1.s) && r1.s.carried_vf == r.s.carried_vf);
    assert(steady(r1.s, r2.s) && r2.s.carried_vf == r1.s.carried_vf);
    let s3 = choose|s3: SyncerModel|
        {
            &&& #[trigger] pair_remembered(
                c,
                anat,
                pair.dev,
                owned,
                x.owned,
                readable,
                r2.s,
                r2.log,
                s3,
                p2.run.log,
            )
            &&& p2.run.s == pair_carried(c, anat, pair.dev, d, a.landed, x.gone, readable, s3)
        };
    assert(steady(r2.s, s3) && s3.carried_vf == r2.s.carried_vf);
}

/// The moments of a pass over one pair: once its note was looked at, once the
/// driver's answer was settled, and what was decided then.
pub struct Steps {
    pub sa: SyncerModel,
    pub la: Seq<Op>,
    pub sb: SyncerModel,
    pub lb: Seq<Op>,
    pub sc: SyncerModel,
    pub d: Decision,
}

/// Whether these are the moments of a pass over a pair.
pub open spec fn are_steps(
    c: Pass,
    pair: PairModel,
    anat: AnatomyModel,
    p: Progress,
    p2: Progress,
    x: Steps,
) -> bool {
    &&& pair_read(c.t, c.apply, pair.dev, p.run.s, p.run.log, x.sa, x.la)
    &&& answer_settled(
        c,
        anat,
        pair.dev,
        owned_in(x.sa.book.dir, pair.dev),
        x.sa,
        x.la,
        p.vf_carried,
        x.sb,
        x.lb,
        p2.vf_carried,
        None,
    )
    &&& pair_decided(c, anat, pair.dev, owned_in(x.sa.book.dir, pair.dev), x.sb, x.sc, x.d)
    &&& pair_written(
        c,
        pair,
        anat,
        owned_in(x.sa.book.dir, pair.dev),
        x.sa.book.readable(pair.dev),
        x.d,
        Run { s: x.sc, log: x.lb, failures: p.run.failures },
        p.reports,
        p2,
    )
}

pub(crate) proof fn lemma_steps(
    c: Pass,
    pair: PairModel,
    anat: AnatomyModel,
    p: Progress,
    p2: Progress,
) -> (x: Steps)
    requires
        pair_done(c, pair, anat, p, p2),
    ensures
        are_steps(c, pair, anat, p, p2, x),
        steady(p.run.s, p2.run.s),
        steady(x.sb, p2.run.s),
        p2.run.s.carried_vf == x.sb.carried_vf,
        x.sc.memory == x.sb.memory,
        same_answer_or_newer(c.pfs, p.run.s, p.run.log, p2.run.s, p2.run.log),
        grew(p.run.log, x.la),
        grew(x.la, x.lb),
        grew(x.lb, p2.run.log),
{
    let (sa, la) = choose|sa: SyncerModel, la: Seq<Op>| #[trigger]
        pair_read(c.t, c.apply, pair.dev, p.run.s, p.run.log, sa, la) && pair_worked(
            c,
            pair,
            anat,
            owned_in(sa.book.dir, pair.dev),
            sa.book.readable(pair.dev),
            Progress { run: Run { s: sa, log: la, failures: p.run.failures }, ..p },
            p2,
        );
    let owned = owned_in(sa.book.dir, pair.dev);
    let readable = sa.book.readable(pair.dev);
    let q = Progress { run: Run { s: sa, log: la, failures: p.run.failures }, ..p };
    let (sb, lb, sc, d) = choose|sb: SyncerModel, lb: Seq<Op>, sc: SyncerModel, d: Decision|
        {
            &&& #[trigger] answer_settled(
                c,
                anat,
                pair.dev,
                owned,
                q.run.s,
                q.run.log,
                q.vf_carried,
                sb,
                lb,
                p2.vf_carried,
                None,
            )
            &&& #[trigger] pair_decided(c, anat, pair.dev, owned, sb, sc, d)
            &&& pair_written(
                c,
                pair,
                anat,
                owned,
                readable,
                d,
                Run { s: sc, log: lb, failures: q.run.failures },
                q.reports,
                p2,
            )
        };
    let r = Run { s: sc, log: lb, failures: q.run.failures };
    lemma_written_steady(c, pair, anat, owned, readable, d, r, q.reports, p2);
    lemma_pair_read(c.t, c.apply, pair.dev, p.run.s, p.run.log, sa, la, p.run.failures);
    lemma_pair_written(c, pair, anat, owned, readable, d, r, q.reports, p2);
    lemma_grew_same(la);
    if lb != la {
        lemma_grew_push(la, la, lb.last());
    }
    lemma_grew_trans(p.run.log, la, lb);
    lemma_grew_trans(la, lb, p2.run.log);
    if lb != la {
        let k = la.len() as int;
        assert(p2.run.log.take(lb.len() as int)[k] == lb[k]);
        assert(p2.run.log[k] == lb.last());
        assert(same_answer_or_newer(c.pfs, p.run.s, p.run.log, p2.run.s, p2.run.log));
    }
    Steps { sa, la, sb, lb, sc, d }
}

proof fn lemma_step(c: Pass, pair: PairModel, p: Progress, p2: Progress)
    requires
        pair_passed(c, pair, p, p2),
    ensures
        steady(p.run.s, p2.run.s),
        same_answer_or_newer(c.pfs, p.run.s, p.run.log, p2.run.s, p2.run.log),
        told(p.run.log, p.run.failures, p2.run.log, p2.run.failures),
{
    lemma_pair_passed(c, pair, p, p2);
    if let Some(anat) = place_of(c.t, pair) {
        let x = lemma_steps(c, pair, anat, p, p2);
    }
}

pub(crate) proof fn lemma_all_steps(
    c: Pass,
    pairs: Seq<PairModel>,
    ps: Seq<Progress>,
    a: int,
    b: int,
)
    requires
        pairs_passed(c, pairs, ps),
        0 <= a <= b <= pairs.len(),
    ensures
        steady(ps[a].run.s, ps[b].run.s),
        same_answer_or_newer(c.pfs, ps[a].run.s, ps[a].run.log, ps[b].run.s, ps[b].run.log),
        grew(ps[a].run.log, ps[b].run.log),
        ps[a].run.failures.len() <= ps[b].run.failures.len(),
    decreases b - a,
{
    lemma_grew_same(ps[a].run.log);
    if a < b {
        lemma_all_steps(c, pairs, ps, a, b - 1);
        assert(pairs[b - 1] == pairs[b - 1]);
        lemma_step(c, pairs[b - 1], ps[b - 1], ps[b]);
        lemma_newer_trans(
            c.pfs,
            ps[a].run.s,
            ps[a].run.log,
            ps[b - 1].run.s,
            ps[b - 1].run.log,
            ps[b].run.s,
            ps[b].run.log,
        );
        lemma_grew_trans(ps[a].run.log, ps[b - 1].run.log, ps[b].run.log);
    }
}

proof fn lemma_pairs_opened(
    c: Pass,
    pairs: Seq<PairModel>,
    p: Progress,
    s2: SyncerModel,
    log2: Seq<Op>,
    reports: Seq<Report>,
) -> (ps: Seq<Progress>)
    requires
        pairs_reconciled(c, pairs, p, s2, log2, Ok(reports)),
    ensures
        pairs_passed(c, pairs, ps),
        ps[0] == p,
        ps.last().run.log == log2,
        reports == ps.last().reports,
        s2 == (SyncerModel { timings: pass_findings(c, ps.last()), ..ps.last().run.s }),
{
    let (ps, k) = choose|ps: Seq<Progress>, k: int|
        {
            &&& 0 <= k <= pairs.len()
            &&& #[trigger] pairs_passed(c, pairs.take(k), ps)
            &&& ps[0] == p
            &&& k == pairs.len()
            &&& reports == ps.last().reports
            &&& s2 == (SyncerModel { timings: pass_findings(c, ps.last()), ..ps.last().run.s })
            &&& log2 == ps.last().run.log
        };
    assert(pairs.take(k) =~= pairs);
    ps
}

/// What follows the driver's answer in a pass that got through, opened up.
pub(crate) proof fn lemma_made_opened(
    t: TopologyModel,
    apply: bool,
    fdb: Seq<FdbEntry>,
    pfs: Seq<u32>,
    carried: bool,
    s: SyncerModel,
    log: Seq<Op>,
    s2: SyncerModel,
    log2: Seq<Op>,
    reports: Seq<Report>,
) -> (r: (Pass, Seq<Progress>))
    requires
        pass_made(t, apply, fdb, pfs, carried, s, log, s2, log2, Ok(reports)),
    ensures
        r.0.t == t,
        r.0.apply == apply,
        r.0.fdb == fdb,
        r.0.pfs == pfs,
        pairs_passed(r.0, s.pairs, r.1),
        r.1.last().run.log == log2,
        reports == r.1.last().reports,
        r.1[0].reports.len() == 0,
        s2 == (SyncerModel { timings: pass_findings(r.0, r.1.last()), ..r.1.last().run.s }),
        steady(s, r.1[0].run.s),
        r.1[0].run.s.carried_vf == s.carried_vf,
        grew(log, r.1[0].run.log),
        exists|now: Moment| #[trigger]
            orphans_dropped(
                t,
                apply,
                pass_start(s, log.push(Op::Clock { reading: now }), at_after(s, now)),
                r.1[0].run,
            ),
{
    let r = Ok::<Seq<Report>, Errno>(reports);
    let none = Seq::<Seq<char>>::empty();
    let (now, r1) = choose|now: Moment, r1: Run|
        {
            &&& #[trigger] orphans_dropped(
                t,
                apply,
                pass_start(s, log.push(Op::Clock { reading: now }), at_after(s, now)),
                r1,
            )
            &&& pairs_reconciled(
                Pass { t, fdb, pfs, pass_at: at_after(s, now), apply },
                s.pairs,
                Progress { run: r1, vf_carried: carried, reports: Seq::empty() },
                s2,
                log2,
                r,
            )
        };
    let c = Pass { t, fdb, pfs, pass_at: at_after(s, now), apply };
    let clock = Op::Clock { reading: now };
    let lc = log.push(clock);
    let r0 = pass_start(s, lc, c.pass_at);
    lemma_told_ask(log, clock, none);
    lemma_orphans_dropped(t, apply, r0, r1);
    lemma_orphans_steady(t, apply, r0, r1);
    lemma_grew_trans(log, lc, r1.log);
    let p = Progress { run: r1, vf_carried: carried, reports: Seq::empty() };
    let ps = lemma_pairs_opened(c, s.pairs, p, s2, log2, reports);
    (c, ps)
}

/// A pass that got through, opened up: what it went by, and the moments between
/// its pairs.
pub(crate) proof fn lemma_opened(
    t: TopologyModel,
    apply: bool,
    s: SyncerModel,
    log: Seq<Op>,
    s2: SyncerModel,
    log2: Seq<Op>,
    reports: Seq<Report>,
) -> (r: (Pass, Seq<Progress>))
    requires
        s.pairs.len() > 0,
        reconciled(t, apply, s, log, s2, log2, Ok(reports)),
    ensures
        log2.len() > log.len(),
        log2[log.len() as int] == (Op::DumpFdb { table: Ok(r.0.fdb) }),
        r.0.t == t,
        r.0.apply == apply,
        r.0.pfs == live_functions(t, pair_devs(s.pairs)),
        pairs_passed(r.0, s.pairs, r.1),
        r.1.last().run.log == log2,
        reports == r.1.last().reports,
        r.1[0].reports.len() == 0,
        s2 == (SyncerModel { timings: pass_findings(r.0, r.1.last()), ..r.1.last().run.s }),
        steady(s, r.1[0].run.s),
        grew(log, r.1[0].run.log),
        r.1[0].run.s.carried_vf matches Some((fs, v)) && fs == r.0.pfs && {
            ||| !s.vf_stale && s.carried_vf == Some((fs, v))
            ||| log.len() + 1 < r.1[0].run.log.len() && r.1[0].run.log[log.len() as int + 1] == (
            Op::VfMacs { functions: fs, answer: Ok(v) })
        },
        s.vf_stale || s.carried_vf is None ==> log.len() + 1 < r.1[0].run.log.len()
            && r.1[0].run.log[log.len() as int + 1] is VfMacs,
{
    let r = Ok::<Seq<Report>, Errno>(reports);
    let none = Seq::<Seq<char>>::empty();
    let dump = log2[log.len() as int];
    let la = log.push(dump);
    lemma_told_ask(log, dump, none);
    let fdb = dump->table->Ok_0;
    let pfs = live_functions(t, pair_devs(s.pairs));
    assert(table_reconciled(t, apply, fdb, pfs, s, la, s2, log2, r));
    let (s1, l1, failed) = choose|s1: SyncerModel, l1: Seq<Op>, failed: Option<Errno>|
        {
            &&& #[trigger] answer_first(s, la, pfs, s1, l1, failed)
            &&& match failed {
                None => pass_made(t, apply, fdb, pfs, s.vf_usable(pfs), s1, l1, s2, log2, r),
                Some(e) => r == Err::<Seq<Report>, Errno>(e) && s2 == s1 && log2 == l1,
            }
        };
    lemma_grew_same(la);
    if !s.vf_usable(pfs) {
        lemma_told_ask(la, l1.last(), none);
    }
    lemma_grew_trans(log, la, l1);
    let (c, ps) = lemma_made_opened(
        t,
        apply,
        fdb,
        pfs,
        s.vf_usable(pfs),
        s1,
        l1,
        s2,
        log2,
        reports,
    );
    let l0 = ps[0].run.log;
    lemma_grew_trans(log, l1, l0);
    lemma_all_steps(c, s.pairs, ps, 0, s.pairs.len() as int);
    if !s.vf_usable(pfs) {
        let q = log.len() as int + 1;
        assert(l0.take(l1.len() as int)[q] == l1[q]);
        assert(l0[q] == l1.last());
    }
    (c, ps)
}

proof fn lemma_with_new(acc: Seq<u32>, v: Seq<u32>, f: u32)
    ensures
        with_new(acc, v).contains(f) <==> acc.contains(f) || v.contains(f),
    decreases v.len(),
{
    if v.len() > 0 {
        lemma_with_new(acc, v.drop_last(), f);
        let head = with_new(acc, v.drop_last());
        assert(v =~= v.drop_last().push(v.last()));
        crate::keyed::lemma_push_contains(v.drop_last(), v.last());
        crate::keyed::lemma_push_contains(head, v.last());
    }
}

pub(crate) proof fn lemma_live_functions(t: TopologyModel, devs: Seq<Seq<char>>, f: u32)
    ensures
        live_functions(t, devs).contains(f) <==> exists|i: int|
            0 <= i < devs.len() && t.names.contains_key(#[trigger] devs[i]) && functions_of(
                t.links,
                carrier(t.links, t.names[devs[i]]),
            ).contains(f),
    decreases devs.len(),
{
    if devs.len() > 0 {
        let front = devs.drop_last();
        let d = devs.last();
        let head = live_functions(t, front);
        lemma_live_functions(t, front, f);
        assert(devs[devs.len() - 1] == d);
        assert forall|i: int| 0 <= i < front.len() implies #[trigger] front[i] == devs[i] by {}
        if t.names.contains_key(d) {
            let fs = functions_of(t.links, carrier(t.links, t.names[d]));
            lemma_ascending_exists(fs);
            lemma_with_new(head, ascending_list(fs), f);
            assert(ascending_list(fs).to_set().contains(f) <==> fs.contains(f));
        }
        if exists|i: int|
            0 <= i < front.len() && t.names.contains_key(#[trigger] front[i]) && functions_of(
                t.links,
                carrier(t.links, t.names[front[i]]),
            ).contains(f) {
            let i = choose|i: int|
                0 <= i < front.len() && t.names.contains_key(#[trigger] front[i]) && functions_of(
                    t.links,
                    carrier(t.links, t.names[front[i]]),
                ).contains(f);
            assert(t.names.contains_key(devs[i]));
        }
        if exists|i: int|
            0 <= i < devs.len() && t.names.contains_key(#[trigger] devs[i]) && functions_of(
                t.links,
                carrier(t.links, t.names[devs[i]]),
            ).contains(f) {
            let i = choose|i: int|
                0 <= i < devs.len() && t.names.contains_key(#[trigger] devs[i]) && functions_of(
                    t.links,
                    carrier(t.links, t.names[devs[i]]),
                ).contains(f);
            if i < front.len() {
                assert(t.names.contains_key(front[i]));
            }
        }
    }
}

proof fn lemma_indices_len(s: Set<u32>)
    requires
        s.finite(),
    ensures
        s.to_seq().len() == s.len(),
    decreases s.len(),
{
    if s.len() > 0 {
        vstd::set_lib::lemma_set_empty_equivalency_len(s);
        lemma_indices_len(s.remove(s.choose()));
    }
}

/// Every set of indices can be put in order.
pub proof fn lemma_ascending_exists(s: Set<u32>)
    ensures
        ascending(ascending_list(s), s),
{
    broadcast use vstd::seq_lib::group_to_multiset_ensures;

    lemma_index_set_finite(s);
    let leq = |a: u32, b: u32| a <= b;
    assert(vstd::relations::total_ordering(leq));
    let v = s.to_seq();
    let w = v.sort_by(leq);
    v.lemma_sort_by_ensures(leq);
    s.lemma_to_seq_to_set_id();
    lemma_indices_len(s);
    v.lemma_no_dup_set_cardinality();
    v.lemma_multiset_has_no_duplicates();
    w.lemma_multiset_has_no_duplicates_conv();
    assert forall|x: u32| w.to_set().contains(x) <==> s.contains(x) by {
        assert(v.contains(x) <==> v.to_multiset().count(x) > 0);
        assert(w.contains(x) <==> w.to_multiset().count(x) > 0);
        assert(v.contains(x) <==> v.to_set().contains(x));
    }
    assert(w.to_set() =~= s);
    assert forall|i: int, j: int|
        #![trigger w[i], w[j]]
        0 <= i <= j < w.len() implies w[i].leq(&w[j]) by {
        if i < j {
            assert(leq(w[i], w[j]));
        }
    }
    assert(ascending(w, s));
}

/// Whether the driver is asked about every physical function behind an uplink.
pub open spec fn asks_about(functions: Seq<u32>, anat: AnatomyModel) -> bool {
    forall|f: u32| #[trigger] anat.functions.contains(f) ==> functions.contains(f)
}

/// Which functions the driver is asked about: every physical function in the
/// anatomy of every pair that stands under its bridge, and none that is not
/// behind an uplink of the host.
pub proof fn every_function_is_asked_about(
    t: TopologyModel,
    pairs: Seq<PairModel>,
    i: int,
    anat: AnatomyModel,
)
    requires
        0 <= i < pairs.len(),
        place_of(t, pairs[i]) == Some(anat),
    ensures
        asks_about(live_functions(t, pair_devs(pairs)), anat),
{
    let devs = pair_devs(pairs);
    assert(devs[i] == pairs[i].dev);
    assert forall|f: u32| #[trigger] anat.functions.contains(f) implies live_functions(
        t,
        devs,
    ).contains(f) by {
        lemma_live_functions(t, devs, f);
        assert(t.names.contains_key(devs[i]));
    }
}

/// Nobody's virtual functions are asked for but those of the uplinks.
pub proof fn nothing_else_is_asked_about(t: TopologyModel, pairs: Seq<PairModel>, f: u32)
    requires
        live_functions(t, pair_devs(pairs)).contains(f),
    ensures
        exists|i: int|
            0 <= i < pairs.len() && t.names.contains_key((#[trigger] pairs[i]).dev)
                && functions_of(t.links, carrier(t.links, t.names[pairs[i].dev])).contains(f),
{
    let devs = pair_devs(pairs);
    lemma_live_functions(t, devs, f);
    let i = choose|i: int|
        0 <= i < devs.len() && t.names.contains_key(#[trigger] devs[i]) && functions_of(
            t.links,
            carrier(t.links, t.names[devs[i]]),
        ).contains(f);
    assert(devs[i] == pairs[i].dev);
}

/// The answer that a pass goes by is about every physical function behind every
/// uplink that stands under its bridge: the driver was asked about them all in
/// this pass, directly after the forwarding table was read where the answer
/// there was is in doubt or there was none.
pub proof fn a_pass_asks_about_every_function(
    t: TopologyModel,
    apply: bool,
    s: SyncerModel,
    log: Seq<Op>,
    s2: SyncerModel,
    log2: Seq<Op>,
    reports: Seq<Report>,
    i: int,
    anat: AnatomyModel,
)
    requires
        reconciled(t, apply, s, log, s2, log2, Ok(reports)),
        0 <= i < s.pairs.len(),
        place_of(t, s.pairs[i]) == Some(anat),
    ensures
        s2.carried_vf matches Some((fs, _)) && asks_about(fs, anat),
        s.vf_stale || s.carried_vf is None ==> log.len() + 1 < log2.len() && (log2[log.len() as int + 1]
            matches Op::VfMacs { functions, answer: Ok(_) } && asks_about(functions, anat)),
        s2.carried_vf != s.carried_vf ==> exists|k: int|
            log.len() <= k < log2.len() && ((#[trigger] log2[k]) matches Op::VfMacs {
                functions,
                answer: Ok(v),
            } && asks_about(functions, anat) && s2.carried_vf == Some((functions, v))),
{
    let (c, ps) = lemma_opened(t, apply, s, log, s2, log2, reports);
    every_function_is_asked_about(t, s.pairs, i, anat);
    let n = s.pairs.len() as int;
    lemma_all_steps(c, s.pairs, ps, 0, n);
    assert(ps.last() == ps[n]);
    let l0 = ps[0].run.log;
    if log.len() + 1 < l0.len() {
        assert(log2.take(l0.len() as int)[log.len() as int + 1] == l0[log.len() as int + 1]);
    }
    if s2.carried_vf != s.carried_vf {
        if s2.carried_vf == ps[0].run.s.carried_vf {
            assert(log2[log.len() as int + 1] is VfMacs);
        } else {
            let k = choose|k: int|
                l0.len() <= k < log2.len() && ((#[trigger] log2[k]) matches Op::VfMacs {
                    functions,
                    answer: Ok(v),
                } && functions == c.pfs && ps[n].run.s.carried_vf == Some((c.pfs, v)));
            assert(log.len() <= k);
        }
    }
}

/// Whether no answer that the driver's word rests on during these requests gives
/// an address for one of these functions: neither the one carried over, if it is
/// to be believed, nor any that came in.
pub open spec fn never_named(
    s: SyncerModel,
    log: Seq<Op>,
    log2: Seq<Op>,
    functions: Set<u32>,
    m: Mac,
) -> bool {
    &&& !s.vf_stale ==> !driver_names(s.vf_answer(), functions, m)
    &&& forall|k: int|
        log.len() <= k < log2.len() ==> ((#[trigger] log2[k]) matches Op::VfMacs {
            answer: Ok(v),
            ..
        } ==> !driver_names(v, functions, m))
}

/// Whether a forwarding entry shows an address in an interface's own filter.
pub open spec fn dump_shows(fdb: Seq<FdbEntry>, index: u32, m: Mac) -> bool {
    exists|i: int|
        0 <= i < fdb.len() && (#[trigger] fdb[i]).flags & 0x02 != 0 && fdb[i].ifindex == index
            && fdb[i].mac == m && m[0] & 1 == 0
}

/// Whether an address was put into a card between two states of the log, or was
/// found there.
pub open spec fn put_into(log: Seq<Op>, log2: Seq<Op>, index: u32, m: Mac) -> bool {
    exists|k: int|
        log.len() <= k < log2.len() && ((#[trigger] log2[k]) matches Op::Card {
            ifindex,
            mac,
            add: true,
            refused,
        } && ifindex == index && mac == m && verdict_of(true, refused) != Verdict::Failed)
}

/// Whether a card was asked between two states of the log to let an address go.
pub open spec fn asked_out(log: Seq<Op>, log2: Seq<Op>, index: u32, m: Mac) -> bool {
    exists|k: int|
        log.len() <= k < log2.len() && ((#[trigger] log2[k]) matches Op::Card {
            ifindex,
            mac,
            add: false,
            ..
        } && ifindex == index && mac == m)
}

pub(crate) proof fn lemma_dump_shows(fdb: Seq<FdbEntry>, index: u32, m: Mac)
    ensures
        own_entries(fdb, index).contains(m) <==> dump_shows(fdb, index, m),
{
    if own_entries(fdb, index).contains(m) {
        let i = choose|i: int|
            0 <= i < fdb.len() && (#[trigger] fdb[i]).own() && fdb[i].ifindex == index
                && crate::mac::unicast(fdb[i].mac) && fdb[i].mac == m;
        assert(fdb[i].flags & 0x02 != 0);
    }
    if dump_shows(fdb, index, m) {
        let i = choose|i: int|
            0 <= i < fdb.len() && (#[trigger] fdb[i]).flags & 0x02 != 0 && fdb[i].ifindex == index
                && fdb[i].mac == m && m[0] & 1 == 0;
        assert(fdb[i].own());
    }
}

/// Every address of a batch that went through was asked of the card.
pub(crate) proof fn lemma_batch_row(
    b: BookModel,
    log: Seq<Op>,
    dev: Seq<char>,
    index: u32,
    macs: Seq<Mac>,
    b2: BookModel,
    log2: Seq<Op>,
    x: RegisteredModel,
    m: Mac,
) -> (k: int)
    requires
        batch_registered(b, log, dev, index, macs, b2, log2, Some(x)),
        macs.contains(m),
    ensures
        log.len() <= k < log2.len(),
        log2[k] matches Op::Card { ifindex, mac, add: true, refused } && ifindex == index && mac
            == m && (x.failures.len() == 0 ==> verdict_of(true, refused) != Verdict::Failed),
{
    let r = Some(x);
    let (bl, ll, l3) = choose|bl: BookModel, ll: Seq<Op>, l2: Seq<Op>|
        {
            &&& #[trigger] lock_asked(b, log, dev, bl, ll)
            &&& #[trigger] batch_noted(bl, ll, dev, index, macs, b2, l2, r)
            &&& log2 == l2.push(Op::Unlock { dev })
        };
    let (b1, l1, fresh) = choose|b1: BookModel, l1: Seq<Op>, fresh: Option<Seq<Mac>>|
        {
            &&& #[trigger] note_extended(bl, ll, dev, macs, b1, l1, fresh)
            &&& match (fresh, r) {
                (None, None) => b2 == b1.saying(unnoted_text(dev, macs.len())) && l3 == l1,
                (Some(f), Some(reg)) => batch_settled(
                    b1,
                    l1,
                    dev,
                    index,
                    macs,
                    f,
                    b2,
                    l3,
                    reg,
                ),
                _ => false,
            }
        };
    lemma_filework_extended(bl, ll, dev, macs, b1, l1, fresh);
    let f = fresh->0;
    let l2 = choose|l2: Seq<Op>| #[trigger]
        batch_answered(b1, l1, l2, dev, index, macs, f, b2, l3, x);
    let row = since(l1, l2);
    let theirs = unclaimed(row, f);
    lemma_grew_same(l2);
    if theirs.len() > 0 {
        let bs = refused_said(b1, dev, row);
        let (ok, b3) = choose|ok: bool, b3: BookModel| #[trigger]
            note_reduced(bs, l2, dev, theirs.to_set(), b3, l3, ok) && b2 == reduced_said(
                b3,
                dev,
                theirs.len(),
                ok,
            );
        lemma_filework_reduced(bs, l2, dev, theirs.to_set(), b3, l3, ok);
    }
    let q = choose|q: int| 0 <= q < macs.len() && macs[q] == m;
    let k = l1.len() + q;
    assert(row[q] == l2[k]);
    assert(l3.take(l2.len() as int)[k] == l2[k]);
    if x.failures.len() == 0 {
        lemma_row_unfailed(row, q);
    }
    k
}

proof fn lemma_row_unfailed(ops: Seq<Op>, q: int)
    requires
        0 <= q < ops.len(),
        failed_in(ops).len() == 0,
    ensures
        ops[q] matches Op::Card { add, refused, .. } ==> verdict_of(add, refused)
            != Verdict::Failed,
    decreases ops.len(),
{
    if q < ops.len() - 1 {
        lemma_row_unfailed(ops.drop_last(), q);
    }
}

proof fn lemma_pair_puts(
    c: Pass,
    anat: AnatomyModel,
    dev: Seq<char>,
    owned: Set<Mac>,
    want: Set<Mac>,
    r: Run,
    r2: Run,
    a: Added,
    m: Mac,
)
    requires
        pair_registered(c, anat, dev, owned, want, r, r2, a),
        c.apply && !r.s.dry_run,
        r2.failures.len() == r.failures.len(),
        want.contains(m),
        !own_entries(c.fdb, anat.dev).contains(m),
    ensures
        put_into(r.log, r2.log, anat.dev, m),
{
    let new = want.difference(own_entries(c.fdb, anat.dev));
    let macs = choose|macs: Seq<Mac>|
        {
            &&& #[trigger] lists(macs, new)
            &&& batch_passed(anat, dev, owned, macs, r, r2, a)
        };
    assert(macs.to_set().contains(m));
    assert(macs.contains(m));
    let (b1, l1) = choose|b1: BookModel, l1: Seq<Op>|
        {
            &&& #[trigger] index_passed(r.s.book, r.log, dev, anat.dev, owned, macs, b1, l1)
            &&& exists|reg: Option<RegisteredModel>| #[trigger]
                batch_registered(b1, l1, dev, anat.dev, macs, r2.s.book, r2.log, reg) && match reg {
                    Some(x) => r2.failures == r.failures + x.failures,
                    None => r2.failures == r.failures.push(held_back_text(dev, macs.len())),
                }
        };
    let reg = choose|reg: Option<RegisteredModel>| #[trigger]
        batch_registered(b1, l1, dev, anat.dev, macs, r2.s.book, r2.log, reg) && match reg {
            Some(x) => r2.failures == r.failures + x.failures,
            None => r2.failures == r.failures.push(held_back_text(dev, macs.len())),
        };
    let x = reg->0;
    lemma_grew_same(r.log);
    lemma_filework_index(r.s.book, r.log, dev, anat.dev, b1, l1);
    let k = lemma_batch_row(b1, l1, dev, anat.dev, macs, r2.s.book, r2.log, x, m);
    assert(r.log.len() <= k);
}

proof fn lemma_pair_serves(
    c: Pass,
    pair: PairModel,
    anat: AnatomyModel,
    p: Progress,
    p2: Progress,
    m: Mac,
)
    requires
        pair_done(c, pair, anat, p, p2),
        c.apply && !p.run.s.dry_run,
        p2.run.failures.len() == p.run.failures.len(),
        desired_set(
            p2.run.s.rules(),
            c.t.links,
            anat,
            c.fdb,
            p2.run.s.vf_answer(),
        ).contains(m),
    ensures
        dump_shows(c.fdb, anat.dev, m) || put_into(p.run.log, p2.run.log, anat.dev, m),
{
    let x = lemma_steps(c, pair, anat, p, p2);
    let owned = owned_in(x.sa.book.dir, pair.dev);
    let r = Run { s: x.sc, log: x.lb, failures: p.run.failures };
    let d = x.d;
    let shed = choose|shed: Seq<Mac>| #[trigger]
        pair_shed(c, anat, pair.dev, owned, x.sb, shed, d);
    assert(want_of(c, anat, pair.dev, owned, x.sb).contains(m));
    assert(!shed.to_set().contains(m));
    assert(d.want.contains(m));
    let (r1, a, r2, y) = choose|r1: Run, a: Added, r2: Run, y: Dropped|
        {
            &&& #[trigger] pair_registered(c, anat, pair.dev, owned, d.want, r, r1, a)
            &&& #[trigger] pair_retired(c, anat, pair.dev, a.owned, d.want, r1, r2, y)
            &&& pair_finished(
                c,
                pair,
                anat,
                owned,
                x.sa.book.readable(pair.dev),
                d,
                a,
                y,
                r2,
                p.reports,
                p2,
            )
        };
    lemma_registered_fully(c, anat, pair.dev, owned, d.want, r, r1, a);
    lemma_retired_fully(c, anat, pair.dev, a.owned, d.want, r1, r2, y);
    lemma_dump_shows(c.fdb, anat.dev, m);
    if !dump_shows(c.fdb, anat.dev, m) {
        lemma_pair_puts(c, anat, pair.dev, owned, d.want, r, r1, a, m);
        lemma_written_logs(c, pair, anat, owned, x.sa.book.readable(pair.dev), d, r, r1, a, r2, y, p.reports, p2);
        let k = choose|k: int|
            r.log.len() <= k < r1.log.len() && ((#[trigger] r1.log[k]) matches Op::Card {
                ifindex,
                mac,
                add: true,
                refused,
            } && ifindex == anat.dev && mac == m && verdict_of(true, refused) != Verdict::Failed);
        assert(p2.run.log.take(r1.log.len() as int)[k] == r1.log[k]);
        assert(p2.run.log[k] == r1.log[k]);
        assert(p.run.log.len() <= x.la.len() <= x.lb.len());
    }
}

proof fn lemma_written_logs(
    c: Pass,
    pair: PairModel,
    anat: AnatomyModel,
    owned: Set<Mac>,
    readable: bool,
    d: Decision,
    r: Run,
    r1: Run,
    a: Added,
    r2: Run,
    y: Dropped,
    reports: Seq<Report>,
    p2: Progress,
)
    requires
        pair_registered(c, anat, pair.dev, owned, d.want, r, r1, a),
        pair_retired(c, anat, pair.dev, a.owned, d.want, r1, r2, y),
        pair_finished(c, pair, anat, owned, readable, d, a, y, r2, reports, p2),
    ensures
        grew(r.log, r1.log),
        grew(r1.log, r2.log),
        grew(r2.log, p2.run.log),
        grew(r1.log, p2.run.log),
{
    crate::sync::report_laws::lemma_pair_registered(c, anat, pair.dev, owned, d.want, r, r1, a);
    crate::sync::report_laws::lemma_pair_retired(c, anat, pair.dev, a.owned, d.want, r1, r2, y);
    let s3 = choose|s3: SyncerModel|
        {
            &&& #[trigger] pair_remembered(
                c,
                anat,
                pair.dev,
                owned,
                y.owned,
                readable,
                r2.s,
                r2.log,
                s3,
                p2.run.log,
            )
            &&& p2.run.s == pair_carried(c, anat, pair.dev, d, a.landed, y.gone, readable, s3)
        };
    lemma_filework_remembered(
        c,
        anat,
        pair.dev,
        owned,
        y.owned,
        readable,
        r2.s,
        r2.log,
        s3,
        p2.run.log,
    );
    lemma_grew_trans(r1.log, r2.log, p2.run.log);
}

proof fn lemma_answer_never_named(
    pfs: Seq<u32>,
    s: SyncerModel,
    log: Seq<Op>,
    a: SyncerModel,
    la: Seq<Op>,
    b: SyncerModel,
    lb: Seq<Op>,
    log2: Seq<Op>,
    functions: Set<u32>,
    m: Mac,
)
    requires
        never_named(s, log, log2, functions, m),
        grew(log, la),
        grew(la, lb),
        grew(lb, log2),
        a.carried_vf matches Some((fs, v)) && {
            ||| !s.vf_stale && s.carried_vf == Some((fs, v))
            ||| log.len() + 1 < la.len() && la[log.len() as int + 1] == (Op::VfMacs {
                functions: fs,
                answer: Ok(v),
            })
        },
        same_answer_or_newer(pfs, a, la, b, lb),
    ensures
        !driver_names(b.vf_answer(), functions, m),
{
    lemma_grew_trans(la, lb, log2);
    if b.carried_vf == a.carried_vf {
        if log.len() + 1 < la.len() {
            assert(log2.take(la.len() as int)[log.len() as int + 1] == la[log.len() as int + 1]);
            assert(log2[log.len() as int + 1] == la[log.len() as int + 1]);
        }
    } else {
        let k = choose|k: int|
            la.len() <= k < lb.len() && ((#[trigger] lb[k]) matches Op::VfMacs {
                functions: fs,
                answer: Ok(v),
            } && fs == pfs && b.carried_vf == Some((pfs, v)));
        assert(log2.take(lb.len() as int)[k] == lb[k]);
        assert(log2[k] == lb[k]);
    }
}

/// A pass without failures serves every pair, however many share a bridge:
/// whatever belongs in the filter of a pair's uplink - learnt behind its bridge,
/// an interface's own at or above the bridge, or pinned, and neither kept out
/// nor on the wire - is in that uplink's card by the dump, or is put there in
/// this pass.
pub proof fn every_pair_is_served(
    t: TopologyModel,
    s: SyncerModel,
    log: Seq<Op>,
    s2: SyncerModel,
    log2: Seq<Op>,
    reports: Seq<Report>,
    fdb: Seq<FdbEntry>,
    i: int,
    anat: AnatomyModel,
    m: Mac,
)
    requires
        t.links.dom().finite(),
        reconciled(t, true, s, log, s2, log2, Ok(reports)),
        !s.dry_run,
        s2.timings.failures.len() == 0,
        log2[log.len() as int] == (Op::DumpFdb { table: Ok(fdb) }),
        0 <= i < s.pairs.len(),
        place_of(t, s.pairs[i]) == Some(anat),
        belongs(s.rules(), t.links, anat, fdb, Seq::empty(), m),
        never_named(s, log, log2, anat.functions, m),
    ensures
        dump_shows(fdb, anat.dev, m) || put_into(log, log2, anat.dev, m),
{
    let (c, ps) = lemma_opened(t, true, s, log, s2, log2, reports);
    let n = s.pairs.len() as int;
    assert(c.fdb == fdb);
    assert(ps.last() == ps[n]);
    lemma_all_steps(c, s.pairs, ps, 0, i);
    lemma_all_steps(c, s.pairs, ps, i, i + 1);
    lemma_all_steps(c, s.pairs, ps, 0, i + 1);
    lemma_all_steps(c, s.pairs, ps, i + 1, n);
    let (p, p2) = (ps[i], ps[i + 1]);
    assert(pair_passed(c, s.pairs[i], p, p2));
    lemma_answer_never_named(
        c.pfs,
        s,
        log,
        ps[0].run.s,
        ps[0].run.log,
        p2.run.s,
        p2.run.log,
        log2,
        anat.functions,
        m,
    );
    the_first_bridge_over_the_masters(t.links, anat.dev, anat.bridge, anat.port);
    assert(p2.run.s.rules() == s.rules());
    assert(belongs(s.rules(), t.links, anat, fdb, p2.run.s.vf_answer(), m));
    what_belongs_is_desired(s.rules(), t.links, anat, fdb, p2.run.s.vf_answer(), m);
    lemma_pair_serves(c, s.pairs[i], anat, p, p2, m);
    if put_into(p.run.log, p2.run.log, anat.dev, m) {
        lemma_grew_trans(log, ps[0].run.log, p.run.log);
        let k = choose|k: int|
            p.run.log.len() <= k < p2.run.log.len() && ((#[trigger] p2.run.log[k])
                matches Op::Card { ifindex, mac, add: true, refused } && ifindex == anat.dev
                && mac == m && verdict_of(true, refused) != Verdict::Failed);
        assert(log2.take(p2.run.log.len() as int)[k] == p2.run.log[k]);
        assert(log2[k] == p2.run.log[k]);
    }
}

/// Whether a device's note has just been looked at: the file was found as it was
/// last read, or it was read afresh.
pub open spec fn just_seen(log: Seq<Op>, k: int, dev: Seq<char>) -> bool {
    ||| 0 < k <= log.len() && (log[k - 1] matches Op::Stat { name, .. } && name == note_name(dev))
    ||| 3 <= k <= log.len() && (log[k - 3] matches Op::Read { name, .. } && name == note_name(dev))
}

/// Whether an address has no business in an uplink's filter whatever speaks for
/// it: it cannot stand there, it is out on the wire, the operator or the uplink's
/// own side keeps it out, or the driver gives it for a virtual function.
pub open spec fn unfit(
    exclude: Set<Mac>,
    links: Map<u32, LinkModel>,
    anat: AnatomyModel,
    fdb: Seq<FdbEntry>,
    vf: Seq<(u32, Mac)>,
    m: Mac,
) -> bool {
    ||| !can_stand(m)
    ||| learnt_on_wire(fdb, anat.port, m)
    ||| kept_out(exclude, links, anat, vf, m)
}

proof fn lemma_pair_retires(
    c: Pass,
    anat: AnatomyModel,
    dev: Seq<char>,
    owned: Set<Mac>,
    want: Set<Mac>,
    r: Run,
    r2: Run,
    x: Dropped,
    m: Mac,
)
    requires
        pair_retired(c, anat, dev, owned, want, r, r2, x),
        c.apply && !r.s.dry_run,
        owned.contains(m),
        !want.contains(m),
    ensures
        asked_out(r.log, r2.log, anat.dev, m),
{
    let stale = choose|stale: Seq<Mac>|
        {
            &&& #[trigger] lists(stale, owned.difference(want))
            &&& if stale.len() == 0 {
                &&& r2 == r
                &&& x == (Dropped { count: stale.len(), owned, gone: Set::empty() })
            } else {
                stale_taken_out(anat, dev, owned, stale, r, r2, x)
            }
        };
    assert(stale.to_set().contains(m));
    assert(stale.contains(m));
    let q = choose|q: int| 0 <= q < stale.len() && stale[q] == m;
    let o = choose|o: OutcomeModel| #[trigger]
        taken_out(
            r.s.book,
            r.log,
            dev,
            anat.dev,
            stale,
            r2.s.book,
            r2.log,
            o,
            Why::Stale,
        );
    let k = lemma_taken_out_asks(
        r.s.book,
        r.log,
        dev,
        anat.dev,
        stale,
        r2.s.book,
        r2.log,
        o,
        q,
        Why::Stale,
    );
    assert(r2.log[k] is Card);
}

/// A pass over a pair takes out what has no business in its filter: it looks at
/// the note, and asks the card to let go of everything the note names that is
/// unfit by the table and by the answer it goes by.
pub proof fn what_is_unfit_is_taken_out(
    c: Pass,
    pair: PairModel,
    anat: AnatomyModel,
    p: Progress,
    p2: Progress,
)
    requires
        c.t.links.dom().finite(),
        pair_passed(c, pair, p, p2),
        place_of(c.t, pair) == Some(anat),
        c.apply && !p.run.s.dry_run,
    ensures
        exists|k: int|
            p.run.log.len() < k <= p2.run.log.len() && #[trigger] just_seen(
                p2.run.log,
                k,
                pair.dev,
            ) && forall|m: Mac| #[trigger]
                owned_in(
                    replay(p.run.s.book.dir, since(p.run.log, p2.run.log.take(k))),
                    pair.dev,
                ).contains(m) && unfit(
                    p.run.s.exclude,
                    c.t.links,
                    anat,
                    c.fdb,
                    p2.run.s.vf_answer(),
                    m,
                ) ==> asked_out(p2.run.log.take(k), p2.run.log, anat.dev, m),
{
    the_first_bridge_over_the_masters(c.t.links, anat.dev, anat.bridge, anat.port);
    let x = lemma_steps(c, pair, anat, p, p2);
    let owned = owned_in(x.sa.book.dir, pair.dev);
    lemma_grew_trans(x.la, x.lb, p2.run.log);
    let k = x.la.len() as int;
    assert(p2.run.log.take(k) == x.la);
    lemma_note_seen(c, pair.dev, p.run.s, p.run.log, x.sa, x.la);
    assert(just_seen(p2.run.log, k, pair.dev)) by {
        assert(x.la[k - 1] == p2.run.log[k - 1]);
        if k >= 3 {
            assert(x.la[k - 3] == p2.run.log[k - 3]);
        }
    }
    assert(x.sb.vf_answer() == p2.run.s.vf_answer());
    assert(x.sb.exclude == p.run.s.exclude);
    assert forall|m: Mac| #[trigger] owned.contains(m) && unfit(
        p.run.s.exclude,
        c.t.links,
        anat,
        c.fdb,
        p2.run.s.vf_answer(),
        m,
    ) implies asked_out(x.la, p2.run.log, anat.dev, m) by {
        lemma_unfit_unwanted(c, anat, pair.dev, owned, x.sb, x.sc, x.d, m);
        lemma_unwanted_retires(
            c,
            pair,
            anat,
            owned,
            x.sa.book.readable(pair.dev),
            x.d,
            Run { s: x.sc, log: x.lb, failures: p.run.failures },
            p.reports,
            p2,
            m,
        );
        let j = choose|j: int|
            x.lb.len() <= j < p2.run.log.len() && ((#[trigger] p2.run.log[j]) matches Op::Card {
                ifindex,
                mac,
                add: false,
                ..
            } && ifindex == anat.dev && mac == m);
        assert(x.la.len() <= j);
    }
}

proof fn lemma_unfit_unwanted(
    c: Pass,
    anat: AnatomyModel,
    dev: Seq<char>,
    owned: Set<Mac>,
    s: SyncerModel,
    s2: SyncerModel,
    d: Decision,
    m: Mac,
)
    requires
        c.t.links.contains_key(anat.bridge),
        pair_decided(c, anat, dev, owned, s, s2, d),
        unfit(s.exclude, c.t.links, anat, c.fdb, s.vf_answer(), m),
    ensures
        !d.want.contains(m),
        s2.dry_run == s.dry_run,
{
    lemma_stands(m);
    the_wire_is_the_uplinks_port(c.t.links, anat, c.fdb, m);
    only_the_uplinks_own_side_is_kept_out(s.exclude, c.t.links, anat, s.vf_answer(), m);
    assert(!want_of(c, anat, dev, owned, s).contains(m));
}

proof fn lemma_unwanted_retires(
    c: Pass,
    pair: PairModel,
    anat: AnatomyModel,
    owned: Set<Mac>,
    readable: bool,
    d: Decision,
    r: Run,
    reports: Seq<Report>,
    p2: Progress,
    m: Mac,
)
    requires
        pair_written(c, pair, anat, owned, readable, d, r, reports, p2),
        c.apply && !r.s.dry_run,
        owned.contains(m),
        !d.want.contains(m),
    ensures
        asked_out(r.log, p2.run.log, anat.dev, m),
{
    let (r1, a, r2, y) = choose|r1: Run, a: Added, r2: Run, y: Dropped|
        {
            &&& #[trigger] pair_registered(c, anat, pair.dev, owned, d.want, r, r1, a)
            &&& #[trigger] pair_retired(c, anat, pair.dev, a.owned, d.want, r1, r2, y)
            &&& pair_finished(c, pair, anat, owned, readable, d, a, y, r2, reports, p2)
        };
    lemma_registered_fully(c, anat, pair.dev, owned, d.want, r, r1, a);
    lemma_written_logs(c, pair, anat, owned, readable, d, r, r1, a, r2, y, reports, p2);
    lemma_pair_retires(c, anat, pair.dev, a.owned, d.want, r1, r2, y, m);
    let j = choose|j: int|
        r1.log.len() <= j < r2.log.len() && ((#[trigger] r2.log[j]) matches Op::Card {
            ifindex,
            mac,
            add: false,
            ..
        } && ifindex == anat.dev && mac == m);
    assert(p2.run.log.take(r2.log.len() as int)[j] == r2.log[j]);
    assert(p2.run.log[j] == r2.log[j]);
}

proof fn lemma_note_seen(
    c: Pass,
    dev: Seq<char>,
    s: SyncerModel,
    log: Seq<Op>,
    s2: SyncerModel,
    log2: Seq<Op>,
)
    requires
        pair_read(c.t, c.apply, dev, s, log, s2, log2),
    ensures
        log.len() < log2.len(),
        just_seen(log2, log2.len() as int, dev),
        s2.book.dir == replay(s.book.dir, since(log, log2)),
{
    let (b1, l1) = choose|b1: BookModel, l1: Seq<Op>|
        {
            &&& #[trigger] memory_loaded(s.memory, s.book, log, c.t, dev, s2.memory, b1, l1)
            &&& #[trigger] note_looked(
                took_over_said(b1, c.apply, dev, s, s2.memory),
                l1,
                dev,
                s2.book,
                log2,
            )
            &&& s2 == (SyncerModel { memory: s2.memory, book: s2.book, ..s })
        };
    let bs = took_over_said(b1, c.apply, dev, s, s2.memory);
    lemma_filework_loaded(s.memory, s.book, log, c.t, dev, s2.memory, b1, l1);
    lemma_filework_looked(bs, l1, dev, s2.book, log2);
    lemma_filework_trans(s.book.dir, log, bs.dir, l1, s2.book.dir, log2);
    let ops = since(l1, log2);
    assert(log2[l1.len() as int] == ops[0]);
    if ops.len() == 5 {
        assert(log2[l1.len() as int + 2] == ops[2]);
    }
}

/// Where a pair stands: its device and its bridge are there under their names,
/// and the device's masters lead to that very bridge. The port is where they do,
/// however many interfaces are between.
pub proof fn a_pair_stands_where_its_masters_lead(t: TopologyModel, pair: PairModel)
    requires
        t.links.dom().finite(),
    ensures
        place_of(t, pair) is Some <==> {
            &&& t.names.contains_key(pair.dev)
            &&& t.names.contains_key(pair.bridge)
            &&& t.links.contains_key(t.names[pair.bridge])
            &&& t.links[t.names[pair.bridge]].is_bridge
            &&& exists|p: Seq<u32>| #[trigger]
                leads_to_masters(t.links, p) && p[0] == t.names[pair.dev] && t.links.contains_key(
                    p.last(),
                ) && t.links[p.last()].master == Some(t.names[pair.bridge])
        },
        place_of(t, pair) matches Some(anat) ==> {
            &&& anat.dev == t.names[pair.dev]
            &&& anat.bridge == t.names[pair.bridge]
            &&& t.links.contains_key(anat.port)
            &&& t.links[anat.port].master == Some(anat.bridge)
            &&& exists|p: Seq<u32>| #[trigger]
                leads_to_masters(t.links, p) && p[0] == anat.dev && p.last() == anat.port
            &&& anat.card == carrier(t.links, anat.dev)
            &&& anat.functions == functions_of(t.links, anat.card)
        },
{
    if t.names.contains_key(pair.dev) && t.names.contains_key(pair.bridge) {
        an_uplink_stands_under_its_own_bridge(t.links, t.names[pair.dev], t.names[pair.bridge]);
        if let Some(anat) = place_of(t, pair) {
            the_first_bridge_over_the_masters(t.links, anat.dev, anat.bridge, anat.port);
        }
    }
}

pub(crate) proof fn lemma_written_wires(
    c: Pass,
    pair: PairModel,
    anat: AnatomyModel,
    owned: Set<Mac>,
    readable: bool,
    d: Decision,
    r: Run,
    reports: Seq<Report>,
    p2: Progress,
)
    requires
        pair_written(c, pair, anat, owned, readable, d, r, reports, p2),
    ensures
        p2.run.s.carried_wire == r.s.carried_wire,
{
    let (r1, a, r2, x) = choose|r1: Run, a: Added, r2: Run, x: Dropped|
        {
            &&& #[trigger] pair_registered(c, anat, pair.dev, owned, d.want, r, r1, a)
            &&& #[trigger] pair_retired(c, anat, pair.dev, a.owned, d.want, r1, r2, x)
            &&& pair_finished(c, pair, anat, owned, readable, d, a, x, r2, reports, p2)
        };
    assert(r1.s.carried_wire == r.s.carried_wire);
    assert(r2.s.carried_wire == r1.s.carried_wire);
    let s3 = choose|s3: SyncerModel|
        {
            &&& #[trigger] pair_remembered(
                c,
                anat,
                pair.dev,
                owned,
                x.owned,
                readable,
                r2.s,
                r2.log,
                s3,
                p2.run.log,
            )
            &&& p2.run.s == pair_carried(c, anat, pair.dev, d, a.landed, x.gone, readable, s3)
        };
    assert(s3.carried_wire == r2.s.carried_wire);
}

/// What is asked between the lock and its release only adds to the log.
pub(crate) proof fn lemma_noted_grew(
    b: BookModel,
    log: Seq<Op>,
    dev: Seq<char>,
    index: u32,
    macs: Seq<Mac>,
    b2: BookModel,
    log2: Seq<Op>,
    r: Option<RegisteredModel>,
)
    requires
        batch_noted(b, log, dev, index, macs, b2, log2, r),
    ensures
        grew(log, log2),
{
    let (b1, l1, fresh) = choose|b1: BookModel, l1: Seq<Op>, fresh: Option<Seq<Mac>>|
        {
            &&& #[trigger] note_extended(b, log, dev, macs, b1, l1, fresh)
            &&& match (fresh, r) {
                (None, None) => b2 == b1.saying(unnoted_text(dev, macs.len())) && log2 == l1,
                (Some(f), Some(reg)) => batch_settled(
                    b1,
                    l1,
                    dev,
                    index,
                    macs,
                    f,
                    b2,
                    log2,
                    reg,
                ),
                _ => false,
            }
        };
    lemma_filework_extended(b, log, dev, macs, b1, l1, fresh);
    if let (Some(f), Some(x)) = (fresh, r) {
        let l2 = choose|l2: Seq<Op>| #[trigger]
            batch_answered(b1, l1, l2, dev, index, macs, f, b2, log2, x);
        let row = since(l1, l2);
        let theirs = unclaimed(row, f);
        lemma_grew_same(l2);
        if theirs.len() > 0 {
            let bs = refused_said(b1, dev, row);
            let (ok, b3) = choose|ok: bool, b3: BookModel| #[trigger]
                note_reduced(bs, l2, dev, theirs.to_set(), b3, log2, ok) && b2 == reduced_said(
                    b3,
                    dev,
                    theirs.len(),
                    ok,
                );
            lemma_filework_reduced(bs, l2, dev, theirs.to_set(), b3, log2, ok);
        }
        lemma_grew_trans(l1, l2, log2);
        lemma_grew_trans(log, l1, log2);
    }
}

pub(crate) proof fn lemma_batch_grew(
    b: BookModel,
    log: Seq<Op>,
    dev: Seq<char>,
    index: u32,
    macs: Seq<Mac>,
    b2: BookModel,
    log2: Seq<Op>,
    r: Option<RegisteredModel>,
)
    requires
        batch_registered(b, log, dev, index, macs, b2, log2, r),
    ensures
        grew(log, log2),
{
    let (bl, ll, l2) = choose|bl: BookModel, ll: Seq<Op>, l2: Seq<Op>|
        {
            &&& #[trigger] lock_asked(b, log, dev, bl, ll)
            &&& #[trigger] batch_noted(bl, ll, dev, index, macs, b2, l2, r)
            &&& log2 == l2.push(Op::Unlock { dev })
        };
    lemma_noted_grew(bl, ll, dev, index, macs, b2, l2, r);
    lemma_grew_same(log);
    lemma_grew_push(log, log, ll.last());
    lemma_grew_trans(log, ll, l2);
    lemma_grew_push(log, l2, Op::Unlock { dev });
}

/// Whether an address is still remembered for an uplink behind a port that hangs
/// under its bridge.
pub open spec fn still_hangs_on(
    links: Map<u32, LinkModel>,
    anat: AnatomyModel,
    mem: MemoryModel,
    dev: Seq<char>,
    m: Mac,
) -> bool {
    mem.carried.contains_key(dev) && mem.carried[dev].contains_key(m) && hangs_on(
        links,
        anat,
        mem.carried[dev][m].0,
    )
}

/// A pass over a pair takes out what nothing speaks for any more: it looks at the
/// note, and asks the card to let go of everything the note names that neither
/// belongs in the filter nor is remembered behind a port that still hangs under
/// the bridge. The memory is what it was, once that of the previous process has
/// been taken over.
pub proof fn what_nothing_speaks_for_is_taken_out(
    c: Pass,
    pair: PairModel,
    anat: AnatomyModel,
    p: Progress,
    p2: Progress,
)
    requires
        c.t.links.dom().finite(),
        pair_passed(c, pair, p, p2),
        place_of(c.t, pair) == Some(anat),
        c.apply && !p.run.s.dry_run,
        p.run.s.memory.loaded.contains(pair.dev),
    ensures
        exists|k: int|
            p.run.log.len() < k <= p2.run.log.len() && #[trigger] just_seen(
                p2.run.log,
                k,
                pair.dev,
            ) && forall|m: Mac| #[trigger]
                owned_in(
                    replay(p.run.s.book.dir, since(p.run.log, p2.run.log.take(k))),
                    pair.dev,
                ).contains(m) && !belongs(
                    p.run.s.rules(),
                    c.t.links,
                    anat,
                    c.fdb,
                    p2.run.s.vf_answer(),
                    m,
                ) && !still_hangs_on(c.t.links, anat, p.run.s.memory, pair.dev, m) ==> asked_out(
                    p2.run.log.take(k),
                    p2.run.log,
                    anat.dev,
                    m,
                ),
{
    the_first_bridge_over_the_masters(c.t.links, anat.dev, anat.bridge, anat.port);
    let x = lemma_steps(c, pair, anat, p, p2);
    let owned = owned_in(x.sa.book.dir, pair.dev);
    lemma_grew_trans(x.la, x.lb, p2.run.log);
    let k = x.la.len() as int;
    assert(p2.run.log.take(k) == x.la);
    lemma_note_seen(c, pair.dev, p.run.s, p.run.log, x.sa, x.la);
    assert(just_seen(p2.run.log, k, pair.dev)) by {
        assert(x.la[k - 1] == p2.run.log[k - 1]);
        if k >= 3 {
            assert(x.la[k - 3] == p2.run.log[k - 3]);
        }
    }
    assert(x.sb.vf_answer() == p2.run.s.vf_answer());
    assert(x.sb.rules() == p.run.s.rules());
    assert(x.sb.memory == x.sa.memory);
    assert(x.sa.memory == p.run.s.memory);
    assert forall|m: Mac| #[trigger] owned.contains(m) && !belongs(
        p.run.s.rules(),
        c.t.links,
        anat,
        c.fdb,
        p2.run.s.vf_answer(),
        m,
    ) && !still_hangs_on(c.t.links, anat, p.run.s.memory, pair.dev, m) implies asked_out(
        x.la,
        p2.run.log,
        anat.dev,
        m,
    ) by {
        lemma_unspoken_unwanted(c, anat, pair.dev, owned, x.sb, x.sc, x.d, m);
        lemma_unwanted_retires(
            c,
            pair,
            anat,
            owned,
            x.sa.book.readable(pair.dev),
            x.d,
            Run { s: x.sc, log: x.lb, failures: p.run.failures },
            p.reports,
            p2,
            m,
        );
        let j = choose|j: int|
            x.lb.len() <= j < p2.run.log.len() && ((#[trigger] p2.run.log[j]) matches Op::Card {
                ifindex,
                mac,
                add: false,
                ..
            } && ifindex == anat.dev && mac == m);
        assert(x.la.len() <= j);
    }
}

proof fn lemma_unspoken_unwanted(
    c: Pass,
    anat: AnatomyModel,
    dev: Seq<char>,
    owned: Set<Mac>,
    s: SyncerModel,
    s2: SyncerModel,
    d: Decision,
    m: Mac,
)
    requires
        c.t.links.contains_key(anat.bridge),
        pair_decided(c, anat, dev, owned, s, s2, d),
        !belongs(s.rules(), c.t.links, anat, c.fdb, s.vf_answer(), m),
        !still_hangs_on(c.t.links, anat, s.memory, dev, m),
    ensures
        !d.want.contains(m),
        s2.dry_run == s.dry_run,
{
    what_belongs_is_desired(s.rules(), c.t.links, anat, c.fdb, s.vf_answer(), m);
    if s.memory.carried.contains_key(dev) && s.memory.carried[dev].contains_key(m) {
        lemma_hangs_on(c.t.links, anat, s.memory.carried[dev][m].0);
    }
    assert(!want_of(c, anat, dev, owned, s).contains(m));
}

/// A pair that does not stand under its bridge is left alone: nothing is asked on
/// its account, and nothing is known differently afterwards but that it was said.
pub proof fn a_pair_out_of_place_is_left_alone(
    c: Pass,
    pair: PairModel,
    p: Progress,
    p2: Progress,
)
    requires
        pair_passed(c, pair, p, p2),
        place_of(c.t, pair) is None,
    ensures
        p2.run.log == p.run.log,
        p2.run.failures == p.run.failures,
        p2.reports == p.reports,
        p2.vf_carried == p.vf_carried,
        p2.run.s.memory == p.run.s.memory,
        p2.run.s.carried == p.run.s.carried,
        p2.run.s.carried_wire == p.run.s.carried_wire,
        p2.run.s.carried_vf == p.run.s.carried_vf,
        p2.run.s.book.dir == p.run.s.book.dir,
        p2.run.s.book.said == p.run.s.book.said,
        !c.t.names.contains_key(pair.dev) ==> p2.run.s.book.journal =~= p.run.s.book.journal,
        c.t.names.contains_key(pair.dev) ==> p2.run.s.book.journal.len()
            == p.run.s.book.journal.len() + 1,
{
}

/// What a batch put in and what the card holds of it was in the batch.
pub(crate) proof fn lemma_batch_within(
    b: BookModel,
    log: Seq<Op>,
    dev: Seq<char>,
    index: u32,
    macs: Seq<Mac>,
    b2: BookModel,
    log2: Seq<Op>,
    x: RegisteredModel,
)
    requires
        batch_registered(b, log, dev, index, macs, b2, log2, Some(x)),
    ensures
        forall|m: Mac| #[trigger] x.held.contains(m) ==> macs.contains(m),
        forall|m: Mac| #[trigger] x.put.contains(m) ==> macs.contains(m),
{
    let r = Some(x);
    let (bl, ll, l3) = choose|bl: BookModel, ll: Seq<Op>, l2: Seq<Op>|
        {
            &&& #[trigger] lock_asked(b, log, dev, bl, ll)
            &&& #[trigger] batch_noted(bl, ll, dev, index, macs, b2, l2, r)
            &&& log2 == l2.push(Op::Unlock { dev })
        };
    let (b1, l1, fresh) = choose|b1: BookModel, l1: Seq<Op>, fresh: Option<Seq<Mac>>|
        {
            &&& #[trigger] note_extended(bl, ll, dev, macs, b1, l1, fresh)
            &&& match (fresh, r) {
                (None, None) => b2 == b1.saying(unnoted_text(dev, macs.len())) && l3 == l1,
                (Some(f), Some(reg)) => batch_settled(
                    b1,
                    l1,
                    dev,
                    index,
                    macs,
                    f,
                    b2,
                    l3,
                    reg,
                ),
                _ => false,
            }
        };
    let f = fresh->0;
    let l2 = choose|l2: Seq<Op>| #[trigger]
        batch_answered(b1, l1, l2, dev, index, macs, f, b2, l3, x);
    lemma_answered(since(l1, l2), index, macs, true);
}

} // verus!
