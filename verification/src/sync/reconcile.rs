//! A full pass over every pair, against one fresh dump.

use vstd::prelude::*;

use crate::keyed::KeySet;
use crate::mac::Mac;
use crate::netlink::{Errno, FdbEntry, FdbWriter, Moment, Op, Recorded};
use crate::sync::card::{lemma_sound_start, Ground};
use crate::sync::decide::{behind_map, live_functions, live_pfs, names_stacked};
use crate::sync::files::lemma_grew_same;
use crate::sync::journal::{no_bridge_text, not_under_text, say_no_bridge, say_not_under};
use crate::sync::laws::lemma_table_reconciled;
use crate::sync::notes::owned_in;
use crate::sync::orphans::{orphans_dropped, orphans_only_take_out, Run};
use crate::sync::pass::{
    added_of, answer_settled, decision_of, dropped_of, own_entries, own_set, pair_carried,
    pair_decided, pair_read, pair_registered, pair_remembered, pair_retired, pass_of, place_of,
    report_is, Added, AddedHere, Decided, Decision, Dropped, DroppedHere, Given, Pass, Progress,
};
use crate::sync::syncer::{same_cost, Syncer, SyncerModel};
use crate::sync::timings::{
    elapsed, gap, lemma_measured_none, lemma_measured_trans, marks_grew, measured, no_findings,
    time_in, Findings, Timings,
};
use crate::sync::types::{pair_list, Pair, PairModel, Report};
use crate::topology::{copy_indices, Anatomy, AnatomyModel, Topology, TopologyModel};
use crate::topology::detect::texts;

verus! {

/// The last steps for a pair: note, memory, what is carried, and the report.
pub open spec fn pair_finished(
    c: Pass,
    pair: PairModel,
    anat: AnatomyModel,
    owned: Set<Mac>,
    readable: bool,
    d: Decision,
    a: Added,
    x: Dropped,
    r: Run,
    reports: Seq<Report>,
    p2: Progress,
) -> bool {
    &&& exists|s3: SyncerModel|
        {
            &&& #[trigger] pair_remembered(
                c,
                anat,
                pair.dev,
                owned,
                x.owned,
                readable,
                r.s,
                r.log,
                s3,
                p2.run.log,
            )
            &&& p2.run.s == pair_carried(c, anat, pair.dev, d, a.landed, x.gone, readable, s3)
        }
    &&& p2.run.failures == r.failures
    &&& p2.reports == reports.push(p2.reports.last())
    &&& report_is(c, pair, anat, owned, d, a, x, p2.run.s, p2.reports.last())
}

/// The steps for a pair that write.
pub open spec fn pair_written(
    c: Pass,
    pair: PairModel,
    anat: AnatomyModel,
    owned: Set<Mac>,
    readable: bool,
    d: Decision,
    r: Run,
    reports: Seq<Report>,
    p2: Progress,
) -> bool {
    exists|r1: Run, a: Added, r2: Run, x: Dropped|
        {
            &&& #[trigger] pair_registered(c, anat, pair.dev, owned, d.want, r, r1, a)
            &&& #[trigger] pair_retired(c, anat, pair.dev, a.owned, d.want, r1, r2, x)
            &&& pair_finished(c, pair, anat, owned, readable, d, a, x, r2, reports, p2)
        }
}

/// The steps for a pair once its note has been looked at.
pub open spec fn pair_worked(
    c: Pass,
    pair: PairModel,
    anat: AnatomyModel,
    owned: Set<Mac>,
    readable: bool,
    p: Progress,
    p2: Progress,
) -> bool {
    exists|sb: SyncerModel, lb: Seq<Op>, sc: SyncerModel, d: Decision|
        {
            &&& #[trigger] answer_settled(
                c,
                anat,
                pair.dev,
                owned,
                p.run.s,
                p.run.log,
                p.vf_carried,
                sb,
                lb,
                p2.vf_carried,
                None,
            )
            &&& #[trigger] pair_decided(c, anat, pair.dev, owned, sb, sc, d)
            &&& pair_written(
                c,
                pair,
                anat,
                owned,
                readable,
                d,
                Run { s: sc, log: lb, failures: p.run.failures },
                p.reports,
                p2,
            )
        }
}

/// What a pass does for a pair that stands where it should.
pub open spec fn pair_done(
    c: Pass,
    pair: PairModel,
    anat: AnatomyModel,
    p: Progress,
    p2: Progress,
) -> bool {
    exists|sa: SyncerModel, la: Seq<Op>| #[trigger]
        pair_read(c.t, c.apply, pair.dev, p.run.s, p.run.log, sa, la) && pair_worked(
            c,
            pair,
            anat,
            owned_in(sa.book.dir, pair.dev),
            sa.book.readable(pair.dev),
            Progress { run: Run { s: sa, log: la, failures: p.run.failures }, ..p },
            p2,
        )
}

/// What is said of a pair that is left alone: nothing where the device is gone,
/// its filter went with it.
pub open spec fn left_alone_lines(t: TopologyModel, pair: PairModel) -> Seq<Seq<char>> {
    if !t.names.contains_key(pair.dev) {
        Seq::empty()
    } else if !t.names.contains_key(pair.bridge) {
        seq![no_bridge_text(pair.dev, pair.bridge)]
    } else {
        seq![not_under_text(pair.dev, pair.bridge)]
    }
}

/// A pass that has left a pair alone.
pub open spec fn left_alone(t: TopologyModel, pair: PairModel, p: Progress) -> Progress {
    let s = p.run.s.saying_all(left_alone_lines(t, pair));
    Progress { run: Run { s, ..p.run }, ..p }
}

/// What a pass does for a pair. One whose device or bridge is not in this
/// picture, or whose device is not under its bridge, is left alone: working
/// from half a picture would only produce removals.
pub open spec fn pair_passed(c: Pass, pair: PairModel, p: Progress, p2: Progress) -> bool {
    match place_of(c.t, pair) {
        Some(anat) => pair_done(c, pair, anat, p, p2),
        None => p2 == left_alone(c.t, pair, p),
    }
}

/// A pass that ends at a pair because the driver does not answer.
pub open spec fn pair_stopped(
    c: Pass,
    pair: PairModel,
    p: Progress,
    s2: SyncerModel,
    log2: Seq<Op>,
    e: Errno,
) -> bool {
    place_of(c.t, pair) matches Some(anat) && exists|sa: SyncerModel, la: Seq<Op>| #[trigger]
        pair_read(c.t, c.apply, pair.dev, p.run.s, p.run.log, sa, la) && answer_settled(
            c,
            anat,
            pair.dev,
            owned_in(sa.book.dir, pair.dev),
            sa,
            la,
            p.vf_carried,
            s2,
            log2,
            p.vf_carried,
            Some(e),
        )
}

/// Whether these pairs were passed one after the other.
pub open spec fn pairs_passed(c: Pass, pairs: Seq<PairModel>, ps: Seq<Progress>) -> bool {
    &&& ps.len() == pairs.len() + 1
    &&& forall|i: int|
        #![trigger pairs[i]]
        0 <= i < pairs.len() ==> pair_passed(c, pairs[i], ps[i], ps[i + 1])
}

/// Passing all of these pairs led from one state to another.
pub open spec fn pairs_came_to(c: Pass, pairs: Seq<PairModel>, p: Progress, q: Progress) -> bool {
    exists|ps: Seq<Progress>| #[trigger]
        pairs_passed(c, pairs, ps) && ps[0] == p && ps.last() == q
}

/// Passing these pairs ended at one of them.
pub open spec fn pairs_stopped(
    c: Pass,
    pairs: Seq<PairModel>,
    p: Progress,
    s2: SyncerModel,
    log2: Seq<Op>,
    e: Errno,
) -> bool {
    exists|ps: Seq<Progress>, k: int|
        {
            &&& 0 <= k < pairs.len()
            &&& #[trigger] pairs_passed(c, pairs.take(k), ps)
            &&& ps[0] == p
            &&& pair_stopped(c, pairs[k], ps.last(), s2, log2, e)
        }
}

/// The devices of a list of pairs.
pub open spec fn pair_devs(pairs: Seq<PairModel>) -> Seq<Seq<char>> {
    pairs.map_values(|p: PairModel| p.dev)
}

/// The driver's answer to go by at the start: the carried one where it may be
/// used, otherwise a fresh one. Never an empty one in place of a failure.
pub open spec fn answer_first(
    s: SyncerModel,
    log: Seq<Op>,
    pfs: Seq<u32>,
    s2: SyncerModel,
    log2: Seq<Op>,
    failed: Option<Errno>,
) -> bool {
    if s.vf_usable(pfs) {
        s2 == s && log2 == log && failed is None
    } else {
        &&& log2 == log.push(log2.last())
        &&& log2.last() matches Op::VfMacs { functions, answer } && functions == pfs
            && match answer {
            Ok(v) => s2 == s.with_answer(pfs, v) && failed is None,
            Err(e) => s2 == s && failed == Some(e),
        }
    }
}

/// The stamp of a pass: the clock's, but always past the previous one's.
pub open spec fn stamp_after(last: u64, now: u64) -> u64 {
    if now > last {
        now
    } else if last < u64::MAX {
        (last + 1) as u64
    } else {
        u64::MAX
    }
}

/// The stamp of a pass: the clock's, but always past the previous one's.
pub fn next_stamp(last: u64, now: u64) -> (r: u64)
    ensures
        r == stamp_after(last, now),
{
    if now > last {
        now
    } else if last < u64::MAX {
        last + 1
    } else {
        u64::MAX
    }
}

/// How many addresses these reports say were put in, as far as a machine can
/// count.
pub open spec fn added_total(reports: Seq<Report>) -> nat
    decreases reports.len(),
{
    if reports.len() == 0 {
        0
    } else {
        added_total(reports.drop_last()) + reports.last().added as nat
    }
}

/// How many addresses these reports say were taken out.
pub open spec fn removed_total(reports: Seq<Report>) -> nat
    decreases reports.len(),
{
    if reports.len() == 0 {
        0
    } else {
        removed_total(reports.drop_last()) + reports.last().removed as nat
    }
}

/// A count, as far as a machine can count.
pub open spec fn counted(n: nat) -> usize {
    if n <= usize::MAX {
        n as usize
    } else {
        usize::MAX
    }
}

/// What a whole pass is remembered by.
pub open spec fn pass_findings(c: Pass, p: Progress) -> Findings {
    Findings {
        links: counted(c.t.links.dom().len()),
        fdb_entries: counted(c.fdb.len()),
        vf_addresses: counted(p.run.s.vf_answer().len()),
        vf_carried: p.vf_carried,
        added: counted(added_total(p.reports)),
        removed: counted(removed_total(p.reports)),
        failures: p.run.failures,
    }
}

/// What a pass comes to once the orphans have been settled.
pub open spec fn pairs_reconciled(
    c: Pass,
    pairs: Seq<PairModel>,
    p: Progress,
    s2: SyncerModel,
    log2: Seq<Op>,
    r: Result<Seq<Report>, Errno>,
) -> bool {
    exists|ps: Seq<Progress>, k: int|
        {
            &&& 0 <= k <= pairs.len()
            &&& #[trigger] pairs_passed(c, pairs.take(k), ps)
            &&& ps[0] == p
            &&& match r {
                Ok(reports) => {
                    &&& k == pairs.len()
                    &&& reports == ps.last().reports
                    &&& s2 == (SyncerModel {
                        timings: pass_findings(c, ps.last()),
                        ..ps.last().run.s
                    })
                    &&& log2 == ps.last().run.log
                },
                Err(e) => k < pairs.len() && pair_stopped(c, pairs[k], ps.last(), s2, log2, e),
            }
        }
}

/// What a pass cost after the orphans, by the readings from the `n`th on: all
/// pairs from the first of them to the last but one, the whole from `started` to
/// the last, and the questions to the driver by the couples in between.
pub open spec fn pairs_cost(
    t: Timings,
    g: Timings,
    started: u64,
    asking: u64,
    ms: Seq<Moment>,
    n: int,
) -> bool {
    &&& n + 3 <= ms.len()
    &&& t.topology == g.topology
    &&& t.fdb == g.fdb
    &&& t.vf_macs == g.vf_macs.saturating_add(
        time_in(ms.subrange(n + 1, ms.len() - 2), asking),
    )
    &&& t.orphans == g.orphans
    &&& t.pairs == gap(ms[n].nanos, ms[ms.len() - 2].nanos)
    &&& t.total == g.topology.saturating_add(gap(started, ms.last().nanos))
}

/// What a pass cost once the driver had answered: the orphans by two readings,
/// and then the pairs.
pub open spec fn made_cost(t: Timings, g: Timings, started: u64, ms: Seq<Moment>, n: int) -> bool {
    pairs_cost(
        t,
        Timings { orphans: gap(ms[n].nanos, ms[n + 1].nanos), ..g },
        started,
        0,
        ms,
        n + 2,
    )
}

/// What a pass cost once the forwarding table had been read: the first question
/// to the driver by two readings, where it was asked, and then the rest.
pub open spec fn table_cost(
    t: Timings,
    g: Timings,
    started: u64,
    carried: bool,
    ms: Seq<Moment>,
    n: int,
) -> bool {
    made_cost(
        t,
        Timings {
            vf_macs: if carried {
                0
            } else {
                gap(ms[n].nanos, ms[n + 1].nanos)
            },
            ..g
        },
        started,
        ms,
        n + 2,
    )
}

/// What a pass cost, phase by phase, by the readings of the clocks from the `n`th
/// on; `carried` is whether the driver's answer was carried over at the start.
/// Reading the host comes in from outside and counts into the whole.
pub open spec fn pass_cost(
    t: Timings,
    topo_load: u64,
    carried: bool,
    ms: Seq<Moment>,
    n: int,
) -> bool {
    &&& n + 10 <= ms.len()
    &&& t.topology == topo_load
    &&& t.fdb == gap(ms[n + 1].nanos, ms[n + 2].nanos)
    &&& t.vf_macs == (if carried {
        0
    } else {
        gap(ms[n + 3].nanos, ms[n + 4].nanos)
    }).saturating_add(time_in(ms.subrange(n + 8, ms.len() - 2), 0))
    &&& t.orphans == gap(ms[n + 5].nanos, ms[n + 6].nanos)
    &&& t.pairs == gap(ms[n + 7].nanos, ms[ms.len() - 2].nanos)
    &&& t.total == topo_load.saturating_add(gap(ms[n].nanos, ms.last().nanos))
}

/// What a pass without pairs cost: nothing but the whole.
pub open spec fn empty_cost(t: Timings, topo_load: u64, ms: Seq<Moment>, n: int) -> bool {
    &&& ms.len() == n + 2
    &&& t.topology == topo_load
    &&& t.fdb == 0 && t.vf_macs == 0 && t.orphans == 0 && t.pairs == 0
    &&& t.total == topo_load.saturating_add(gap(ms[n].nanos, ms[n + 1].nanos))
}

/// What a pass comes to once the forwarding table has been read and the driver
/// has answered.
pub open spec fn pass_made(
    t: TopologyModel,
    apply: bool,
    fdb: Seq<FdbEntry>,
    pfs: Seq<u32>,
    carried: bool,
    s: SyncerModel,
    log: Seq<Op>,
    s2: SyncerModel,
    log2: Seq<Op>,
    r: Result<Seq<Report>, Errno>,
) -> bool {
    exists|now: Moment, r1: Run|
        {
            &&& #[trigger] orphans_dropped(
                t,
                apply,
                pass_start(s, log.push(Op::Clock { reading: now }), at_after(s, now)),
                r1,
            )
            &&& pairs_reconciled(
                Pass { t, fdb, pfs, pass_at: at_after(s, now), apply },
                s.pairs,
                Progress { run: r1, vf_carried: carried, reports: Seq::empty() },
                s2,
                log2,
                r,
            )
        }
}

/// The stamp of a pass that reads the clocks now.
pub open spec fn at_after(s: SyncerModel, now: Moment) -> u64 {
    stamp_after(s.last_pass_at, now.boot_millis)
}

/// The first moment of a pass: it has a stamp, and nothing has gone wrong.
pub open spec fn pass_start(s: SyncerModel, log: Seq<Op>, pass_at: u64) -> Run {
    Run { s: SyncerModel { last_pass_at: pass_at, ..s }, log, failures: Seq::empty() }
}

/// What a pass comes to once the forwarding table has been read.
pub open spec fn table_reconciled(
    t: TopologyModel,
    apply: bool,
    fdb: Seq<FdbEntry>,
    pfs: Seq<u32>,
    s: SyncerModel,
    log: Seq<Op>,
    s2: SyncerModel,
    log2: Seq<Op>,
    r: Result<Seq<Report>, Errno>,
) -> bool {
    exists|s1: SyncerModel, l1: Seq<Op>, failed: Option<Errno>|
        {
            &&& #[trigger] answer_first(s, log, pfs, s1, l1, failed)
            &&& match failed {
                None => pass_made(t, apply, fdb, pfs, s.vf_usable(pfs), s1, l1, s2, log2, r),
                Some(e) => r == Err::<Seq<Report>, Errno>(e) && s2 == s1 && log2 == l1,
            }
        }
}

/// What a pass without pairs comes to: notes outlive the last pair, and this is
/// the only place that takes those entries back out.
pub open spec fn orphans_reconciled(
    t: TopologyModel,
    apply: bool,
    s: SyncerModel,
    log: Seq<Op>,
    s2: SyncerModel,
    log2: Seq<Op>,
    r: Result<Seq<Report>, Errno>,
) -> bool {
    exists|r1: Run|
        {
            &&& #[trigger] orphans_dropped(t, apply, Run { s, log, failures: Seq::empty() }, r1)
            &&& s2 == (SyncerModel {
                timings: Findings {
                    links: counted(t.links.dom().len()),
                    failures: r1.failures,
                    ..no_findings()
                },
                ..r1.s
            })
            &&& log2 == r1.log
            &&& r == Ok::<Seq<Report>, Errno>(Seq::empty())
        }
}

/// What a full pass comes to. It fails where the forwarding table cannot be
/// read, or the driver does not answer.
pub open spec fn reconciled(
    t: TopologyModel,
    apply: bool,
    s: SyncerModel,
    log: Seq<Op>,
    s2: SyncerModel,
    log2: Seq<Op>,
    r: Result<Seq<Report>, Errno>,
) -> bool {
    if s.pairs.len() == 0 {
        orphans_reconciled(t, apply, s, log, s2, log2, r)
    } else {
        log2.len() > log.len() && (log2[log.len() as int] matches Op::DumpFdb { table }
            && match table {
            Ok(fdb) => table_reconciled(
                t,
                apply,
                fdb,
                live_functions(t, pair_devs(s.pairs)),
                s,
                log.push(log2[log.len() as int]),
                s2,
                log2,
                r,
            ),
            Err(e) => r == Err::<Seq<Report>, Errno>(e) && s2 == s && log2 == log.push(
                log2[log.len() as int],
            ),
        })
    }
}

/// What a list of reports says, if there is one.
pub open spec fn report_list(r: Result<Vec<Report>, Errno>) -> Result<Seq<Report>, Errno> {
    match r {
        Ok(v) => Ok(v@),
        Err(e) => Err(e),
    }
}

/// A sum, as far as a machine can count.
fn plus(a: usize, b: usize) -> (r: usize)
    ensures
        r == counted((a + b) as nat),
{
    if a <= usize::MAX - b {
        a + b
    } else {
        usize::MAX
    }
}

impl Syncer {
    /// The passed addresses of a pair, in the report.
    fn describe_pair(
        &self,
        topo: &Topology,
        given: &Given,
        pair: &Pair,
        anat: &Anatomy,
        before: &KeySet<Mac>,
        d: &Decided,
        present: &KeySet<Mac>,
        added: &AddedHere,
        dropped: &DroppedHere,
    ) -> (r: Report)
        requires
            present@ == own_entries(given.fdb@, anat.dev),
            topo@.links.contains_key(anat.dev),
            if topo@.links.contains_key(anat.bridge) {
                names_stacked(texts(d.stacked@), topo@.links, anat.bridge)
            } else {
                d.stacked@.len() == 0
            },
        ensures
            report_is(
                pass_of(*topo, *given),
                pair@,
                anat@,
                before@,
                decision_of(*d),
                added_of(*added),
                dropped_of(*dropped),
                self@,
                r,
            ),
    {
        let port = match topo.name_of(anat.port) {
            Some(n) => n.clone(),
            None => pair.dev.clone(),
        };
        let driver = match topo.at(anat.dev) {
            Some(l) => match &l.driver {
                Some(n) => n.clone(),
                None => String::new(),
            },
            None => String::new(),
        };
        let mut both = d.want.dup();
        let mut elsewhere = d.want.dup();
        elsewhere.subtract(present);
        both.subtract(&elsewhere);
        both.subtract(before);
        assert(both@ =~= d.want@.intersect(present@).difference(before@));
        let detail = if self.detail {
            Some(self.detail_of(topo, given, &pair.dev, d))
        } else {
            None
        };
        let stacked = copy_texts(&d.stacked);
        proof {
            assert(texts(stacked@).len() == stacked@.len());
            assert(texts(d.stacked@).len() == d.stacked@.len());
            assert(driver@ =~= match topo@.links[anat.dev].driver {
                Some(n) => n,
                None => Seq::empty(),
            });
        }
        Report {
            dev: pair.dev.clone(),
            bridge: pair.bridge.clone(),
            port,
            driver,
            wanted: d.want.len(),
            owned: dropped.owned.len(),
            present: present.len(),
            stacked,
            added: added.count,
            removed: dropped.count,
            foreign: both.len(),
            quiet: d.kept.len(),
            detail,
        }
    }

    /// What a pass does for a pair. Whether the driver's answer is still a
    /// carried one.
    fn pass_pair<W: FdbWriter>(
        &mut self,
        sock: &mut Recorded<W>,
        topo: &Topology,
        given: &Given,
        pair: &Pair,
        carried: bool,
        failures: &mut Vec<String>,
        reports: &mut Vec<Report>,
    ) -> (r: Result<bool, Errno>)
        ensures
            final(self).timings == old(self).timings,
            marks_grew(old(sock).marks(), final(sock).marks()),
            r is Ok ==> measured(
                old(sock).marks(),
                old(self).asking,
                final(sock).marks(),
                final(self).asking,
            ),
            match r {
                Ok(carried2) => pair_passed(
                    pass_of(*topo, *given),
                    pair@,
                    (Progress {
                        run: Run {
                            s: old(self)@,
                            log: old(sock).log(),
                            failures: texts(old(failures)@),
                        },
                        vf_carried: carried,
                        reports: old(reports)@,
                    }),
                    (Progress {
                        run: Run {
                            s: final(self)@,
                            log: final(sock).log(),
                            failures: texts(final(failures)@),
                        },
                        vf_carried: carried2,
                        reports: final(reports)@,
                    }),
                ),
                Err(e) => pair_stopped(
                    pass_of(*topo, *given),
                    pair@,
                    (Progress {
                        run: Run {
                            s: old(self)@,
                            log: old(sock).log(),
                            failures: texts(old(failures)@),
                        },
                        vf_carried: carried,
                        reports: old(reports)@,
                    }),
                    final(self)@,
                    final(sock).log(),
                    e,
                ),
            },
    {
        proof {
            lemma_measured_none(sock.marks(), self.asking);
        }
        let ghost journal = self@.book.journal;
        let dev_index = match topo.get(&pair.dev) {
            Some(l) => l.index,
            None => {
                assert(journal + Seq::<Seq<char>>::empty() =~= journal);
                return Ok(carried);
            },
        };
        let bridge_index = match topo.index_of(&pair.bridge) {
            Some(b) => b,
            None => {
                let line = say_no_bridge(&pair.dev, &pair.bridge);
                assert(journal.push(line@) =~= journal + seq![line@]);
                self.book.say(line);
                return Ok(carried);
            },
        };
        let anat = match topo.anatomy(dev_index, bridge_index) {
            Some(a) => a,
            None => {
                let line = say_not_under(&pair.dev, &pair.bridge);
                assert(journal.push(line@) =~= journal + seq![line@]);
                self.book.say(line);
                return Ok(carried);
            },
        };
        let ghost c = pass_of(*topo, *given);
        let ghost p = Progress {
            run: Run { s: self@, log: sock.log(), failures: texts(failures@) },
            vf_carried: carried,
            reports: reports@,
        };
        assert(place_of(c.t, pair@) == Some(anat@));
        let owned = self.read_pair(sock, topo, given.apply, &pair.dev);
        let ghost sa = self@;
        let ghost la = sock.log();
        assert(pair_read(c.t, c.apply, pair@.dev, p.run.s, p.run.log, sa, la));
        let r = self.work_pair(sock, topo, given, pair, &anat, &owned, carried, failures, reports);
        proof {
            match r {
                Ok(carried2) => {
                    let p2 = Progress {
                        run: Run { s: self@, log: sock.log(), failures: texts(failures@) },
                        vf_carried: carried2,
                        reports: reports@,
                    };
                    let pa = Progress {
                        run: Run { s: sa, log: la, failures: p.run.failures },
                        ..p
                    };
                    assert(pair_worked(
                        c,
                        pair@,
                        anat@,
                        owned_in(sa.book.dir, pair@.dev),
                        sa.book.readable(pair@.dev),
                        pa,
                        p2,
                    ));
                    assert(pair_done(c, pair@, anat@, p, p2));
                },
                Err(e) => {
                    assert(pair_stopped(c, pair@, p, self@, sock.log(), e));
                },
            }
        }
        r
    }

    /// The steps for a pair once its note has been looked at.
    fn work_pair<W: FdbWriter>(
        &mut self,
        sock: &mut Recorded<W>,
        topo: &Topology,
        given: &Given,
        pair: &Pair,
        anat: &Anatomy,
        owned: &KeySet<Mac>,
        carried: bool,
        failures: &mut Vec<String>,
        reports: &mut Vec<Report>,
    ) -> (r: Result<bool, Errno>)
        requires
            topo@.links.contains_key(anat.dev),
        ensures
            final(self).timings == old(self).timings,
            marks_grew(old(sock).marks(), final(sock).marks()),
            r is Ok ==> measured(
                old(sock).marks(),
                old(self).asking,
                final(sock).marks(),
                final(self).asking,
            ),
            match r {
                Ok(carried2) => pair_worked(
                    pass_of(*topo, *given),
                    pair@,
                    anat@,
                    owned@,
                    old(self)@.book.readable(pair.dev@),
                    (Progress {
                        run: Run {
                            s: old(self)@,
                            log: old(sock).log(),
                            failures: texts(old(failures)@),
                        },
                        vf_carried: carried,
                        reports: old(reports)@,
                    }),
                    (Progress {
                        run: Run {
                            s: final(self)@,
                            log: final(sock).log(),
                            failures: texts(final(failures)@),
                        },
                        vf_carried: carried2,
                        reports: final(reports)@,
                    }),
                ),
                Err(e) => answer_settled(
                    pass_of(*topo, *given),
                    anat@,
                    pair.dev@,
                    owned@,
                    old(self)@,
                    old(sock).log(),
                    carried,
                    final(self)@,
                    final(sock).log(),
                    carried,
                    Some(e),
                ),
            },
    {
        let ghost c = pass_of(*topo, *given);
        let ghost p = Progress {
            run: Run { s: self@, log: sock.log(), failures: texts(failures@) },
            vf_carried: carried,
            reports: reports@,
        };
        let readable = self.book.note_is_readable(&pair.dev);
        let present = own_set(&given.fdb, anat.dev);
        let (wanted, carried2) = match self.settle_answer(
            sock,
            topo,
            given,
            anat,
            &pair.dev,
            owned,
            &present,
            carried,
        ) {
            Ok(x) => x,
            Err(e) => {
                return Err(e);
            },
        };
        let ghost sb = self@;
        let ghost lb = sock.log();
        assert(answer_settled(
            c,
            anat@,
            pair@.dev,
            owned@,
            p.run.s,
            p.run.log,
            p.vf_carried,
            sb,
            lb,
            carried2,
            None,
        ));
        let d = self.decide_pair(topo, given, anat, &pair.dev, owned, &present, wanted);
        let ghost sc = self@;
        assert(pair_decided(c, anat@, pair@.dev, owned@, sb, sc, decision_of(d)));
        self.write_pair(
            sock,
            topo,
            given,
            pair,
            anat,
            owned,
            readable,
            &d,
            &present,
            failures,
            reports,
            Ghost(carried2),
        );
        proof {
            let p2 = Progress {
                run: Run { s: self@, log: sock.log(), failures: texts(failures@) },
                vf_carried: carried2,
                reports: reports@,
            };
            let rb = Run { s: sc, log: lb, failures: p.run.failures };
            assert(pair_written(
                c,
                pair@,
                anat@,
                owned@,
                readable,
                decision_of(d),
                rb,
                p.reports,
                p2,
            ));
            assert(answer_settled(
                c,
                anat@,
                pair@.dev,
                owned@,
                p.run.s,
                p.run.log,
                p.vf_carried,
                sb,
                lb,
                p2.vf_carried,
                None,
            ));
            assert(pair_worked(c, pair@, anat@, owned@, readable, p, p2));
        }
        Ok(carried2)
    }

    /// The steps for a pair that write.
    fn write_pair<W: FdbWriter>(
        &mut self,
        sock: &mut Recorded<W>,
        topo: &Topology,
        given: &Given,
        pair: &Pair,
        anat: &Anatomy,
        owned: &KeySet<Mac>,
        readable: bool,
        d: &Decided,
        present: &KeySet<Mac>,
        failures: &mut Vec<String>,
        reports: &mut Vec<Report>,
        Ghost(carried): Ghost<bool>,
    )
        requires
            present@ == own_entries(given.fdb@, anat.dev),
            topo@.links.contains_key(anat.dev),
            d.learnt_at@ == behind_map(topo@.links, anat@, given.fdb@),
            if topo@.links.contains_key(anat.bridge) {
                names_stacked(texts(d.stacked@), topo@.links, anat.bridge)
            } else {
                d.stacked@.len() == 0
            },
        ensures
            final(sock).marks() == old(sock).marks(),
            same_cost(*old(self), *final(self)),
            pair_written(
                pass_of(*topo, *given),
                pair@,
                anat@,
                owned@,
                readable,
                decision_of(*d),
                (Run { s: old(self)@, log: old(sock).log(), failures: texts(old(failures)@) }),
                old(reports)@,
                (Progress {
                    run: Run {
                        s: final(self)@,
                        log: final(sock).log(),
                        failures: texts(final(failures)@),
                    },
                    vf_carried: carried,
                    reports: final(reports)@,
                }),
            ),
    {
        let ghost c = pass_of(*topo, *given);
        let ghost r0 = Run { s: self@, log: sock.log(), failures: texts(failures@) };
        let ghost reports0 = reports@;
        let added = self.register_pair(
            sock,
            topo,
            given,
            anat,
            &pair.dev,
            owned,
            &d.want,
            present,
            failures,
        );
        let ghost r1 = Run { s: self@, log: sock.log(), failures: texts(failures@) };
        let dropped = self.retire_pair(
            sock,
            topo,
            given,
            anat,
            &pair.dev,
            &added.owned,
            &d.want,
            failures,
        );
        let ghost r2 = Run { s: self@, log: sock.log(), failures: texts(failures@) };
        self.remember_pair(
            sock,
            topo,
            given,
            anat,
            &pair.dev,
            owned,
            &dropped.owned,
            readable,
            &d.learnt_at,
        );
        let ghost s3 = self@;
        self.carry_pair(
            topo,
            given,
            anat,
            &pair.dev,
            d,
            present,
            &added.landed,
            &dropped.gone,
            readable,
        );
        let report = self.describe_pair(
            topo,
            given,
            pair,
            anat,
            owned,
            d,
            present,
            &added,
            &dropped,
        );
        reports.push(report);
        proof {
            let p2 = Progress {
                run: Run { s: self@, log: sock.log(), failures: texts(failures@) },
                vf_carried: carried,
                reports: reports@,
            };
            assert(pair_remembered(
                c,
                anat@,
                pair@.dev,
                owned@,
                dropped_of(dropped).owned,
                readable,
                r2.s,
                r2.log,
                s3,
                p2.run.log,
            ));
            assert(p2.reports == reports0.push(p2.reports.last()));
            assert(pair_finished(
                c,
                pair@,
                anat@,
                owned@,
                readable,
                decision_of(*d),
                added_of(added),
                dropped_of(dropped),
                r2,
                reports0,
                p2,
            ));
            assert(pair_registered(
                c,
                anat@,
                pair@.dev,
                owned@,
                decision_of(*d).want,
                r0,
                r1,
                added_of(added),
            ));
            assert(pair_retired(
                c,
                anat@,
                pair@.dev,
                added_of(added).owned,
                decision_of(*d).want,
                r1,
                r2,
                dropped_of(dropped),
            ));
            assert(pair_written(
                c,
                pair@,
                anat@,
                owned@,
                readable,
                decision_of(*d),
                r0,
                reports0,
                p2,
            ));
        }
    }
}

/// Copies a list of texts.
fn copy_texts(v: &Vec<String>) -> (r: Vec<String>)
    ensures
        texts(r@) == texts(v@),
{
    let mut out: Vec<String> = Vec::new();
    let mut i: usize = 0;
    while i < v.len()
        invariant
            i <= v@.len(),
            out@.len() == i,
            forall|j: int| 0 <= j < i ==> (#[trigger] out@[j])@ == v@[j]@,
        decreases v@.len() - i,
    {
        out.push(v[i].clone());
        i += 1;
    }
    assert(texts(out@) =~= texts(v@));
    out
}

/// Copies a list of pairs.
fn copy_pairs(v: &Vec<Pair>) -> (r: Vec<Pair>)
    ensures
        pair_list(r@) == pair_list(v@),
{
    let mut out: Vec<Pair> = Vec::new();
    let mut i: usize = 0;
    while i < v.len()
        invariant
            i <= v@.len(),
            out@.len() == i,
            forall|j: int| 0 <= j < i ==> (#[trigger] out@[j])@ == v@[j]@,
        decreases v@.len() - i,
    {
        out.push(Pair { dev: v[i].dev.clone(), bridge: v[i].bridge.clone() });
        i += 1;
    }
    assert(pair_list(out@) =~= pair_list(v@));
    out
}

/// The devices of a list of pairs.
pub fn devs_of(pairs: &Vec<Pair>) -> (r: Vec<String>)
    ensures
        texts(r@) == pair_devs(pair_list(pairs@)),
{
    let mut out: Vec<String> = Vec::new();
    let mut i: usize = 0;
    while i < pairs.len()
        invariant
            i <= pairs@.len(),
            out@.len() == i,
            forall|j: int| 0 <= j < i ==> (#[trigger] out@[j])@ == pairs@[j]@.dev,
        decreases pairs@.len() - i,
    {
        out.push(pairs[i].dev.clone());
        i += 1;
    }
    assert(texts(out@) =~= pair_devs(pair_list(pairs@)));
    out
}

proof fn lemma_came_to(
    c: Pass,
    pairs: Seq<PairModel>,
    p: Progress,
    q: Progress,
    s2: SyncerModel,
)
    requires
        pairs_came_to(c, pairs, p, q),
        s2 == (SyncerModel { timings: pass_findings(c, q), ..q.run.s }),
    ensures
        pairs_reconciled(c, pairs, p, s2, q.run.log, Ok(q.reports)),
{
    let ps = choose|ps: Seq<Progress>| #[trigger]
        pairs_passed(c, pairs, ps) && ps[0] == p && ps.last() == q;
    assert(pairs.take(pairs.len() as int) =~= pairs);
    assert(pairs_passed(c, pairs.take(pairs.len() as int), ps));
}

proof fn lemma_stopped(
    c: Pass,
    pairs: Seq<PairModel>,
    p: Progress,
    s2: SyncerModel,
    log2: Seq<Op>,
    e: Errno,
)
    requires
        pairs_stopped(c, pairs, p, s2, log2, e),
    ensures
        pairs_reconciled(c, pairs, p, s2, log2, Err(e)),
{
    let (ps, k) = choose|ps: Seq<Progress>, k: int|
        {
            &&& 0 <= k < pairs.len()
            &&& #[trigger] pairs_passed(c, pairs.take(k), ps)
            &&& ps[0] == p
            &&& pair_stopped(c, pairs[k], ps.last(), s2, log2, e)
        };
    assert(pairs_passed(c, pairs.take(k), ps));
}

/// The sums of what a list of reports says.
fn totals(reports: &Vec<Report>) -> (r: (usize, usize))
    ensures
        r.0 == counted(added_total(reports@)),
        r.1 == counted(removed_total(reports@)),
{
    let mut added: usize = 0;
    let mut removed: usize = 0;
    let mut i: usize = 0;
    assert(reports@.take(0) =~= Seq::empty());
    while i < reports.len()
        invariant
            i <= reports@.len(),
            added == counted(added_total(reports@.take(i as int))),
            removed == counted(removed_total(reports@.take(i as int))),
        decreases reports@.len() - i,
    {
        proof {
            let next = reports@.take(i + 1);
            assert(next.drop_last() =~= reports@.take(i as int));
            assert(next.last() == reports@[i as int]);
        }
        added = plus(added, reports[i].added);
        removed = plus(removed, reports[i].removed);
        i += 1;
    }
    assert(reports@.take(i as int) =~= reports@);
    (added, removed)
}

impl Syncer {
    /// The driver's answer to go by at the start. Whether it is a carried one.
    pub fn first_answer<W: FdbWriter>(
        &mut self,
        sock: &mut Recorded<W>,
        pfs: &Vec<u32>,
    ) -> (r: Result<bool, Errno>)
        ensures
            final(sock).marks() == old(sock).marks(),
            same_cost(*old(self), *final(self)),
            answer_first(
                old(self)@,
                old(sock).log(),
                pfs@,
                final(self)@,
                final(sock).log(),
                match r {
                    Ok(_) => None,
                    Err(e) => Some(e),
                },
            ),
            r matches Ok(carried) ==> carried == old(self)@.vf_usable(pfs@),
    {
        if self.carried_vf_for(pfs).is_some() {
            return Ok(true);
        }
        match sock.vf_macs_of(pfs) {
            Ok(fresh) => {
                self.remember_vf(copy_indices(pfs), fresh);
                Ok(false)
            },
            Err(e) => Err(e),
        }
    }

    /// One full pass: dump, decide, and write, pair by pair.
    ///
    /// The topology is handed in: the caller needs it for autodetection anyway,
    /// and `topo_load`, in nanoseconds, keeps the report honest about the whole
    /// pass.
    pub fn reconcile<W: FdbWriter>(
        &mut self,
        sock: &mut Recorded<W>,
        apply: bool,
        topo: &Topology,
        topo_load: u64,
    ) -> (r: Result<Vec<Report>, Errno>)
        ensures
            reconciled(
                topo@,
                apply,
                old(self)@,
                old(sock).log(),
                final(self)@,
                final(sock).log(),
                report_list(r),
            ),
            marks_grew(old(sock).marks(), final(sock).marks()),
            r is Err ==> final(self).timings == old(self).timings,
            r is Ok && old(self)@.pairs.len() == 0 ==> empty_cost(
                final(self).timings,
                topo_load,
                final(sock).marks(),
                old(sock).marks().len() as int,
            ),
            r is Ok && old(self)@.pairs.len() > 0 ==> pass_cost(
                final(self).timings,
                topo_load,
                old(self)@.vf_usable(live_functions(topo@, pair_devs(old(self)@.pairs))),
                final(sock).marks(),
                old(sock).marks().len() as int,
            ),
    {
        let ghost s = self@;
        let ghost log = sock.log();
        let started: u64 = sock.mark().nanos;
        let mut timings = Timings::new();
        timings.topology = topo_load;
        timings.links = topo.len();
        if self.pairs.len() == 0 {
            assert(texts(timings.failures@) =~= Seq::empty());
            self.drop_orphans(sock, topo, apply, &mut timings.failures);
            let ghost r1 = Run { s: self@, log: sock.log(), failures: texts(timings.failures@) };
            timings.total = topo_load.saturating_add(elapsed(started, sock.mark().nanos));
            self.timings = timings;
            let none: Vec<Report> = Vec::new();
            proof {
                assert(none@ =~= Seq::empty());
                let r0 = Run { s, log, failures: Seq::empty() };
                assert(orphans_dropped(topo@, apply, r0, r1));
                assert(orphans_reconciled(
                    topo@,
                    apply,
                    s,
                    log,
                    self@,
                    sock.log(),
                    Ok(none@),
                ));
            }
            return Ok(none);
        }
        let mark: u64 = sock.mark().nanos;
        let fdb = match sock.dump_fdb() {
            Ok(v) => v,
            Err(e) => {
                return Err(e);
            },
        };
        let ghost l1 = sock.log();
        let ghost table = fdb@;
        timings.fdb = elapsed(mark, sock.mark().nanos);
        timings.fdb_entries = fdb.len();
        let r = self.reconcile_table(sock, topo, apply, fdb, started, timings);
        proof {
            let pfs = live_functions(topo@, pair_devs(s.pairs));
            let g = Ground { t: topo@, dir: s.book.dir, quiet: Set::empty() };
            lemma_sound_start(g, l1);
            lemma_grew_same(l1);
            lemma_table_reconciled(
                g,
                l1,
                topo@,
                apply,
                table,
                pfs,
                s,
                l1,
                self@,
                sock.log(),
                report_list(r),
            );
            assert(sock.log()[log.len() as int] == l1[log.len() as int]) by {
                assert(sock.log().take(l1.len() as int)[log.len() as int] == l1[log.len() as int]);
            }
        }
        r
    }

    fn reconcile_table<W: FdbWriter>(
        &mut self,
        sock: &mut Recorded<W>,
        topo: &Topology,
        apply: bool,
        fdb: Vec<FdbEntry>,
        started: u64,
        given_timings: Timings,
    ) -> (r: Result<Vec<Report>, Errno>)
        requires
            given_timings@ == (Findings {
                links: counted(topo@.links.dom().len()),
                fdb_entries: counted(fdb@.len()),
                ..no_findings()
            }),
        ensures
            table_reconciled(
                topo@,
                apply,
                fdb@,
                live_functions(topo@, pair_devs(old(self)@.pairs)),
                old(self)@,
                old(sock).log(),
                final(self)@,
                final(sock).log(),
                report_list(r),
            ),
            marks_grew(old(sock).marks(), final(sock).marks()),
            r is Err ==> final(self).timings == old(self).timings,
            r is Ok ==> table_cost(
                final(self).timings,
                given_timings,
                started,
                old(self)@.vf_usable(live_functions(topo@, pair_devs(old(self)@.pairs))),
                final(sock).marks(),
                old(sock).marks().len() as int,
            ),
    {
        let ghost s = self@;
        let ghost log = sock.log();
        let devs = devs_of(&self.pairs);
        let pfs = live_pfs(topo, &devs);
        let mut timings = given_timings;
        let mark: u64 = sock.mark().nanos;
        let first = self.first_answer(sock, &pfs);
        let ghost s1 = self@;
        let ghost l1 = sock.log();
        let asked: u64 = elapsed(mark, sock.mark().nanos);
        let carried = match first {
            Ok(c) => {
                timings.vf_macs = if c {
                    0
                } else {
                    asked
                };
                c
            },
            Err(e) => {
                assert(answer_first(s, log, pfs@, s1, l1, Some(e)));
                return Err(e);
            },
        };
        assert(answer_first(s, log, pfs@, s1, l1, None));
        let ghost fs = pfs@;
        let ghost table = fdb@;
        let r = self.make_pass(sock, topo, apply, fdb, pfs, carried, started, timings);
        proof {
            assert(pass_made(
                topo@,
                apply,
                table,
                fs,
                carried,
                s1,
                l1,
                self@,
                sock.log(),
                report_list(r),
            ));
        }
        r
    }

    fn make_pass<W: FdbWriter>(
        &mut self,
        sock: &mut Recorded<W>,
        topo: &Topology,
        apply: bool,
        fdb: Vec<FdbEntry>,
        pfs: Vec<u32>,
        carried: bool,
        started: u64,
        given_timings: Timings,
    ) -> (r: Result<Vec<Report>, Errno>)
        requires
            given_timings@ == (Findings {
                links: counted(topo@.links.dom().len()),
                fdb_entries: counted(fdb@.len()),
                ..no_findings()
            }),
        ensures
            pass_made(
                topo@,
                apply,
                fdb@,
                pfs@,
                carried,
                old(self)@,
                old(sock).log(),
                final(self)@,
                final(sock).log(),
                report_list(r),
            ),
            marks_grew(old(sock).marks(), final(sock).marks()),
            r is Err ==> final(self).timings == old(self).timings,
            r is Ok ==> made_cost(
                final(self).timings,
                given_timings,
                started,
                final(sock).marks(),
                old(sock).marks().len() as int,
            ),
    {
        let ghost s = self@;
        let ghost log = sock.log();
        let mut timings = given_timings;
        let now = sock.now();
        let pass_at = next_stamp(self.last_pass_at, now.boot_millis);
        self.last_pass_at = pass_at;
        self.asking = 0;
        let mark: u64 = sock.mark().nanos;
        let mut failures: Vec<String> = Vec::new();
        assert(texts(failures@) =~= Seq::empty());
        let ghost r0 = pass_start(s, log.push(Op::Clock { reading: now }), at_after(s, now));
        assert(r0 == (Run { s: self@, log: sock.log(), failures: texts(failures@) }));
        self.drop_orphans(sock, topo, apply, &mut failures);
        let ghost r1 = Run { s: self@, log: sock.log(), failures: texts(failures@) };
        assert(orphans_dropped(topo@, apply, r0, r1));
        timings.orphans = elapsed(mark, sock.mark().nanos);
        let given = Given { fdb, pfs, pass_at, apply };
        let ghost c = pass_of(*topo, given);
        let ghost p = Progress { run: r1, vf_carried: carried, reports: Seq::empty() };
        proof {
            let g = Ground { t: topo@, dir: r0.s.book.dir, quiet: Set::empty() };
            lemma_sound_start(g, r0.log);
            orphans_only_take_out(g, r0.log, apply, r0, r1);
        }
        let r = self.finish_pass(sock, topo, given, carried, failures, started, timings);
        assert(pairs_reconciled(c, s.pairs, p, self@, sock.log(), report_list(r)));
        r
    }

    /// The part of a pass that follows the orphans.
    fn finish_pass<W: FdbWriter>(
        &mut self,
        sock: &mut Recorded<W>,
        topo: &Topology,
        given: Given,
        carried: bool,
        failures: Vec<String>,
        started: u64,
        given_timings: Timings,
    ) -> (r: Result<Vec<Report>, Errno>)
        requires
            given_timings@ == (Findings {
                links: counted(topo@.links.dom().len()),
                fdb_entries: counted(given.fdb@.len()),
                ..no_findings()
            }),
        ensures
            pairs_reconciled(
                pass_of(*topo, given),
                old(self)@.pairs,
                (Progress {
                    run: Run {
                        s: old(self)@,
                        log: old(sock).log(),
                        failures: texts(failures@),
                    },
                    vf_carried: carried,
                    reports: Seq::empty(),
                }),
                final(self)@,
                final(sock).log(),
                report_list(r),
            ),
            marks_grew(old(sock).marks(), final(sock).marks()),
            r is Err ==> final(self).timings == old(self).timings,
            r is Ok ==> pairs_cost(
                final(self).timings,
                given_timings,
                started,
                old(self).asking,
                final(sock).marks(),
                old(sock).marks().len() as int,
            ),
    {
        let ghost c = pass_of(*topo, given);
        let ghost pairs = self@.pairs;
        let ghost p = Progress {
            run: Run { s: self@, log: sock.log(), failures: texts(failures@) },
            vf_carried: carried,
            reports: Seq::empty(),
        };
        let mut timings = given_timings;
        let mark: u64 = sock.mark().nanos;
        match self.pass_pairs(sock, topo, &given, carried, failures) {
            Ok((reports, failed, carried2)) => {
                let ghost q = Progress {
                    run: Run { s: self@, log: sock.log(), failures: texts(failed@) },
                    vf_carried: carried2,
                    reports: reports@,
                };
                let ghost m1 = sock.marks();
                timings.pairs = elapsed(mark, sock.mark().nanos);
                let spent: u64 = elapsed(started, sock.mark().nanos);
                proof {
                    let ms = sock.marks();
                    let n = old(sock).marks().len() as int;
                    assert(ms.subrange(n + 1, ms.len() - 2) =~= m1.skip(n + 1));
                }
                self.conclude(timings, &reports, failed, carried2, spent);
                proof {
                    lemma_came_to(c, pairs, p, q, self@);
                }
                Ok(reports)
            },
            Err(e) => {
                proof {
                    lemma_stopped(c, pairs, p, self@, sock.log(), e);
                }
                Err(e)
            },
        }
    }

    /// Remembers what a whole pass cost and found.
    fn conclude(
        &mut self,
        given_timings: Timings,
        reports: &Vec<Report>,
        failures: Vec<String>,
        carried: bool,
        spent: u64,
    )
        ensures
            final(self)@ == (SyncerModel {
                timings: Findings {
                    links: given_timings.links,
                    fdb_entries: given_timings.fdb_entries,
                    vf_addresses: counted(old(self)@.vf_answer().len()),
                    vf_carried: carried,
                    added: counted(added_total(reports@)),
                    removed: counted(removed_total(reports@)),
                    failures: texts(failures@),
                },
                ..old(self)@
            }),
            final(self).timings.topology == given_timings.topology,
            final(self).timings.fdb == given_timings.fdb,
            final(self).timings.orphans == given_timings.orphans,
            final(self).timings.pairs == given_timings.pairs,
            final(self).timings.vf_macs == given_timings.vf_macs.saturating_add(old(self).asking),
            final(self).timings.total == given_timings.topology.saturating_add(spent),
    {
        let mut timings = given_timings;
        timings.vf_macs = timings.vf_macs.saturating_add(self.asking);
        let (added, removed) = totals(reports);
        timings.added = added;
        timings.removed = removed;
        timings.failures = failures;
        timings.vf_carried = carried;
        timings.vf_addresses = match &self.carried_vf {
            Some(x) => x.1.len(),
            None => 0,
        };
        timings.total = timings.topology.saturating_add(spent);
        self.timings = timings;
    }

    /// Passes every pair, with the stamp that was given. What was reported, what
    /// went wrong, and whether the driver's answer is still a carried one.
    pub fn pass_pairs<W: FdbWriter>(
        &mut self,
        sock: &mut Recorded<W>,
        topo: &Topology,
        given: &Given,
        carried: bool,
        given_failures: Vec<String>,
    ) -> (r: Result<(Vec<Report>, Vec<String>, bool), Errno>)
        ensures
            final(self).timings == old(self).timings,
            marks_grew(old(sock).marks(), final(sock).marks()),
            r is Ok ==> measured(
                old(sock).marks(),
                old(self).asking,
                final(sock).marks(),
                final(self).asking,
            ),
            match r {
                Ok((reports, failures, carried2)) => pairs_came_to(
                    pass_of(*topo, *given),
                    old(self)@.pairs,
                    (Progress {
                        run: Run {
                            s: old(self)@,
                            log: old(sock).log(),
                            failures: texts(given_failures@),
                        },
                        vf_carried: carried,
                        reports: Seq::empty(),
                    }),
                    (Progress {
                        run: Run {
                            s: final(self)@,
                            log: final(sock).log(),
                            failures: texts(failures@),
                        },
                        vf_carried: carried2,
                        reports: reports@,
                    }),
                ),
                Err(e) => pairs_stopped(
                    pass_of(*topo, *given),
                    old(self)@.pairs,
                    (Progress {
                        run: Run {
                            s: old(self)@,
                            log: old(sock).log(),
                            failures: texts(given_failures@),
                        },
                        vf_carried: carried,
                        reports: Seq::empty(),
                    }),
                    final(self)@,
                    final(sock).log(),
                    e,
                ),
            },
    {
        let ghost c = pass_of(*topo, *given);
        let mut failures = given_failures;
        let mut reports: Vec<Report> = Vec::new();
        let mut vf_carried = carried;
        let pairs = copy_pairs(&self.pairs);
        let ghost all = self@.pairs;
        let ghost p = Progress {
            run: Run { s: self@, log: sock.log(), failures: texts(failures@) },
            vf_carried: carried,
            reports: Seq::empty(),
        };
        let ghost mut ps: Seq<Progress> = seq![p];
        assert(reports@ =~= Seq::empty());
        let mut i: usize = 0;
        assert(all.take(0) =~= Seq::empty());
        proof {
            lemma_measured_none(sock.marks(), self.asking);
        }
        while i < pairs.len()
            invariant
                self.timings == old(self).timings,
                measured(old(sock).marks(), old(self).asking, sock.marks(), self.asking),
                c == pass_of(*topo, *given),
                all == pair_list(pairs@),
                all == old(self)@.pairs,
                p == (Progress {
                    run: Run {
                        s: old(self)@,
                        log: old(sock).log(),
                        failures: texts(given_failures@),
                    },
                    vf_carried: carried,
                    reports: Seq::empty(),
                }),
                i <= pairs@.len(),
                pairs_passed(c, all.take(i as int), ps),
                ps[0] == p,
                ps.last() == (Progress {
                    run: Run { s: self@, log: sock.log(), failures: texts(failures@) },
                    vf_carried,
                    reports: reports@,
                }),
            decreases pairs@.len() - i,
        {
            let ghost m1 = sock.marks();
            let ghost a1 = self.asking;
            let ghost before = ps;
            match self.pass_pair(
                sock,
                topo,
                given,
                &pairs[i],
                vf_carried,
                &mut failures,
                &mut reports,
            ) {
                Ok(c2) => {
                    vf_carried = c2;
                    proof {
                        lemma_measured_trans(
                            old(sock).marks(),
                            old(self).asking,
                            m1,
                            a1,
                            sock.marks(),
                            self.asking,
                        );
                        let now = Progress {
                            run: Run { s: self@, log: sock.log(), failures: texts(failures@) },
                            vf_carried,
                            reports: reports@,
                        };
                        ps = before.push(now);
                        let done = all.take(i as int);
                        let next = all.take(i + 1);
                        assert(next[i as int] == pairs@[i as int]@);
                        assert forall|j: int|
                            #![trigger next[j]]
                            0 <= j < next.len() implies pair_passed(
                            c,
                            next[j],
                            ps[j],
                            ps[j + 1],
                        ) by {
                            if j < i {
                                assert(done[j] == next[j]);
                                assert(ps[j] == before[j]);
                                assert(ps[j + 1] == before[j + 1]);
                            }
                        }
                    }
                },
                Err(e) => {
                    proof {
                        assert(all[i as int] == pairs@[i as int]@);
                        assert(pair_stopped(
                            c,
                            all[i as int],
                            ps.last(),
                            self@,
                            sock.log(),
                            e,
                        ));
                        assert(pairs_stopped(c, all, p, self@, sock.log(), e));
                    }
                    return Err(e);
                },
            }
            i += 1;
        }
        proof {
            assert(all.take(i as int) =~= all);
            let q = Progress {
                run: Run { s: self@, log: sock.log(), failures: texts(failures@) },
                vf_carried,
                reports: reports@,
            };
            assert(pairs_passed(c, all, ps));
            assert(pairs_came_to(c, all, p, q));
        }
        Ok((reports, failures, vf_carried))
    }
}

} // verus!
