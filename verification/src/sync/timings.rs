//! Where a pass spent its time, and what it found.

use vstd::prelude::*;

use crate::netlink::Moment;
use crate::sync::millis::{count_micros, micros};
use crate::text::{digits, push_number, push_text, push_wide};
use crate::topology::detect::texts;

verus! {

/// Where a pass spent its time, and what it found. Filled every pass, reported
/// only when asked. Times are in nanoseconds.
pub struct Timings {
    pub topology: u64,
    pub fdb: u64,
    pub vf_macs: u64,
    pub orphans: u64,
    pub pairs: u64,
    pub total: u64,
    pub links: usize,
    pub fdb_entries: usize,
    pub vf_addresses: usize,
    /// whether the addresses came from the previous pass rather than the driver
    pub vf_carried: bool,
    pub added: usize,
    pub removed: usize,
    /// Anything that went wrong without stopping the pass.
    pub failures: Vec<String>,
}

/// What a pass found, the times left out: those are the clock's.
pub struct Findings {
    pub links: usize,
    pub fdb_entries: usize,
    pub vf_addresses: usize,
    pub vf_carried: bool,
    pub added: usize,
    pub removed: usize,
    pub failures: Seq<Seq<char>>,
}

impl View for Timings {
    type V = Findings;

    open spec fn view(&self) -> Findings {
        Findings {
            links: self.links,
            fdb_entries: self.fdb_entries,
            vf_addresses: self.vf_addresses,
            vf_carried: self.vf_carried,
            added: self.added,
            removed: self.removed,
            failures: texts(self.failures@),
        }
    }
}

/// Nothing found yet.
pub open spec fn no_findings() -> Findings {
    Findings {
        links: 0,
        fdb_entries: 0,
        vf_addresses: 0,
        vf_carried: false,
        added: 0,
        removed: 0,
        failures: Seq::empty(),
    }
}

/// A number below a thousand in three digits.
pub open spec fn three_digits(n: nat) -> Seq<char> {
    digits((n / 100) % 10) + digits((n / 10) % 10) + digits(n % 10)
}

/// A time in milliseconds, to three decimals.
pub open spec fn millis_text(nanos: u64) -> Seq<char> {
    digits(micros(nanos) / 1000) + "."@ + three_digits(micros(nanos) % 1000)
}

/// As many blanks as there are left up to `width`.
pub open spec fn blanks(width: nat, used: nat) -> Seq<char> {
    Seq::new(
        if used < width {
            (width - used) as nat
        } else {
            0
        },
        |i: int| ' ',
    )
}

/// A time in milliseconds, right-aligned over seven places.
pub open spec fn wide_millis(nanos: u64) -> Seq<char> {
    blanks(7, millis_text(nanos).len()) + millis_text(nanos)
}

/// What is said of the failures, a line each.
pub open spec fn failure_lines(failures: Seq<Seq<char>>) -> Seq<char>
    decreases failures.len(),
{
    if failures.len() == 0 {
        Seq::empty()
    } else {
        failure_lines(failures.drop_last()) + "    failure: "@ + failures.last() + "\n"@
    }
}

/// One phase of a pass: how long it took, and its line in the report.
pub struct PhaseModel {
    pub time: u64,
    pub line: Seq<char>,
}

/// The phases of a pass, in the order in which they run.
pub open spec fn phases(t: Timings) -> Seq<PhaseModel> {
    seq![
        PhaseModel {
            time: t.topology,
            line: "    topology  "@ + wide_millis(t.topology) + " ms  "@ + digits(t.links as nat)
                + " links\n"@,
        },
        PhaseModel {
            time: t.fdb,
            line: "    fdb dump  "@ + wide_millis(t.fdb) + " ms  "@ + digits(t.fdb_entries as nat)
                + " entries\n"@,
        },
        PhaseModel {
            time: t.vf_macs,
            line: "    vf macs   "@ + wide_millis(t.vf_macs) + " ms  "@ + digits(
                t.vf_addresses as nat,
            ) + " addresses"@ + if t.vf_carried {
                " (carried over)\n"@
            } else {
                "\n"@
            },
        },
        PhaseModel { time: t.orphans, line: "    orphans   "@ + wide_millis(t.orphans) + " ms\n"@ },
        PhaseModel {
            time: t.pairs,
            line: "    pairs     "@ + wide_millis(t.pairs) + " ms  +"@ + digits(t.added as nat)
                + " -"@ + digits(t.removed as nat) + "\n"@,
        },
    ]
}

/// A row of phases with one more, behind those that took as long or longer.
pub open spec fn placed(row: Seq<PhaseModel>, p: PhaseModel) -> Seq<PhaseModel>
    decreases row.len(),
{
    if row.len() == 0 || row.last().time >= p.time {
        row.push(p)
    } else {
        placed(row.drop_last(), p).push(row.last())
    }
}

/// The phases by their time, the longest first; of two that took the same time
/// the one that runs first.
pub open spec fn widest_first(ps: Seq<PhaseModel>) -> Seq<PhaseModel>
    decreases ps.len(),
{
    if ps.len() == 0 {
        Seq::empty()
    } else {
        placed(widest_first(ps.drop_last()), ps.last())
    }
}

/// The lines of a row of phases.
pub open spec fn phase_lines(row: Seq<PhaseModel>) -> Seq<char>
    decreases row.len(),
{
    if row.len() == 0 {
        Seq::empty()
    } else {
        phase_lines(row.drop_last()) + row.last().line
    }
}

/// The report of a pass: the whole, then one line per phase, the one that took
/// longest first, and then what went wrong.
pub open spec fn report_text(t: Timings) -> Seq<char> {
    "  pass total "@ + millis_text(t.total) + " ms\n"@ + phase_lines(widest_first(phases(t)))
        + failure_lines(texts(t.failures@))
}

proof fn lemma_placed(row: Seq<PhaseModel>, p: PhaseModel, k: int)
    requires
        0 <= k <= row.len(),
        k == 0 || row[k - 1].time >= p.time,
        forall|i: int| k <= i < row.len() ==> (#[trigger] row[i]).time < p.time,
    ensures
        placed(row, p) == row.insert(k, p),
    decreases row.len(),
{
    if k == row.len() {
        assert(row.insert(k, p) =~= row.push(p));
    } else {
        assert(row[row.len() - 1].time < p.time);
        let front = row.drop_last();
        assert forall|i: int| k <= i < front.len() implies (#[trigger] front[i]).time < p.time by {
            assert(front[i] == row[i]);
        }
        lemma_placed(front, p, k);
        assert(row.insert(k, p) =~= front.insert(k, p).push(row.last()));
    }
}

/// Whether no phase of a row took longer than one before it.
pub open spec fn falls(row: Seq<PhaseModel>) -> bool {
    forall|i: int, j: int|
        #![trigger row[i], row[j]]
        0 <= i <= j < row.len() ==> row[i].time >= row[j].time
}

proof fn lemma_placed_falls(row: Seq<PhaseModel>, p: PhaseModel)
    requires
        falls(row),
    ensures
        falls(placed(row, p)),
        placed(row, p).to_multiset() == row.to_multiset().insert(p),
        placed(row, p).len() == row.len() + 1,
        placed(row, p).last().time <= p.time,
        row.len() > 0 ==> placed(row, p).last().time <= row.last().time,
    decreases row.len(),
{
    broadcast use vstd::seq_lib::group_to_multiset_ensures;

    if row.len() > 0 && row.last().time < p.time {
        let front = row.drop_last();
        assert(falls(front)) by {
            assert forall|i: int, j: int|
                #![trigger front[i], front[j]]
                0 <= i <= j < front.len() implies front[i].time >= front[j].time by {
                assert(row[i].time >= row[j].time);
            }
        }
        lemma_placed_falls(front, p);
        let head = placed(front, p);
        let all = head.push(row.last());
        assert(row =~= front.push(row.last()));
        assert(all.to_multiset() =~= row.to_multiset().insert(p));
        assert(head.last().time >= row.last().time) by {
            assert(head.to_multiset().contains(head.last()));
            if head.last() != p {
                assert(front.to_multiset().contains(head.last()));
                let i = choose|i: int| 0 <= i < front.len() && front[i] == head.last();
                assert(row[i].time >= row[row.len() - 1].time);
            }
        }
        assert forall|i: int, j: int|
            #![trigger all[i], all[j]]
            0 <= i <= j < all.len() implies all[i].time >= all[j].time by {
            if j < head.len() {
                assert(head[i].time >= head[j].time);
            } else if i < head.len() {
                assert(head[i].time >= head[head.len() - 1].time);
            }
        }
    } else {
        let all = row.push(p);
        assert forall|i: int, j: int|
            #![trigger all[i], all[j]]
            0 <= i <= j < all.len() implies all[i].time >= all[j].time by {
            if j < row.len() {
                assert(row[i].time >= row[j].time);
            } else if i < row.len() {
                assert(row[i].time >= row[row.len() - 1].time);
            }
        }
    }
}

/// The report leaves no phase out, and no phase stands behind one that took less
/// time.
pub proof fn the_expensive_phase_comes_first(ps: Seq<PhaseModel>)
    ensures
        falls(widest_first(ps)),
        widest_first(ps).to_multiset() == ps.to_multiset(),
        widest_first(ps).len() == ps.len(),
    decreases ps.len(),
{
    broadcast use vstd::seq_lib::group_to_multiset_ensures;

    if ps.len() > 0 {
        the_expensive_phase_comes_first(ps.drop_last());
        lemma_placed_falls(widest_first(ps.drop_last()), ps.last());
        assert(ps =~= ps.drop_last().push(ps.last()));
    } else {
        assert(ps =~= Seq::empty());
    }
}

/// A time in milliseconds, to three decimals.
fn millis(nanos: u64) -> (r: String)
    ensures
        r@ == millis_text(nanos),
{
    let us = count_micros(nanos);
    let mut s = String::new();
    push_wide(&mut s, us / 1000);
    push_text(&mut s, ".");
    let rest: u64 = (us % 1000) as u64;
    push_number(&mut s, (rest / 100) % 10);
    push_number(&mut s, (rest / 10) % 10);
    push_number(&mut s, rest % 10);
    assert(s@ =~= millis_text(nanos));
    s
}

/// A time in milliseconds, right-aligned over seven places.
fn wide(nanos: u64) -> (r: String)
    ensures
        r@ == wide_millis(nanos),
{
    let text = millis(nanos);
    let used: usize = text.as_str().unicode_len();
    let mut s = String::new();
    let mut k: usize = used;
    while k < 7
        invariant
            used <= k,
            k <= 7 || k == used,
            s@ == Seq::new((k - used) as nat, |i: int| ' '),
        decreases 7 - k,
    {
        s.push(' ');
        assert(s@ =~= Seq::new((k + 1 - used) as nat, |i: int| ' '));
        k += 1;
    }
    assert(s@ =~= blanks(7, used as nat));
    push_text(&mut s, text.as_str());
    s
}

/// How long it is from one reading of a clock to another, in nanoseconds.
pub open spec fn gap(from: u64, to: u64) -> u64 {
    if to >= from {
        (to - from) as u64
    } else {
        0
    }
}

/// Whether readings were only added.
pub open spec fn marks_grew(a: Seq<Moment>, b: Seq<Moment>) -> bool {
    a.len() <= b.len() && forall|i: int| 0 <= i < a.len() ==> #[trigger] b[i] == a[i]
}

/// `start` and the time between the readings of each couple, one after the other.
pub open spec fn time_in(ms: Seq<Moment>, start: u64) -> u64
    decreases ms.len(),
{
    if ms.len() < 2 {
        start
    } else {
        time_in(ms.take(ms.len() - 2), start).saturating_add(
            gap(ms[ms.len() - 2].nanos, ms.last().nanos),
        )
    }
}

/// Whether the time from `a0` to `a1` was measured by couples of readings, and
/// those are the readings that were added.
pub open spec fn measured(m0: Seq<Moment>, a0: u64, m1: Seq<Moment>, a1: u64) -> bool {
    &&& marks_grew(m0, m1)
    &&& (m1.len() - m0.len()) % 2 == 0
    &&& a1 == time_in(m1.skip(m0.len() as int), a0)
}

proof fn lemma_time_add(x: Seq<Moment>, y: Seq<Moment>, a: u64)
    requires
        y.len() % 2 == 0,
    ensures
        time_in(x + y, a) == time_in(y, time_in(x, a)),
    decreases y.len(),
{
    if y.len() == 0 {
        assert(x + y =~= x);
    } else {
        let n = y.len() - 2;
        lemma_time_add(x, y.take(n), a);
        assert((x + y).take((x + y).len() - 2) =~= x + y.take(n));
    }
}

/// Nothing measured.
pub proof fn lemma_measured_none(m: Seq<Moment>, a: u64)
    ensures
        measured(m, a, m, a),
{
}

/// One couple of readings.
pub proof fn lemma_measured_one(m0: Seq<Moment>, a0: u64, x: Moment, y: Moment)
    ensures
        measured(
            m0,
            a0,
            m0.push(x).push(y),
            a0.saturating_add(gap(x.nanos, y.nanos)),
        ),
{
    let ms = m0.push(x).push(y).skip(m0.len() as int);
    assert(ms =~= seq![x, y]);
    assert(time_in(ms.take(0), a0) == a0);
}

/// What was measured in two stretches was measured in both together.
pub proof fn lemma_measured_trans(
    m0: Seq<Moment>,
    a0: u64,
    m1: Seq<Moment>,
    a1: u64,
    m2: Seq<Moment>,
    a2: u64,
)
    requires
        measured(m0, a0, m1, a1),
        measured(m1, a1, m2, a2),
    ensures
        measured(m0, a0, m2, a2),
{
    let x = m1.skip(m0.len() as int);
    let y = m2.skip(m1.len() as int);
    lemma_time_add(x, y, a0);
    assert(m2.skip(m0.len() as int) =~= x + y);
}

/// How much of a time has gone by.
pub(crate) fn elapsed(from: u64, to: u64) -> (r: u64)
    ensures
        r == gap(from, to),
{
    if to >= from {
        to - from
    } else {
        0
    }
}

/// One phase of a pass: how long it took, and its line in the report.
struct Phase {
    time: u64,
    line: String,
}

spec fn phase_models(v: Seq<Phase>) -> Seq<PhaseModel> {
    v.map_values(|p: Phase| PhaseModel { time: p.time, line: p.line@ })
}

/// Puts a phase behind those that took as long or longer.
fn place_phase(row: &mut Vec<Phase>, p: Phase)
    ensures
        phase_models(final(row)@) == placed(
            phase_models(old(row)@),
            PhaseModel { time: p.time, line: p.line@ },
        ),
{
    let ghost before = phase_models(row@);
    let ghost m = PhaseModel { time: p.time, line: p.line@ };
    let mut k: usize = row.len();
    while k > 0 && row[k - 1].time < p.time
        invariant
            k <= row@.len(),
            before == phase_models(row@),
            forall|i: int| k <= i < row@.len() ==> (#[trigger] before[i]).time < p.time,
        decreases k,
    {
        k -= 1;
    }
    proof {
        lemma_placed(before, m, k as int);
    }
    let ghost old_row = row@;
    row.insert(k, p);
    assert(phase_models(row@) =~= before.insert(k as int, m));
}

impl Default for Timings {
    fn default() -> (r: Self)
        ensures
            r@ == no_findings(),
            r.topology == 0 && r.fdb == 0 && r.vf_macs == 0 && r.orphans == 0 && r.pairs == 0
                && r.total == 0,
    {
        Timings::new()
    }
}

impl Timings {
    /// Nothing found, no time spent.
    pub fn new() -> (r: Self)
        ensures
            r@ == no_findings(),
            r.topology == 0 && r.fdb == 0 && r.vf_macs == 0 && r.orphans == 0 && r.pairs == 0
                && r.total == 0,
    {
        let r = Timings {
            topology: 0,
            fdb: 0,
            vf_macs: 0,
            orphans: 0,
            pairs: 0,
            total: 0,
            links: 0,
            fdb_entries: 0,
            vf_addresses: 0,
            vf_carried: false,
            added: 0,
            removed: 0,
            failures: Vec::new(),
        };
        assert(texts(r.failures@) =~= Seq::empty());
        r
    }

    /// The line of reading the host.
    fn topology_line(&self) -> (r: String)
        ensures
            r@ == phases(*self)[0].line,
    {
        let mut s = String::new();
        push_text(&mut s, "    topology  ");
        push_text(&mut s, wide(self.topology).as_str());
        push_text(&mut s, " ms  ");
        push_number(&mut s, self.links as u64);
        push_text(&mut s, " links\n");
        assert(s@ =~= phases(*self)[0].line);
        s
    }

    /// The line of the forwarding table.
    fn fdb_line(&self) -> (r: String)
        ensures
            r@ == phases(*self)[1].line,
    {
        let mut s = String::new();
        push_text(&mut s, "    fdb dump  ");
        push_text(&mut s, wide(self.fdb).as_str());
        push_text(&mut s, " ms  ");
        push_number(&mut s, self.fdb_entries as u64);
        push_text(&mut s, " entries\n");
        assert(s@ =~= phases(*self)[1].line);
        s
    }

    /// The line of the questions to the driver.
    fn vf_line(&self) -> (r: String)
        ensures
            r@ == phases(*self)[2].line,
    {
        let mut s = String::new();
        push_text(&mut s, "    vf macs   ");
        push_text(&mut s, wide(self.vf_macs).as_str());
        push_text(&mut s, " ms  ");
        push_number(&mut s, self.vf_addresses as u64);
        push_text(&mut s, " addresses");
        if self.vf_carried {
            push_text(&mut s, " (carried over)\n");
        } else {
            push_text(&mut s, "\n");
        }
        assert(s@ =~= phases(*self)[2].line);
        s
    }

    /// The line of the orphans.
    fn orphans_line(&self) -> (r: String)
        ensures
            r@ == phases(*self)[3].line,
    {
        let mut s = String::new();
        push_text(&mut s, "    orphans   ");
        push_text(&mut s, wide(self.orphans).as_str());
        push_text(&mut s, " ms\n");
        assert(s@ =~= phases(*self)[3].line);
        s
    }

    /// The line of the pairs.
    fn pairs_line(&self) -> (r: String)
        ensures
            r@ == phases(*self)[4].line,
    {
        let mut s = String::new();
        push_text(&mut s, "    pairs     ");
        push_text(&mut s, wide(self.pairs).as_str());
        push_text(&mut s, " ms  +");
        push_number(&mut s, self.added as u64);
        push_text(&mut s, " -");
        push_number(&mut s, self.removed as u64);
        push_text(&mut s, "\n");
        assert(s@ =~= phases(*self)[4].line);
        s
    }

    /// The phases, the longest first.
    fn ranked_phases(&self) -> (r: Vec<Phase>)
        ensures
            phase_models(r@) == widest_first(phases(*self)),
    {
        let ghost ps = phases(*self);
        let mut row: Vec<Phase> = Vec::new();
        assert(phase_models(row@) =~= Seq::empty());
        place_phase(&mut row, Phase { time: self.topology, line: self.topology_line() });
        place_phase(&mut row, Phase { time: self.fdb, line: self.fdb_line() });
        place_phase(&mut row, Phase { time: self.vf_macs, line: self.vf_line() });
        place_phase(&mut row, Phase { time: self.orphans, line: self.orphans_line() });
        place_phase(&mut row, Phase { time: self.pairs, line: self.pairs_line() });
        proof {
            reveal_with_fuel(widest_first, 6);
            assert(ps.drop_last() =~= ps.take(4));
            assert(ps.take(4).drop_last() =~= ps.take(3));
            assert(ps.take(3).drop_last() =~= ps.take(2));
            assert(ps.take(2).drop_last() =~= ps.take(1));
            assert(ps.take(1).drop_last() =~= Seq::empty());
        }
        row
    }

    /// One line per phase, widest first, so that the expensive one is obvious:
    /// phases that took the same time stand in the order in which they run.
    pub fn report(&self) -> (r: String)
        ensures
            r@ == report_text(*self),
    {
        let mut s = String::new();
        push_text(&mut s, "  pass total ");
        push_text(&mut s, millis(self.total).as_str());
        push_text(&mut s, " ms\n");
        let row = self.ranked_phases();
        let ghost top = s@;
        let ghost ms = phase_models(row@);
        let mut k: usize = 0;
        assert(ms.take(0) =~= Seq::empty());
        assert(s@ =~= top + phase_lines(ms.take(0)));
        while k < row.len()
            invariant
                ms == phase_models(row@),
                k <= row@.len(),
                s@ == top + phase_lines(ms.take(k as int)),
            decreases row@.len() - k,
        {
            proof {
                let next = ms.take(k + 1);
                assert(next.drop_last() =~= ms.take(k as int));
                assert(next.last() == ms[k as int]);
            }
            push_text(&mut s, row[k].line.as_str());
            assert(s@ =~= top + phase_lines(ms.take(k + 1)));
            k += 1;
        }
        assert(ms.take(k as int) =~= ms);
        let ghost head = s@;
        let ghost all = texts(self.failures@);
        let mut i: usize = 0;
        assert(all.take(0) =~= Seq::empty());
        assert(s@ =~= head + failure_lines(all.take(0)));
        while i < self.failures.len()
            invariant
                all == texts(self.failures@),
                i <= self.failures@.len(),
                s@ == head + failure_lines(all.take(i as int)),
            decreases self.failures@.len() - i,
        {
            proof {
                let next = all.take(i + 1);
                assert(next.drop_last() =~= all.take(i as int));
                assert(next.last() == self.failures@[i as int]@);
            }
            push_text(&mut s, "    failure: ");
            push_text(&mut s, self.failures[i].as_str());
            push_text(&mut s, "\n");
            assert(s@ =~= head + failure_lines(all.take(i + 1)));
            i += 1;
        }
        assert(all.take(i as int) =~= all);
        assert(s@ =~= report_text(*self));
        s
    }
}

} // verus!
