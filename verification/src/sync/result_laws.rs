//! What a pass leaves behind: its reports, and what is known until the next one.

use vstd::prelude::*;

use crate::mac::Mac;
use crate::netlink::{Errno, FdbEntry, Op};
use crate::sync::batch::{keeps_shed_from, shed_out, shed_remembered, sheddable};
use crate::sync::card::{
    batch_noted, batch_registered, lemma_sound_ask, lemma_sound_start, lemma_taken_out_asks,
    taken_out, Ground, OutcomeModel, RegisteredModel, Why,
};
use crate::sync::decide::{live_functions, wire_set};
use crate::sync::files::{grew, lemma_grew_same, lemma_grew_trans, since, wrote};
use crate::sync::filter_laws::{learnt_on_wire, the_wire_is_the_uplinks_port};
use crate::sync::laws::{asked, lemma_pass_made};
use crate::sync::limit_laws::{lemma_released_order, silent_longer};
use crate::sync::memory::lemma_filework_saved;
use crate::sync::notes::{
    index_in, index_name, index_noted, lock_asked, recorded_index_reads_back, BookModel,
};
use crate::sync::orphans::{renamed_state, without_device, Run};
use crate::sync::pass::{
    batch_passed, evicted, index_passed, lists, own_entries, pair_carried, pair_registered,
    pair_remembered, pair_retired, place_of, report_is, Added, Decision, Dropped, Pass, Progress,
};
use crate::sync::pass_laws::{
    asked_out, dump_shows, lemma_dump_shows, lemma_opened, lemma_steps, Steps,
};
use crate::sync::reconcile::{
    added_total, answer_first, pair_devs, pair_finished, pair_written, pair_passed, pairs_passed, pass_made, reconciled, stamp_after,
    table_reconciled,
};
use crate::sync::syncer::SyncerModel;
use crate::sync::types::{PairModel, Report};
use crate::sync::valve::released;
use crate::text::digits;
use crate::topology::{AnatomyModel, TopologyModel};
use crate::topology::path_laws::the_first_bridge_over_the_masters;

verus! {

/// How many of these pairs stand under their bridges.
pub open spec fn standing(t: TopologyModel, pairs: Seq<PairModel>) -> nat
    decreases pairs.len(),
{
    if pairs.len() == 0 {
        0
    } else {
        standing(t, pairs.drop_last()) + if place_of(t, pairs.last()) is Some {
            1nat
        } else {
            0nat
        }
    }
}

proof fn lemma_reports(c: Pass, pairs: Seq<PairModel>, ps: Seq<Progress>, n: int, i: int)
    requires
        pairs_passed(c, pairs, ps),
        0 <= i <= n <= pairs.len(),
        ps[0].reports.len() == 0,
    ensures
        ps[n].reports.len() == standing(c.t, pairs.take(n)),
        i < n && place_of(c.t, pairs[i]) is Some ==> standing(c.t, pairs.take(i))
            < ps[n].reports.len() && ps[n].reports[standing(c.t, pairs.take(i)) as int].dev@
            == pairs[i].dev && ps[n].reports[standing(c.t, pairs.take(i)) as int].bridge@
            == pairs[i].bridge,
    decreases n,
{
    if n > 0 {
        let k = n - 1;
        assert(pairs.take(n).drop_last() =~= pairs.take(k));
        assert(pairs.take(n).last() == pairs[k]);
        let (p, p2) = (ps[k], ps[n]);
        assert(pair_passed(c, pairs[k], p, p2));
        if i < n {
            lemma_reports(c, pairs, ps, k, i);
        } else {
            lemma_reports(c, pairs, ps, k, k);
        }
        if let Some(anat) = place_of(c.t, pairs[k]) {
            let x = lemma_steps(c, pairs[k], anat, p, p2);
            assert(p2.reports == p.reports.push(p2.reports.last()));
            if i < k && place_of(c.t, pairs[i]) is Some {
                let q = standing(c.t, pairs.take(i)) as int;
                assert(p2.reports[q] == p.reports[q]);
            }
        }
    } else {
        assert(pairs.take(0) =~= Seq::<PairModel>::empty());
    }
}

/// A pass reports on every pair that stands under its bridge, and on no other, in
/// the order of the pairs.
pub proof fn every_standing_pair_is_reported(
    t: TopologyModel,
    apply: bool,
    s: SyncerModel,
    log: Seq<Op>,
    s2: SyncerModel,
    log2: Seq<Op>,
    reports: Seq<Report>,
    i: int,
)
    requires
        reconciled(t, apply, s, log, s2, log2, Ok(reports)),
        0 <= i < s.pairs.len(),
    ensures
        reports.len() == standing(t, s.pairs),
        place_of(t, s.pairs[i]) is Some ==> {
            let n = standing(t, s.pairs.take(i)) as int;
            &&& n < reports.len()
            &&& reports[n].dev@ == s.pairs[i].dev
            &&& reports[n].bridge@ == s.pairs[i].bridge
        },
{
    let (c, ps) = lemma_opened(t, apply, s, log, s2, log2, reports);
    let n = s.pairs.len() as int;
    assert(ps.last() == ps[n]);
    lemma_reports(c, s.pairs, ps, n, i);
    assert(s.pairs.take(n) =~= s.pairs);
}

proof fn lemma_wire_step(c: Pass, pair: PairModel, p: Progress, p2: Progress)
    requires
        pair_passed(c, pair, p, p2),
    ensures
        match place_of(c.t, pair) {
            Some(anat) => p2.run.s.carried_wire == p.run.s.carried_wire.insert(
                pair.dev,
                wire_set(c.t.links, anat, c.fdb),
            ),
            None => p2.run.s.carried_wire == p.run.s.carried_wire,
        },
{
    if let Some(anat) = place_of(c.t, pair) {
        let x = lemma_steps(c, pair, anat, p, p2);
        assert(x.sa.carried_wire == p.run.s.carried_wire);
        assert(x.sb.carried_wire == x.sa.carried_wire);
        assert(x.sc.carried_wire == x.sb.carried_wire.insert(
            pair.dev,
            wire_set(c.t.links, anat, c.fdb),
        ));
        crate::sync::pass_laws::lemma_written_wires(
            c,
            pair,
            anat,
            crate::sync::notes::owned_in(x.sa.book.dir, pair.dev),
            x.sa.book.readable(pair.dev),
            x.d,
            Run { s: x.sc, log: x.lb, failures: p.run.failures },
            p.reports,
            p2,
        );
    }
}

proof fn lemma_wires_kept(
    c: Pass,
    pairs: Seq<PairModel>,
    ps: Seq<Progress>,
    n: int,
    i: int,
    anat: AnatomyModel,
)
    requires
        pairs_passed(c, pairs, ps),
        0 <= i < n <= pairs.len(),
        place_of(c.t, pairs[i]) == Some(anat),
    ensures
        ps[n].run.s.carried_wire.contains_key(pairs[i].dev),
        ps[n].run.s.carried_wire[pairs[i].dev] == wire_set(c.t.links, anat, c.fdb),
    decreases n,
{
    let k = n - 1;
    assert(pair_passed(c, pairs[k], ps[k], ps[n]));
    lemma_wire_step(c, pairs[k], ps[k], ps[n]);
    if i < k {
        lemma_wires_kept(c, pairs, ps, k, i, anat);
        if pairs[k].dev == pairs[i].dev && place_of(c.t, pairs[k]) is Some {
            assert(place_of(c.t, pairs[k]) == place_of(c.t, pairs[i]));
        }
    }
}

/// What the event path goes by until the next pass is what this one saw on the
/// wire of each uplink: the addresses that the table shows on the uplink's own
/// port.
pub proof fn a_pass_remembers_every_wire(
    t: TopologyModel,
    apply: bool,
    s: SyncerModel,
    log: Seq<Op>,
    s2: SyncerModel,
    log2: Seq<Op>,
    reports: Seq<Report>,
    fdb: Seq<FdbEntry>,
    i: int,
    anat: AnatomyModel,
    m: Mac,
)
    requires
        t.links.dom().finite(),
        reconciled(t, apply, s, log, s2, log2, Ok(reports)),
        log2[log.len() as int] == (Op::DumpFdb { table: Ok(fdb) }),
        0 <= i < s.pairs.len(),
        place_of(t, s.pairs[i]) == Some(anat),
    ensures
        s2.carried_wire.contains_key(s.pairs[i].dev),
        s2.carried_wire[s.pairs[i].dev].contains(m) <==> learnt_on_wire(fdb, anat.port, m),
{
    let (c, ps) = lemma_opened(t, apply, s, log, s2, log2, reports);
    let n = s.pairs.len() as int;
    assert(ps.last() == ps[n]);
    lemma_wires_kept(c, s.pairs, ps, n, i, anat);
    the_first_bridge_over_the_masters(t.links, anat.dev, anat.bridge, anat.port);
    the_wire_is_the_uplinks_port(t.links, anat, fdb, m);
}

/// On an answer that is carried over nothing grows: a pass over a pair that gets
/// by without asking the driver wants nothing that the dump does not show in the
/// card, and keeps nothing that the pass before did not say it keeps.
pub proof fn a_carried_answer_grows_nothing(
    c: Pass,
    pair: PairModel,
    anat: AnatomyModel,
    p: Progress,
    p2: Progress,
) -> (x: Steps)
    requires
        pair_passed(c, pair, p, p2),
        place_of(c.t, pair) == Some(anat),
        p2.vf_carried,
    ensures
        crate::sync::pass_laws::are_steps(c, pair, anat, p, p2, x),
        forall|m: Mac| #[trigger] x.d.want.contains(m) ==> dump_shows(c.fdb, anat.dev, m),
        forall|m: Mac| #[trigger]
            x.d.kept.contains(m) ==> x.sa.book.said.quiet.contains_key(pair.dev)
                && x.sa.book.said.quiet[pair.dev].contains(m),
{
    let x = lemma_steps(c, pair, anat, p, p2);
    let owned = crate::sync::notes::owned_in(x.sa.book.dir, pair.dev);
    let shed = choose|shed: Seq<Mac>| #[trigger]
        crate::sync::pass::pair_shed(c, anat, pair.dev, owned, x.sb, shed, x.d);
    assert(!crate::sync::pass::would_grow(c, anat, pair.dev, owned, x.sb));
    assert forall|m: Mac| #[trigger] x.d.want.contains(m) implies dump_shows(
        c.fdb,
        anat.dev,
        m,
    ) by {
        assert(crate::sync::pass::want_of(c, anat, pair.dev, owned, x.sb).contains(m));
        assert(own_entries(c.fdb, anat.dev).contains(m));
        lemma_dump_shows(c.fdb, anat.dev, m);
    }
    assert forall|m: Mac| #[trigger]
        x.d.kept.contains(m) implies x.sa.book.said.quiet.contains_key(pair.dev)
        && x.sa.book.said.quiet[pair.dev].contains(m) by {
        assert(crate::sync::pass::kept_of(c, anat, pair.dev, owned, x.sb).contains(m));
        assert(x.sb == x.sa);
    }
    x
}

/// A pass is stamped later than the one before, whatever the clock says, and not
/// before the clock; only at the end of time do two share a stamp.
pub proof fn a_pass_is_stamped_later_than_the_last(last: u64, now: u64)
    ensures
        stamp_after(last, now) >= now,
        stamp_after(last, now) > last || last == u64::MAX,
        now > last ==> stamp_after(last, now) == now,
        now <= last && last < u64::MAX ==> stamp_after(last, now) == last + 1,
{
}

/// Whether what was asked between two states of the log was asked under the lock
/// of a device's note: it was taken first, and let go at the end.
pub open spec fn under_lock(log: Seq<Op>, log2: Seq<Op>, dev: Seq<char>) -> bool {
    &&& log.len() + 2 <= log2.len()
    &&& log2[log.len() as int] matches Op::Lock { dev: d, .. } && d == dev
    &&& log2.last() matches Op::Unlock { dev: d } && d == dev
}

/// Note and card are brought in step under the note's lock: both registering a
/// batch and taking addresses out begin with it and end with letting it go.
pub proof fn note_and_card_change_under_the_lock(
    b: BookModel,
    log: Seq<Op>,
    dev: Seq<char>,
    index: u32,
    macs: Seq<Mac>,
    b2: BookModel,
    log2: Seq<Op>,
    reg: Option<RegisteredModel>,
    o: OutcomeModel,
    why: Why,
)
    ensures
        batch_registered(b, log, dev, index, macs, b2, log2, reg) ==> under_lock(log, log2, dev),
        taken_out(b, log, dev, index, macs, b2, log2, o, why) ==> under_lock(log, log2, dev),
{
    if batch_registered(b, log, dev, index, macs, b2, log2, reg) {
        let (bl, ll, l2) = choose|bl: BookModel, ll: Seq<Op>, l2: Seq<Op>|
            {
                &&& #[trigger] lock_asked(b, log, dev, bl, ll)
                &&& #[trigger] batch_noted(bl, ll, dev, index, macs, b2, l2, reg)
                &&& log2 == l2.push(Op::Unlock { dev })
            };
        crate::sync::pass_laws::lemma_noted_grew(bl, ll, dev, index, macs, b2, l2, reg);
        assert(l2.take(ll.len() as int)[log.len() as int] == ll[log.len() as int]);
    }
    if taken_out(b, log, dev, index, macs, b2, log2, o, why) {
        let (bl, ll, l1, l2) = choose|bl: BookModel, ll: Seq<Op>, l1: Seq<Op>, l2: Seq<Op>|
            {
                &&& #[trigger] lock_asked(b, log, dev, bl, ll)
                &&& grew(ll, l1)
                &&& #[trigger] crate::sync::notes::note_forgets(
                    crate::sync::card::outcome_said(bl, dev, o, why),
                    l1,
                    dev,
                    o.settled,
                    b2,
                    l2,
                )
                &&& log2 == l2.push(Op::Unlock { dev })
            };
        crate::sync::notes::lemma_filework_forgets(
            crate::sync::card::outcome_said(bl, dev, o, why),
            l1,
            dev,
            o.settled,
            b2,
            l2,
        );
        lemma_grew_trans(ll, l1, l2);
        assert(l2.take(ll.len() as int)[log.len() as int] == ll[log.len() as int]);
    }
}

/// Which interface a note is about is recorded beside it, as the interface's own
/// index: where it is not known to be recorded already, the record is asked to
/// say so, and reads back as that index once it does.
pub proof fn the_interface_is_recorded(
    b: BookModel,
    log: Seq<Op>,
    dev: Seq<char>,
    index: u32,
    b2: BookModel,
    log2: Seq<Op>,
)
    requires
        index_noted(b, log, dev, index, b2, log2),
    ensures
        b2.indices.contains_key(dev),
        b2.indices[dev] == index,
        !(b.indices.contains_key(dev) && b.indices[dev] == index) ==> log.len() < log2.len() && (
        log2[log.len() as int] matches Op::Put { name, text, refused } && name == index_name(dev)
            && text == digits(index as nat).push('\n') && (refused is None ==> index_in(
            b2.dir,
            dev,
        ) == Some(index as nat))),
        forall|other: Seq<char>|
            other != dev ==> (#[trigger] b2.indices.contains_key(other)
                == b.indices.contains_key(other)) && b2.indices[other] == b.indices[other],
{
    if !(b.indices.contains_key(dev) && b.indices[dev] == index) {
        let put = Op::Put {
            name: index_name(dev),
            text: crate::sync::notes::index_text(index),
            refused: None,
        };
        let r = choose|r: bool| #[trigger] wrote(b.dir, log, put, b2.dir, log2, r);
        let ops = since(log, log2);
        assert(log2[log.len() as int] == ops[0]);
        if r {
            recorded_index_reads_back(b2.dir, dev, index);
        }
    }
}

/// A pass that registers something for an uplink has recorded the uplink's own
/// interface beside its note first, unless it is known to be recorded.
pub proof fn the_uplink_is_recorded_before_its_entries(
    c: Pass,
    anat: AnatomyModel,
    dev: Seq<char>,
    owned: Set<Mac>,
    want: Set<Mac>,
    r: Run,
    r2: Run,
    a: Added,
    m: Mac,
)
    requires
        pair_registered(c, anat, dev, owned, want, r, r2, a),
        c.apply && !r.s.dry_run,
        want.contains(m),
        !dump_shows(c.fdb, anat.dev, m),
        !(r.s.book.indices.contains_key(dev) && r.s.book.indices[dev] == anat.dev),
    ensures
        r.log.len() < r2.log.len(),
        r2.log[r.log.len() as int] matches Op::Put { name, text, .. } && name == index_name(dev)
            && text == digits(anat.dev as nat).push('\n'),
{
    let new = want.difference(own_entries(c.fdb, anat.dev));
    lemma_dump_shows(c.fdb, anat.dev, m);
    let macs = choose|macs: Seq<Mac>|
        {
            &&& #[trigger] lists(macs, new)
            &&& batch_passed(anat, dev, owned, macs, r, r2, a)
        };
    assert(macs.to_set().contains(m));
    assert(macs.contains(m));
    let (b1, l1) = choose|b1: BookModel, l1: Seq<Op>|
        {
            &&& #[trigger] index_passed(r.s.book, r.log, dev, anat.dev, owned, macs, b1, l1)
            &&& exists|reg: Option<RegisteredModel>| #[trigger]
                batch_registered(b1, l1, dev, anat.dev, macs, r2.s.book, r2.log, reg)
        };
    let reg = choose|reg: Option<RegisteredModel>| #[trigger]
        batch_registered(b1, l1, dev, anat.dev, macs, r2.s.book, r2.log, reg);
    the_interface_is_recorded(r.s.book, r.log, dev, anat.dev, b1, l1);
    crate::sync::pass_laws::lemma_batch_grew(
        b1,
        l1,
        dev,
        anat.dev,
        macs,
        r2.s.book,
        r2.log,
        reg,
    );
    assert(r2.log.take(l1.len() as int)[r.log.len() as int] == l1[r.log.len() as int]);
}

/// A burst that is short of slots has kept addresses taken out of the card, the
/// longest-silent first, as many as are needed or as there are, unless the note
/// cannot be read.
pub proof fn a_burst_surrenders_the_longest_silent(
    t: TopologyModel,
    dev: Seq<char>,
    index: u32,
    need: nat,
    s: SyncerModel,
    log: Seq<Op>,
    s2: SyncerModel,
    log2: Seq<Op>,
    freed: nat,
)
    requires
        keeps_shed_from(t, dev, index, need, s, log, s2, log2, freed),
        s.book.readable(dev),
        need > 0,
        sheddable(s, dev) != Set::<Mac>::empty(),
    ensures
        exists|shed: Seq<Mac>|
            {
                &&& #[trigger] shed.no_duplicates()
                &&& shed.len() == if need < sheddable(s, dev).len() {
                    need
                } else {
                    sheddable(s, dev).len()
                }
                &&& forall|m: Mac| #[trigger]
                    shed.contains(m) ==> sheddable(s, dev).contains(m) && asked_out(
                        log,
                        log2,
                        index,
                        m,
                    )
                &&& forall|a: Mac, b: Mac|
                    #![trigger shed.contains(a), sheddable(s, dev).contains(b)]
                    shed.contains(a) && sheddable(s, dev).contains(b) && !shed.contains(b)
                        ==> silent_longer(s.memory.ports(dev), a, b)
            },
{
    let shed = choose|shed: Seq<Mac>|
        {
            &&& #[trigger] released(sheddable(s, dev), s.memory.ports(dev), need, shed)
            &&& shed_out(t, dev, index, shed, s, log, s2, log2, freed)
        };
    let (b1, l1, o) = choose|b1: BookModel, l1: Seq<Op>, o: OutcomeModel|
        {
            &&& #[trigger] taken_out(s.book, log, dev, index, shed, b1, l1, o, Why::Quiet)
            &&& if o.settled.len() == 0 {
                s2 == s.with_book(b1) && log2 == l1 && freed == 0
            } else {
                shed_remembered(
                    t,
                    dev,
                    SyncerModel {
                        book: b1,
                        memory: evicted(s.memory, dev, o.settled.to_set()),
                        ..s
                    },
                    l1,
                    o.settled,
                    s2,
                    log2,
                )
            }
        };
    lemma_grew_same(l1);
    if o.settled.len() > 0 {
        let sm = SyncerModel {
            book: b1,
            memory: evicted(s.memory, dev, o.settled.to_set()),
            ..s
        };
        let b = choose|b: BookModel| #[trigger]
            crate::sync::memory::memory_saved(
                sm.memory,
                sm.book,
                l1,
                t,
                dev,
                sm.passed_at(dev),
                sm.dry_run,
                s2.memory,
                b,
                log2,
            );
        lemma_filework_saved(
            sm.memory,
            sm.book,
            l1,
            t,
            dev,
            sm.passed_at(dev),
            sm.dry_run,
            s2.memory,
            b,
            log2,
        );
    }
    assert forall|m: Mac| #[trigger] shed.contains(m) implies sheddable(s, dev).contains(m)
        && asked_out(log, log2, index, m) by {
        assert(shed.to_set().contains(m));
        let q = choose|q: int| 0 <= q < shed.len() && shed[q] == m;
        let k = lemma_taken_out_asks(
            s.book,
            log,
            dev,
            index,
            shed,
            b1,
            l1,
            o,
            q,
            Why::Quiet,
        );
        assert(log2.take(l1.len() as int)[k] == l1[k]);
        assert(log2[k] == l1[k]);
    }
    lemma_released_order(sheddable(s, dev), s.memory.ports(dev), need, shed);
    assert(shed.no_duplicates());
}

/// A pass does not go on without what it needs: where the forwarding table cannot
/// be read, or the driver does not answer the first question, the error is what
/// comes back, nothing further is asked and nothing is known differently.
pub proof fn a_pass_fails_where_it_is_not_answered(
    t: TopologyModel,
    apply: bool,
    s: SyncerModel,
    log: Seq<Op>,
    s2: SyncerModel,
    log2: Seq<Op>,
    r: Result<Seq<Report>, Errno>,
    e: Errno,
)
    requires
        reconciled(t, apply, s, log, s2, log2, r),
        s.pairs.len() > 0,
    ensures
        log2.len() > log.len(),
        log2[log.len() as int] is DumpFdb,
        log2[log.len() as int] == (Op::DumpFdb { table: Err(e) }) ==> r == Err::<
            Seq<Report>,
            Errno,
        >(e) && s2 == s && log2.len() == log.len() + 1,
        (s.vf_stale || s.carried_vf is None) && log2[log.len() as int]->table is Ok ==> {
            &&& log2.len() > log.len() + 1
            &&& log2[log.len() as int + 1] is VfMacs
            &&& log2[log.len() as int + 1]->answer == Err::<Seq<(u32, Mac)>, Errno>(e) ==> r
                == Err::<Seq<Report>, Errno>(e) && s2 == s && log2.len() == log.len() + 2
        },
{
    let dump = log2[log.len() as int];
    if dump->table is Ok && (s.vf_stale || s.carried_vf is None) {
        let la = log.push(dump);
        let fdb = dump->table->Ok_0;
        let pfs = live_functions(t, pair_devs(s.pairs));
        assert(table_reconciled(t, apply, fdb, pfs, s, la, s2, log2, r));
        let (s1, l1, failed) = choose|s1: SyncerModel, l1: Seq<Op>, failed: Option<Errno>|
            {
                &&& #[trigger] answer_first(s, la, pfs, s1, l1, failed)
                &&& match failed {
                    None => pass_made(t, apply, fdb, pfs, s.vf_usable(pfs), s1, l1, s2, log2, r),
                    Some(e) => r == Err::<Seq<Report>, Errno>(e) && s2 == s1 && log2 == l1,
                }
            };
        assert(!s.vf_usable(pfs));
        if failed is None {
            let g = Ground { t, dir: s.book.dir, quiet: Set::empty() };
            lemma_sound_start(g, log);
            lemma_sound_ask(g, log, s.book.dir, log, dump);
            lemma_sound_ask(g, log, s.book.dir, la, l1.last());
            let ops = since(log, l1);
            assert(ops =~= seq![dump, l1.last()]);
            assert(ops[1] == l1.last());
            assert(asked(ops, pfs, s1.vf_answer()));
            lemma_pass_made(g, log, t, apply, fdb, pfs, false, s1, l1, s2, log2, r);
            assert(log2.take(l1.len() as int)[la.len() as int] == l1[la.len() as int]);
        }
    }
}

/// What a card is known to hold follows what it took and what it let go, for the
/// uplink it happened to and for no other; what it let go is not kept quiet any
/// more either.
pub proof fn what_a_card_took_and_let_go_counts(
    s: SyncerModel,
    dev: Seq<char>,
    macs: Set<Mac>,
    other: Seq<char>,
    m: Mac,
)
    ensures
        s.holding(dev, macs).held(dev).contains(m) <==> s.held(dev).contains(m) || macs.contains(m),
        s.not_holding(dev, macs).held(dev).contains(m) <==> s.held(dev).contains(m)
            && !macs.contains(m),
        s.carried.contains_key(dev) ==> (s.not_holding(dev, macs).carried[dev].quiet.contains(m)
            <==> s.carried[dev].quiet.contains(m) && !macs.contains(m)),
        s.carried.contains_key(dev) ==> s.holding(dev, macs).carried[dev].quiet
            == s.carried[dev].quiet,
        other != dev ==> s.holding(dev, macs).held(other) == s.held(other) && s.not_holding(
            dev,
            macs,
        ).held(other) == s.held(other),
        s.holding(dev, macs).passed_at(dev) == s.passed_at(dev),
        s.not_holding(dev, macs).passed_at(dev) == s.passed_at(dev),
{
}

/// A renamed uplink keeps what is known of it under its new name: the memory of
/// its addresses, its wire and what its card holds; under the old name nothing is
/// known any more, and of everybody else what was.
pub proof fn a_renamed_uplink_keeps_what_is_known_of_it(
    s: SyncerModel,
    from: Seq<char>,
    to: Seq<char>,
    other: Seq<char>,
)
    requires
        from != to,
        other != from,
        other != to,
    ensures
        ({
            let s2 = renamed_state(s, from, to);
            &&& s.memory.carried.contains_key(from) ==> s2.memory.carried.contains_key(to)
                && s2.memory.carried[to] == s.memory.carried[from] && s2.memory.loaded.contains(to)
            &&& s.carried_wire.contains_key(from) ==> s2.carried_wire.contains_key(to)
                && s2.carried_wire[to] == s.carried_wire[from]
            &&& s.carried.contains_key(from) ==> s2.carried.contains_key(to) && s2.carried[to]
                == s.carried[from]
            &&& !s2.memory.carried.contains_key(from)
            &&& !s2.memory.loaded.contains(from)
            &&& !s2.carried_wire.contains_key(from)
            &&& !s2.carried.contains_key(from)
            &&& s2.memory.carried.contains_key(other) == s.memory.carried.contains_key(other)
            &&& s2.memory.carried[other] == s.memory.carried[other]
            &&& s2.carried_wire.contains_key(other) == s.carried_wire.contains_key(other)
            &&& s2.carried_wire[other] == s.carried_wire[other]
            &&& s2.carried.contains_key(other) == s.carried.contains_key(other)
            &&& s2.carried[other] == s.carried[other]
        }),
{
}

/// An uplink that is one no more is forgotten, and nobody else is.
pub proof fn a_dropped_uplink_is_forgotten(s: SyncerModel, dev: Seq<char>, other: Seq<char>)
    requires
        other != dev,
    ensures
        ({
            let s2 = without_device(s, dev);
            &&& !s2.memory.carried.contains_key(dev)
            &&& !s2.memory.loaded.contains(dev)
            &&& !s2.carried_wire.contains_key(dev)
            &&& !s2.carried.contains_key(dev)
            &&& s2.memory.carried.contains_key(other) == s.memory.carried.contains_key(other)
            &&& s2.memory.carried[other] == s.memory.carried[other]
            &&& s2.carried_wire.contains_key(other) == s.carried_wire.contains_key(other)
            &&& s2.carried_wire[other] == s.carried_wire[other]
            &&& s2.carried.contains_key(other) == s.carried.contains_key(other)
            &&& s2.carried[other] == s.carried[other]
        }),
{
}

/// The addresses that the dump shows in an interface's own filter.
pub open spec fn shown_in(fdb: Seq<FdbEntry>, index: u32) -> Set<Mac> {
    Set::new(|m: Mac| dump_shows(fdb, index, m))
}

proof fn lemma_shown_in(fdb: Seq<FdbEntry>, index: u32)
    ensures
        own_entries(fdb, index) == shown_in(fdb, index),
{
    assert forall|m: Mac| own_entries(fdb, index).contains(m) <==> shown_in(fdb, index).contains(
        m,
    ) by {
        lemma_dump_shows(fdb, index, m);
    }
    assert(own_entries(fdb, index) =~= shown_in(fdb, index));
}

/// The numbers of a report: how much is wanted and how much of it is only kept,
/// how much the dump shows in the uplink's own filter, and of what is wanted how
/// much was there without being on the note. The port is named, and so is the
/// driver, if there is one.
pub proof fn a_report_counts_what_was_found(
    c: Pass,
    pair: PairModel,
    anat: AnatomyModel,
    before: Set<Mac>,
    d: Decision,
    a: Added,
    x: Dropped,
    s: SyncerModel,
    r: Report,
)
    requires
        report_is(c, pair, anat, before, d, a, x, s, r),
    ensures
        r.wanted == d.want.len(),
        r.quiet == d.kept.len(),
        r.present == shown_in(c.fdb, anat.dev).len(),
        r.foreign == Set::new(
            |m: Mac| d.want.contains(m) && dump_shows(c.fdb, anat.dev, m) && !before.contains(m),
        ).len(),
        r.owned == x.owned.len(),
        r.added == a.count,
        r.removed == x.count,
        c.t.links.contains_key(anat.port) ==> r.port@ == c.t.links[anat.port].name,
        c.t.links[anat.dev].driver is None ==> r.driver@.len() == 0,
        c.t.links[anat.dev].driver matches Some(n) ==> r.driver@ == n,
        r.detail is Some <==> s.detail,
{
    lemma_shown_in(c.fdb, anat.dev);
    let both = d.want.intersect(own_entries(c.fdb, anat.dev)).difference(before);
    let named = Set::new(
        |m: Mac| d.want.contains(m) && dump_shows(c.fdb, anat.dev, m) && !before.contains(m),
    );
    assert(both =~= named) by {
        assert forall|m: Mac| both.contains(m) <==> named.contains(m) by {
            lemma_dump_shows(c.fdb, anat.dev, m);
        }
    }
}

/// How many addresses these reports say were put in.
pub open spec fn sum_added(reports: Seq<Report>) -> nat
    decreases reports.len(),
{
    if reports.len() == 0 {
        0
    } else {
        reports[0].added as nat + sum_added(reports.skip(1))
    }
}

proof fn lemma_sum_added(reports: Seq<Report>)
    ensures
        added_total(reports) == sum_added(reports),
    decreases reports.len(),
{
    if reports.len() == 1 {
        assert(reports.skip(1) =~= Seq::<Report>::empty());
        assert(reports.drop_last() =~= Seq::<Report>::empty());
        assert(added_total(reports.drop_last()) == 0);
        assert(sum_added(reports.skip(1)) == 0);
    } else if reports.len() > 1 {
        let rest = reports.skip(1);
        let front = reports.drop_last();
        lemma_sum_added(front);
        lemma_sum_added(rest);
        lemma_sum_added(front.skip(1));
        assert(rest.drop_last() =~= front.skip(1));
        assert(rest.last() == reports.last());
    }
}

/// What a pass is remembered by: how many interfaces the host has, how many
/// entries the table, how many addresses the driver gave, and how many went in.
pub proof fn a_pass_is_remembered_by_its_numbers(
    t: TopologyModel,
    apply: bool,
    s: SyncerModel,
    log: Seq<Op>,
    s2: SyncerModel,
    log2: Seq<Op>,
    reports: Seq<Report>,
    fdb: Seq<FdbEntry>,
)
    requires
        reconciled(t, apply, s, log, s2, log2, Ok(reports)),
        s.pairs.len() > 0,
        log2[log.len() as int] == (Op::DumpFdb { table: Ok(fdb) }),
    ensures
        t.links.dom().len() <= usize::MAX ==> s2.timings.links == t.links.dom().len(),
        fdb.len() <= usize::MAX ==> s2.timings.fdb_entries == fdb.len(),
        s2.vf_answer().len() <= usize::MAX ==> s2.timings.vf_addresses == s2.vf_answer().len(),
        sum_added(reports) <= usize::MAX ==> s2.timings.added == sum_added(reports),
{
    let (c, ps) = lemma_opened(t, apply, s, log, s2, log2, reports);
    lemma_sum_added(reports);
}

/// What is known of a card after a pass over its uplink: whatever the dump shows
/// there, unless it was asked out, and nothing that the dump does not show and
/// that was not put there. What is kept is what was decided to be.
pub proof fn a_pass_knows_what_the_card_holds(
    c: Pass,
    pair: PairModel,
    anat: AnatomyModel,
    owned: Set<Mac>,
    readable: bool,
    d: Decision,
    r: Run,
    reports: Seq<Report>,
    p2: Progress,
    m: Mac,
)
    requires
        pair_written(c, pair, anat, owned, readable, d, r, reports, p2),
    ensures
        p2.run.s.carried.contains_key(pair.dev),
        p2.run.s.carried[pair.dev].quiet == d.kept,
        readable ==> p2.run.s.carried[pair.dev].passed_at == c.pass_at,
        dump_shows(c.fdb, anat.dev, m) && d.want.contains(m)
            ==> p2.run.s.carried[pair.dev].present.contains(m),
        dump_shows(c.fdb, anat.dev, m) && !owned.contains(m)
            ==> p2.run.s.carried[pair.dev].present.contains(m),
        p2.run.s.carried[pair.dev].present.contains(m) ==> dump_shows(c.fdb, anat.dev, m)
            || d.want.contains(m),
{
    let (r1, a, r2, x) = choose|r1: Run, a: Added, r2: Run, x: Dropped|
        {
            &&& #[trigger] pair_registered(c, anat, pair.dev, owned, d.want, r, r1, a)
            &&& #[trigger] pair_retired(c, anat, pair.dev, a.owned, d.want, r1, r2, x)
            &&& pair_finished(c, pair, anat, owned, readable, d, a, x, r2, reports, p2)
        };
    lemma_dump_shows(c.fdb, anat.dev, m);
    lemma_landed(c, anat, pair.dev, owned, d.want, r, r1, a);
    lemma_gone(c, anat, pair.dev, a.owned, d.want, r1, r2, x);
    let s3 = choose|s3: SyncerModel|
        {
            &&& #[trigger] pair_remembered(
                c,
                anat,
                pair.dev,
                owned,
                x.owned,
                readable,
                r2.s,
                r2.log,
                s3,
                p2.run.log,
            )
            &&& p2.run.s == pair_carried(c, anat, pair.dev, d, a.landed, x.gone, readable, s3)
        };
    assert(p2.run.s.carried[pair.dev].present == own_entries(c.fdb, anat.dev).union(
        a.landed,
    ).difference(x.gone));
}

proof fn lemma_landed(
    c: Pass,
    anat: AnatomyModel,
    dev: Seq<char>,
    owned: Set<Mac>,
    want: Set<Mac>,
    r: Run,
    r2: Run,
    a: Added,
)
    requires
        pair_registered(c, anat, dev, owned, want, r, r2, a),
    ensures
        forall|m: Mac| #[trigger]
            a.landed.contains(m) ==> want.contains(m) && !own_entries(c.fdb, anat.dev).contains(m),
        forall|m: Mac| #[trigger]
            a.owned.contains(m) ==> owned.contains(m) || want.contains(m),
        r2.s.dry_run == r.s.dry_run,
{
    let new = want.difference(own_entries(c.fdb, anat.dev));
    if c.apply && !r.s.dry_run {
        let macs = choose|macs: Seq<Mac>|
            {
                &&& #[trigger] lists(macs, new)
                &&& batch_passed(anat, dev, owned, macs, r, r2, a)
            };
        let none = Added { count: 0, owned, landed: Set::empty() };
        let (b1, l1) = choose|b1: BookModel, l1: Seq<Op>|
            {
                &&& #[trigger] index_passed(r.s.book, r.log, dev, anat.dev, owned, macs, b1, l1)
                &&& if macs.len() == 0 {
                    a == none
                } else {
                    exists|reg: Option<RegisteredModel>| #[trigger]
                        batch_registered(
                            b1,
                            l1,
                            dev,
                            anat.dev,
                            macs,
                            r2.s.book,
                            r2.log,
                            reg,
                        ) && match reg {
                            Some(x) => a == (Added {
                                count: x.put.len(),
                                owned: owned.union(x.put.to_set()),
                                landed: x.held.to_set(),
                            }),
                            None => a == none,
                        }
                }
            };
        if macs.len() > 0 {
            let reg = choose|reg: Option<RegisteredModel>| #[trigger]
                batch_registered(b1, l1, dev, anat.dev, macs, r2.s.book, r2.log, reg) && match reg {
                    Some(x) => a == (Added {
                        count: x.put.len(),
                        owned: owned.union(x.put.to_set()),
                        landed: x.held.to_set(),
                    }),
                    None => a == none,
                };
            if let Some(x) = reg {
                crate::sync::pass_laws::lemma_batch_within(
                    b1,
                    l1,
                    dev,
                    anat.dev,
                    macs,
                    r2.s.book,
                    r2.log,
                    x,
                );
                assert forall|m: Mac| #[trigger] a.landed.contains(m) implies want.contains(m)
                    && !own_entries(c.fdb, anat.dev).contains(m) by {
                    assert(x.held.contains(m));
                    assert(macs.contains(m));
                    assert(macs.to_set().contains(m));
                }
                assert forall|m: Mac| #[trigger] a.owned.contains(m) implies owned.contains(m)
                    || want.contains(m) by {
                    if !owned.contains(m) {
                        assert(x.put.contains(m));
                        assert(macs.contains(m));
                        assert(macs.to_set().contains(m));
                    }
                }
            }
        }
    }
}

proof fn lemma_gone(
    c: Pass,
    anat: AnatomyModel,
    dev: Seq<char>,
    owned: Set<Mac>,
    want: Set<Mac>,
    r: Run,
    r2: Run,
    x: Dropped,
)
    requires
        pair_retired(c, anat, dev, owned, want, r, r2, x),
    ensures
        x.gone.subset_of(owned.difference(want)),
{
    if c.apply && !r.s.dry_run {
        crate::sync::report_laws::lemma_retired_fully(c, anat, dev, owned, want, r, r2, x);
    }
}

} // verus!
