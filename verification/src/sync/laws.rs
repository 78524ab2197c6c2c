//! What holds of every pass: what goes into a card is on record first, is not
//! on the wire, and is no virtual function's own address by a fresh answer of
//! the driver; and only what is on record is taken out.

use vstd::prelude::*;

use crate::mac::{registerable, Mac};
use crate::netlink::{Errno, FdbEntry, Moment, Op};
use crate::sync::card::{
    batch_registered, cards_only, ever_noted, lemma_ever_later, lemma_ever_now, lemma_sound_ask,
    lemma_sound_files, lemma_sound_start, noted_in, noted_now, on_record,
    only_noted_addresses_are_taken_out, refusal_texts, registering_notes_first, sound, taken_out,
    Ground, OutcomeModel, RegisteredModel, Why,
};
use crate::sync::decide::{
    behind_map, excluded, excluded_is_never_wanted, learnt, live_functions,
    only_owned_addresses_are_kept, reported, reported_addresses_are_excluded, wire_is_never_wanted,
    wire_set, Rules,
};
use crate::sync::files::{grew, lemma_grew_push, lemma_grew_same, lemma_grew_trans, replay, since};
use crate::sync::memory::{
    lemma_filework_loaded, lemma_filework_saved, memory_loaded, memory_saved, passed_over,
    MemoryModel,
};
use crate::sync::notes::{
    filework, lemma_filework_index, lemma_filework_looked, lemma_filework_merged,
    lemma_filework_one, lemma_filework_same, lemma_filework_trans, note_looked, owned_in, BookModel,
};
use crate::sync::orphans::{
    lemma_removals_files, lemma_removals_trans, orphans_dropped, orphans_only_take_out,
    removals_only, same_setup, Run,
};
use crate::sync::pass::{
    answer_settled, batch_passed, evicted, held_back_text, index_passed, kept_of, lists,
    note_brought_up, own_entries, pair_carried, pair_decided, pair_read, pair_registered,
    pair_remembered, pair_retired, pair_shed, place_of, stale_taken_out, took_over_said, want_of,
    would_grow, Added, Decision, Dropped, Pass, Progress,
};
use crate::sync::reconcile::{
    answer_first, at_after, counted, left_alone, pair_devs, pair_finished, pair_passed,
    pair_stopped, pair_worked, pair_written, pairs_passed, pairs_reconciled, pass_findings,
    pass_made, pass_start, reconciled, table_reconciled,
};
use crate::sync::syncer::SyncerModel;
use crate::sync::timings::{no_findings, Findings};
use crate::sync::types::{PairModel, Report};
use crate::topology::{above, macs_in, AnatomyModel, Learn, TopologyModel};

verus! {

/// What an address in a card is judged by, beside the driver's answer.
pub struct Seen {
    /// the host
    pub t: TopologyModel,
    /// the forwarding table
    pub fdb: Seq<FdbEntry>,
    /// the physical functions behind all uplinks
    pub pfs: Seq<u32>,
}

/// What a pass has seen.
pub open spec fn seen(c: Pass) -> Seen {
    Seen { t: c.t, fdb: c.fdb, pfs: c.pfs }
}

/// Whether the driver was asked about these functions, and gave this answer.
pub open spec fn asked(ops: Seq<Op>, pfs: Seq<u32>, vf: Seq<(u32, Mac)>) -> bool {
    exists|j: int|
        0 <= j < ops.len() && (#[trigger] ops[j]) == (Op::VfMacs { functions: pfs, answer: Ok(vf) })
}

/// Whether an address may stand in the filter of a pair's uplink: it can stand
/// in a filter at all, it is not out on the wire, and it is not excluded, which
/// the virtual functions' own addresses are.
pub open spec fn may_hold(
    c: Seen,
    rules: Rules,
    vf: Seq<(u32, Mac)>,
    pair: PairModel,
    index: u32,
    mac: Mac,
) -> bool {
    place_of(c.t, pair) matches Some(anat) && index == anat.dev && registerable(mac) && !wire_set(
        c.t.links,
        anat,
        c.fdb,
    ).contains(mac) && !excluded(rules.exclude, c.t.links, anat, vf).contains(mac)
}

/// Whether an address belongs behind a pair's bridge: it was learnt there, it is
/// the host's own, or it is pinned.
pub open spec fn belongs(c: Seen, rules: Rules, pair: PairModel, mac: Mac) -> bool {
    place_of(c.t, pair) matches Some(anat) && {
        ||| learnt(c.t.links, anat.bridge, anat.port, c.fdb, Learn::Behind).contains(mac)
        ||| macs_in(c.t.links, above(c.t.links, anat.bridge)).contains(mac)
        ||| rules.extra.contains(mac)
    }
}

/// Whether the request at `i`, if it puts an address into a card, puts one there
/// that may be there and that belongs there, or was on record already, and that
/// the dump does not show there, by an answer the driver gave within this very
/// stretch.
pub open spec fn allowed(
    g: Ground,
    c: Seen,
    pairs: Seq<PairModel>,
    rules: Rules,
    vf: Seq<(u32, Mac)>,
    ops: Seq<Op>,
    i: int,
) -> bool {
    match ops[i] {
        Op::Card { ifindex, mac, add, .. } => add ==> asked(ops.take(i), c.pfs, vf) && exists|
            k: int,
        |
            {
                &&& 0 <= k < pairs.len()
                &&& may_hold(c, rules, vf, #[trigger] pairs[k], ifindex, mac)
                &&& belongs(c, rules, pairs[k], mac) || ever_noted(g, ops.take(i), ifindex, mac)
                &&& !own_entries(c.fdb, ifindex).contains(mac)
            },
        _ => true,
    }
}

/// Whether all such requests are.
pub open spec fn all_allowed(
    g: Ground,
    c: Seen,
    pairs: Seq<PairModel>,
    rules: Rules,
    vf: Seq<(u32, Mac)>,
    ops: Seq<Op>,
) -> bool {
    forall|i: int| 0 <= i < ops.len() ==> #[trigger] allowed(g, c, pairs, rules, vf, ops, i)
}

proof fn lemma_asked_later(a: Seq<Op>, b: Seq<Op>, pfs: Seq<u32>, vf: Seq<(u32, Mac)>)
    requires
        asked(a, pfs, vf),
    ensures
        asked(a + b, pfs, vf),
{
    let j = choose|j: int|
        0 <= j < a.len() && (#[trigger] a[j]) == (Op::VfMacs { functions: pfs, answer: Ok(vf) });
    assert((a + b)[j] == a[j]);
}

proof fn lemma_allowed_removals(
    g: Ground,
    c: Seen,
    pairs: Seq<PairModel>,
    rules: Rules,
    vf: Seq<(u32, Mac)>,
    a: Seq<Op>,
    b: Seq<Op>,
)
    requires
        all_allowed(g, c, pairs, rules, vf, a),
        removals_only(b),
    ensures
        all_allowed(g, c, pairs, rules, vf, a + b),
{
    let w = a + b;
    assert forall|i: int| 0 <= i < w.len() implies #[trigger] allowed(
        g,
        c,
        pairs,
        rules,
        vf,
        w,
        i,
    ) by {
        if i < a.len() {
            assert(allowed(g, c, pairs, rules, vf, a, i));
            assert(w[i] == a[i]);
            assert(w.take(i) =~= a.take(i));
        } else {
            assert(w[i] == b[i - a.len()]);
        }
    }
}

proof fn lemma_allowed_adds(
    g: Ground,
    c: Seen,
    pairs: Seq<PairModel>,
    rules: Rules,
    vf: Seq<(u32, Mac)>,
    a: Seq<Op>,
    b: Seq<Op>,
    k: int,
    index: u32,
    macs: Set<Mac>,
)
    requires
        all_allowed(g, c, pairs, rules, vf, a),
        cards_only(b, index, macs, true),
        asked(a, c.pfs, vf),
        0 <= k < pairs.len(),
        forall|m: Mac| #[trigger]
            macs.contains(m) ==> may_hold(c, rules, vf, pairs[k], index, m) && (belongs(
                c,
                rules,
                pairs[k],
                m,
            ) || ever_noted(g, a, index, m)),
        macs.disjoint(own_entries(c.fdb, index)),
    ensures
        all_allowed(g, c, pairs, rules, vf, a + b),
{
    let w = a + b;
    assert forall|i: int| 0 <= i < w.len() implies #[trigger] allowed(
        g,
        c,
        pairs,
        rules,
        vf,
        w,
        i,
    ) by {
        if i < a.len() {
            assert(allowed(g, c, pairs, rules, vf, a, i));
            assert(w[i] == a[i]);
            assert(w.take(i) =~= a.take(i));
        } else {
            let j = i - a.len();
            assert(w[i] == b[j]);
            assert(w.take(i) =~= a + b.take(j));
            lemma_asked_later(a, b.take(j), c.pfs, vf);
            if let Op::Card { mac, .. } = b[j] {
                if ever_noted(g, a, index, mac) {
                    lemma_ever_later(g, a, b.take(j), index, mac);
                }
                assert(may_hold(c, rules, vf, pairs[k], index, mac));
            }
        }
    }
}

/// Where nothing went into a card, everything that did was allowed.
proof fn lemma_allowed_none(
    g: Ground,
    c: Seen,
    pairs: Seq<PairModel>,
    rules: Rules,
    vf: Seq<(u32, Mac)>,
    ops: Seq<Op>,
)
    requires
        removals_only(ops),
    ensures
        all_allowed(g, c, pairs, rules, vf, ops),
{
    assert forall|i: int| 0 <= i < ops.len() implies #[trigger] allowed(
        g,
        c,
        pairs,
        rules,
        vf,
        ops,
        i,
    ) by {
        let o = ops[i];
    }
}

/// What holds throughout a pass.
pub open spec fn pass_holds(
    g: Ground,
    l0: Seq<Op>,
    c: Pass,
    pairs: Seq<PairModel>,
    rules: Rules,
    s: SyncerModel,
    log: Seq<Op>,
    carried: bool,
) -> bool {
    &&& sound(g, l0, s.book.dir, log)
    &&& s.rules() == rules
    &&& if carried {
        removals_only(since(l0, log))
    } else {
        asked(since(l0, log), c.pfs, s.vf_answer())
    }
    &&& all_allowed(g, seen(c), pairs, rules, s.vf_answer(), since(l0, log))
}

proof fn lemma_holds_files(
    g: Ground,
    l0: Seq<Op>,
    c: Pass,
    pairs: Seq<PairModel>,
    rules: Rules,
    s: SyncerModel,
    log: Seq<Op>,
    carried: bool,
    s2: SyncerModel,
    log2: Seq<Op>,
)
    requires
        pass_holds(g, l0, c, pairs, rules, s, log, carried),
        filework(s.book.dir, log, s2.book.dir, log2),
        s2.rules() == s.rules(),
        s2.carried_vf == s.carried_vf,
    ensures
        pass_holds(g, l0, c, pairs, rules, s2, log2, carried),
{
    lemma_sound_files(g, l0, s.book.dir, log, s2.book.dir, log2);
    lemma_removals_files(s.book.dir, log, s2.book.dir, log2);
    lemma_holds_removals(g, l0, c, pairs, rules, s, log, carried, s2, log2);
}

proof fn lemma_holds_removals(
    g: Ground,
    l0: Seq<Op>,
    c: Pass,
    pairs: Seq<PairModel>,
    rules: Rules,
    s: SyncerModel,
    log: Seq<Op>,
    carried: bool,
    s2: SyncerModel,
    log2: Seq<Op>,
)
    requires
        pass_holds(g, l0, c, pairs, rules, s, log, carried),
        sound(g, l0, s2.book.dir, log2),
        grew(log, log2),
        removals_only(since(log, log2)),
        s2.rules() == s.rules(),
        s2.carried_vf == s.carried_vf,
    ensures
        pass_holds(g, l0, c, pairs, rules, s2, log2, carried),
{
    lemma_grew_trans(l0, log, log2);
    lemma_allowed_removals(g, seen(c), pairs, rules, s.vf_answer(), since(l0, log), since(log, log2));
    if carried {
        lemma_removals_trans(l0, log, log2);
    } else {
        lemma_asked_later(since(l0, log), since(log, log2), c.pfs, s.vf_answer());
    }
}

/// The addresses a note named are on record, and stay something that was.
proof fn lemma_ever_all(
    g: Ground,
    l0: Seq<Op>,
    l1: Seq<Op>,
    l2: Seq<Op>,
    index: u32,
    macs: Set<Mac>,
)
    requires
        grew(l0, l1),
        grew(l1, l2),
        forall|m: Mac| #[trigger] macs.contains(m) ==> ever_noted(g, since(l0, l1), index, m),
    ensures
        forall|m: Mac| #[trigger] macs.contains(m) ==> ever_noted(g, since(l0, l2), index, m),
{
    lemma_grew_trans(l0, l1, l2);
    assert forall|m: Mac| #[trigger] macs.contains(m) implies ever_noted(
        g,
        since(l0, l2),
        index,
        m,
    ) by {
        lemma_ever_later(g, since(l0, l1), since(l1, l2), index, m);
    }
}

proof fn lemma_pair_read(
    g: Ground,
    l0: Seq<Op>,
    c: Pass,
    pairs: Seq<PairModel>,
    rules: Rules,
    dev: Seq<char>,
    carried: bool,
    s: SyncerModel,
    log: Seq<Op>,
    s2: SyncerModel,
    log2: Seq<Op>,
)
    requires
        pass_holds(g, l0, c, pairs, rules, s, log, carried),
        pair_read(c.t, c.apply, dev, s, log, s2, log2),
    ensures
        pass_holds(g, l0, c, pairs, rules, s2, log2, carried),
        filework(s.book.dir, log, s2.book.dir, log2),
        same_setup(s, s2),
        s2.carried == s.carried,
{
    let (b1, l1) = choose|b1: BookModel, l1: Seq<Op>|
        {
            &&& #[trigger] memory_loaded(s.memory, s.book, log, c.t, dev, s2.memory, b1, l1)
            &&& #[trigger] note_looked(
                took_over_said(b1, c.apply, dev, s, s2.memory),
                l1,
                dev,
                s2.book,
                log2,
            )
            &&& s2 == (SyncerModel { memory: s2.memory, book: s2.book, ..s })
        };
    let bs = took_over_said(b1, c.apply, dev, s, s2.memory);
    lemma_filework_loaded(s.memory, s.book, log, c.t, dev, s2.memory, b1, l1);
    lemma_filework_looked(bs, l1, dev, s2.book, log2);
    lemma_filework_trans(s.book.dir, log, b1.dir, l1, s2.book.dir, log2);
    lemma_holds_files(g, l0, c, pairs, rules, s, log, carried, s2, log2);
}

proof fn lemma_answer_settled(
    g: Ground,
    l0: Seq<Op>,
    c: Pass,
    pairs: Seq<PairModel>,
    rules: Rules,
    anat: AnatomyModel,
    dev: Seq<char>,
    owned: Set<Mac>,
    s: SyncerModel,
    log: Seq<Op>,
    carried: bool,
    s2: SyncerModel,
    log2: Seq<Op>,
    carried2: bool,
    failed: Option<Errno>,
)
    requires
        pass_holds(g, l0, c, pairs, rules, s, log, carried),
        answer_settled(c, anat, dev, owned, s, log, carried, s2, log2, carried2, failed),
    ensures
        pass_holds(g, l0, c, pairs, rules, s2, log2, carried2),
        grew(log, log2),
        s2.carried == s.carried,
        failed is None && carried2 ==> !would_grow(c, anat, dev, owned, s2),
{
    lemma_grew_same(log);
    if carried && would_grow(c, anat, dev, owned, s) {
        let op = log2.last();
        lemma_sound_ask(g, l0, s.book.dir, log, op);
        lemma_grew_push(log, log, op);
        let a = since(l0, log);
        let b = since(l0, log2);
        assert(b == a.push(op));
        assert(removals_only(b)) by {
            assert forall|i: int| 0 <= i < b.len() implies ((#[trigger] b[i]) matches Op::Card {
                add,
                ..
            } ==> !add) by {
                if i < a.len() {
                    assert(b[i] == a[i]);
                }
            }
        }
        lemma_allowed_none(g, seen(c), pairs, rules, s2.vf_answer(), b);
        if failed is None {
            assert(b[a.len() as int] == op);
            assert(asked(b, c.pfs, s2.vf_answer()));
        }
    }
}

/// What is wanted may be held.
proof fn lemma_want_may_be_held(
    c: Pass,
    pair: PairModel,
    anat: AnatomyModel,
    owned: Set<Mac>,
    s: SyncerModel,
    m: Mac,
)
    requires
        place_of(c.t, pair) == Some(anat),
        want_of(c, anat, pair.dev, owned, s).contains(m),
    ensures
        may_hold(seen(c), s.rules(), s.vf_answer(), pair, anat.dev, m),
        belongs(seen(c), s.rules(), pair, m) || owned.contains(m),
{
    let ports = s.memory.ports(pair.dev);
    wire_is_never_wanted(s.rules(), c.t.links, anat, c.fdb, s.vf_answer(), owned, ports);
    excluded_is_never_wanted(s.rules(), c.t.links, anat, c.fdb, s.vf_answer(), owned, ports);
}

proof fn lemma_pair_registered(
    g: Ground,
    l0: Seq<Op>,
    c: Pass,
    pairs: Seq<PairModel>,
    k: int,
    anat: AnatomyModel,
    owned: Set<Mac>,
    want: Set<Mac>,
    carried: bool,
    r: Run,
    r2: Run,
    a: Added,
)
    requires
        g.t == c.t,
        0 <= k < pairs.len(),
        place_of(c.t, pairs[k]) == Some(anat),
        pass_holds(g, l0, c, pairs, r.s.rules(), r.s, r.log, carried),
        pair_registered(c, anat, pairs[k].dev, owned, want, r, r2, a),
        carried ==> want.subset_of(own_entries(c.fdb, anat.dev)),
        forall|m: Mac| #[trigger]
            want.contains(m) ==> may_hold(
                seen(c),
                r.s.rules(),
                r.s.vf_answer(),
                pairs[k],
                anat.dev,
                m,
            ) && (belongs(seen(c), r.s.rules(), pairs[k], m) || owned.contains(m)),
        forall|m: Mac| #[trigger]
            owned.contains(m) ==> ever_noted(g, since(l0, r.log), anat.dev, m),
    ensures
        pass_holds(g, l0, c, pairs, r.s.rules(), r2.s, r2.log, carried),
        grew(r.log, r2.log),
        same_setup(r.s, r2.s),
        r2.s.carried == r.s.carried,
        forall|m: Mac| #[trigger]
            a.owned.contains(m) ==> ever_noted(g, since(l0, r2.log), anat.dev, m),
{
    let dev = pairs[k].dev;
    let macs = choose|macs: Seq<Mac>|
        {
            &&& #[trigger] lists(macs, want.difference(own_entries(c.fdb, anat.dev)))
            &&& if !c.apply || r.s.dry_run {
                &&& r2 == r
                &&& a == (Added { count: macs.len(), owned, landed: Set::empty() })
            } else {
                batch_passed(anat, dev, owned, macs, r, r2, a)
            }
        };
    lemma_grew_same(r.log);
    if c.apply && !r.s.dry_run {
        let none = Added { count: 0, owned, landed: Set::empty() };
        let (b1, l1) = choose|b1: BookModel, l1: Seq<Op>|
            {
                &&& #[trigger] index_passed(r.s.book, r.log, dev, anat.dev, owned, macs, b1, l1)
                &&& if macs.len() == 0 {
                    &&& r2 == (Run { s: r.s.with_book(b1), log: l1, ..r })
                    &&& a == none
                } else {
                    exists|reg: Option<RegisteredModel>|
                        {
                            &&& #[trigger] batch_registered(
                                b1,
                                l1,
                                dev,
                                anat.dev,
                                macs,
                                r2.s.book,
                                r2.log,
                                reg,
                            )
                            &&& r2.s == r.s.with_book(r2.s.book)
                            &&& match reg {
                                Some(x) => {
                                    &&& a == (Added {
                                        count: x.put.len(),
                                        owned: owned.union(x.put.to_set()),
                                        landed: x.held.to_set(),
                                    })
                                    &&& r2.failures == r.failures + x.failures
                                },
                                None => {
                                    &&& a == none
                                    &&& r2.failures == r.failures.push(
                                        held_back_text(dev, macs.len()),
                                    )
                                },
                            }
                        }
                }
            };
        let s1 = r.s.with_book(b1);
        lemma_filework_same(r.s.book.dir, r.log);
        if !(owned == Set::<Mac>::empty() && macs.len() == 0) {
            lemma_filework_index(r.s.book, r.log, dev, anat.dev, b1, l1);
        }
        lemma_holds_files(g, l0, c, pairs, r.s.rules(), r.s, r.log, carried, s1, l1);
        lemma_ever_all(g, l0, r.log, l1, anat.dev, owned);
        if macs.len() > 0 {
            let reg = choose|reg: Option<RegisteredModel>|
                {
                    &&& #[trigger] batch_registered(
                        b1,
                        l1,
                        dev,
                        anat.dev,
                        macs,
                        r2.s.book,
                        r2.log,
                        reg,
                    )
                    &&& r2.s == r.s.with_book(r2.s.book)
                    &&& match reg {
                        Some(x) => {
                            &&& a == (Added {
                                count: x.put.len(),
                                owned: owned.union(x.put.to_set()),
                                landed: x.held.to_set(),
                            })
                            &&& r2.failures == r.failures + x.failures
                        },
                        None => {
                            &&& a == none
                            &&& r2.failures == r.failures.push(
                                held_back_text(dev, macs.len()),
                            )
                        },
                    }
                };
            assert(macs.to_set().contains(macs[0])) by {
                assert(macs.contains(macs[0]));
            }
            assert(!carried) by {
                if carried {
                    assert(want.difference(own_entries(c.fdb, anat.dev)).contains(macs[0]));
                }
            }
            registering_notes_first(
                g,
                l0,
                b1,
                l1,
                dev,
                anat.dev,
                macs,
                r2.s.book,
                r2.log,
                reg,
            );
            lemma_grew_trans(l0, l1, r2.log);
            lemma_grew_trans(r.log, l1, r2.log);
            lemma_allowed_adds(
                g,
                seen(c),
                pairs,
                r.s.rules(),
                r.s.vf_answer(),
                since(l0, l1),
                since(l1, r2.log),
                k,
                anat.dev,
                macs.to_set(),
            );
            lemma_asked_later(since(l0, l1), since(l1, r2.log), c.pfs, r.s.vf_answer());
            lemma_ever_all(g, l0, l1, r2.log, anat.dev, owned);
            assert forall|m: Mac| #[trigger] a.owned.contains(m) implies ever_noted(
                g,
                since(l0, r2.log),
                anat.dev,
                m,
            ) by {
                if !owned.contains(m) {
                    assert(reg->0.put.contains(m));
                }
            }
        }
    }
}

proof fn lemma_pair_retired(
    g: Ground,
    l0: Seq<Op>,
    c: Pass,
    pairs: Seq<PairModel>,
    dev: Seq<char>,
    anat: AnatomyModel,
    owned: Set<Mac>,
    want: Set<Mac>,
    carried: bool,
    r: Run,
    r2: Run,
    x: Dropped,
)
    requires
        pass_holds(g, l0, c, pairs, r.s.rules(), r.s, r.log, carried),
        pair_retired(c, anat, dev, owned, want, r, r2, x),
        forall|m: Mac| #[trigger]
            owned.contains(m) ==> ever_noted(g, since(l0, r.log), anat.dev, m),
    ensures
        pass_holds(g, l0, c, pairs, r.s.rules(), r2.s, r2.log, carried),
        grew(r.log, r2.log),
        same_setup(r.s, r2.s),
        r2.s.carried == r.s.carried,
{
    let stale = choose|stale: Seq<Mac>|
        {
            &&& #[trigger] lists(stale, owned.difference(want))
            &&& if !c.apply || r.s.dry_run || stale.len() == 0 {
                &&& r2 == r
                &&& x == (Dropped { count: stale.len(), owned, gone: Set::empty() })
            } else {
                stale_taken_out(anat, dev, owned, stale, r, r2, x)
            }
        };
    lemma_grew_same(r.log);
    if c.apply && !r.s.dry_run && stale.len() > 0 {
        let o = choose|o: OutcomeModel|
            {
                &&& #[trigger] taken_out(
                    r.s.book,
                    r.log,
                    dev,
                    anat.dev,
                    stale,
                    r2.s.book,
                    r2.log,
                    o,
                    Why::Stale,
                )
                &&& r2.s == (SyncerModel {
                    book: r2.s.book,
                    memory: evicted(r.s.memory, dev, o.failed.to_set()),
                    ..r.s
                })
                &&& r2.failures == r.failures + refusal_texts(
                    dev,
                    "unregister"@,
                    o.failed,
                    o.errors,
                )
                &&& x == (Dropped {
                    count: o.settled.len(),
                    owned: owned.difference(o.settled.to_set()),
                    gone: o.settled.to_set(),
                })
            };
        assert forall|m: Mac| #[trigger] stale.contains(m) implies ever_noted(
            g,
            since(l0, r.log),
            anat.dev,
            m,
        ) by {
            assert(stale.to_set().contains(m));
        }
        only_noted_addresses_are_taken_out(
            g,
            l0,
            r.s.book,
            r.log,
            dev,
            anat.dev,
            stale,
            r2.s.book,
            r2.log,
            o,
            Why::Stale,
        );
        let ops = since(r.log, r2.log);
        assert(removals_only(ops)) by {
            assert forall|i: int| 0 <= i < ops.len() implies ((#[trigger] ops[i])
                matches Op::Card { add, .. } ==> !add) by {}
        }
        lemma_holds_removals(
            g,
            l0,
            c,
            pairs,
            r.s.rules(),
            r.s,
            r.log,
            carried,
            r2.s,
            r2.log,
        );
    }
}

pub(crate) proof fn lemma_filework_remembered(
    c: Pass,
    anat: AnatomyModel,
    dev: Seq<char>,
    before: Set<Mac>,
    after: Set<Mac>,
    readable: bool,
    s: SyncerModel,
    log: Seq<Op>,
    s2: SyncerModel,
    log2: Seq<Op>,
)
    requires
        pair_remembered(c, anat, dev, before, after, readable, s, log, s2, log2),
    ensures
        filework(s.book.dir, log, s2.book.dir, log2),
{
    let ports = passed_over(
        s.memory.ports(dev),
        behind_map(c.t.links, anat, c.fdb),
        c.pass_at,
        after,
    );
    let mem = MemoryModel { carried: s.memory.carried.insert(dev, ports), ..s.memory };
    let (b1, l1) = choose|b1: BookModel, l1: Seq<Op>|
        {
            &&& #[trigger] note_brought_up(
                c.apply,
                s.dry_run,
                s.book,
                log,
                dev,
                before,
                after,
                b1,
                l1,
            )
            &&& s2 == (SyncerModel { book: s2.book, memory: s2.memory, ..s })
            &&& if !readable {
                s2.memory == s.memory && s2.book == b1 && log2 == l1
            } else if !c.apply {
                s2.memory == mem && s2.book == b1 && log2 == l1
            } else {
                memory_saved(
                    mem,
                    b1,
                    l1,
                    c.t,
                    dev,
                    c.pass_at,
                    s.dry_run,
                    s2.memory,
                    s2.book,
                    log2,
                )
            }
        };
    lemma_filework_same(s.book.dir, log);
    if c.apply && !s.dry_run && before != after {
        lemma_filework_merged(s.book, log, dev, before, after, b1, l1);
    }
    lemma_filework_same(b1.dir, l1);
    if readable && c.apply {
        lemma_filework_saved(
            mem,
            b1,
            l1,
            c.t,
            dev,
            c.pass_at,
            s.dry_run,
            s2.memory,
            s2.book,
            log2,
        );
    }
    lemma_filework_trans(s.book.dir, log, b1.dir, l1, s2.book.dir, log2);
}

proof fn lemma_pair_remembered(
    g: Ground,
    l0: Seq<Op>,
    c: Pass,
    pairs: Seq<PairModel>,
    anat: AnatomyModel,
    dev: Seq<char>,
    before: Set<Mac>,
    after: Set<Mac>,
    readable: bool,
    carried: bool,
    s: SyncerModel,
    log: Seq<Op>,
    s2: SyncerModel,
    log2: Seq<Op>,
)
    requires
        pass_holds(g, l0, c, pairs, s.rules(), s, log, carried),
        pair_remembered(c, anat, dev, before, after, readable, s, log, s2, log2),
    ensures
        pass_holds(g, l0, c, pairs, s.rules(), s2, log2, carried),
        grew(log, log2),
        same_setup(s, s2),
        s2.carried == s.carried,
{
    lemma_filework_remembered(c, anat, dev, before, after, readable, s, log, s2, log2);
    lemma_holds_files(g, l0, c, pairs, s.rules(), s, log, carried, s2, log2);
}

proof fn lemma_pair_written(
    g: Ground,
    l0: Seq<Op>,
    c: Pass,
    pairs: Seq<PairModel>,
    k: int,
    anat: AnatomyModel,
    owned: Set<Mac>,
    readable: bool,
    d: Decision,
    carried: bool,
    r: Run,
    reports: Seq<Report>,
    p2: Progress,
)
    requires
        g.t == c.t,
        0 <= k < pairs.len(),
        place_of(c.t, pairs[k]) == Some(anat),
        pass_holds(g, l0, c, pairs, r.s.rules(), r.s, r.log, carried),
        pair_written(c, pairs[k], anat, owned, readable, d, r, reports, p2),
        carried ==> d.want.subset_of(own_entries(c.fdb, anat.dev)),
        forall|m: Mac| #[trigger]
            d.want.contains(m) ==> may_hold(
                seen(c),
                r.s.rules(),
                r.s.vf_answer(),
                pairs[k],
                anat.dev,
                m,
            ) && (belongs(seen(c), r.s.rules(), pairs[k], m) || owned.contains(m)),
        forall|m: Mac| #[trigger]
            owned.contains(m) ==> ever_noted(g, since(l0, r.log), anat.dev, m),
    ensures
        pass_holds(g, l0, c, pairs, r.s.rules(), p2.run.s, p2.run.log, carried),
        grew(r.log, p2.run.log),
        same_setup(r.s, p2.run.s),
        p2.run.s.carried == r.s.carried.insert(
            pairs[k].dev,
            p2.run.s.carried[pairs[k].dev],
        ),
        p2.run.s.carried[pairs[k].dev].quiet == d.kept,
{
    let pair = pairs[k];
    let (r1, a, r2, x) = choose|r1: Run, a: Added, r2: Run, x: Dropped|
        {
            &&& #[trigger] pair_registered(c, anat, pair.dev, owned, d.want, r, r1, a)
            &&& #[trigger] pair_retired(c, anat, pair.dev, a.owned, d.want, r1, r2, x)
            &&& pair_finished(c, pair, anat, owned, readable, d, a, x, r2, reports, p2)
        };
    lemma_pair_registered(g, l0, c, pairs, k, anat, owned, d.want, carried, r, r1, a);
    lemma_pair_retired(
        g,
        l0,
        c,
        pairs,
        pair.dev,
        anat,
        a.owned,
        d.want,
        carried,
        r1,
        r2,
        x,
    );
    let s3 = choose|s3: SyncerModel|
        {
            &&& #[trigger] pair_remembered(
                c,
                anat,
                pair.dev,
                owned,
                x.owned,
                readable,
                r2.s,
                r2.log,
                s3,
                p2.run.log,
            )
            &&& p2.run.s == pair_carried(c, anat, pair.dev, d, a.landed, x.gone, readable, s3)
        };
    lemma_pair_remembered(
        g,
        l0,
        c,
        pairs,
        anat,
        pair.dev,
        owned,
        x.owned,
        readable,
        carried,
        r2.s,
        r2.log,
        s3,
        p2.run.log,
    );
    lemma_grew_trans(r.log, r1.log, r2.log);
    lemma_grew_trans(r.log, r2.log, p2.run.log);
}

proof fn lemma_pair_decided(
    g: Ground,
    ops: Seq<Op>,
    c: Pass,
    pair: PairModel,
    anat: AnatomyModel,
    owned: Set<Mac>,
    s: SyncerModel,
    s2: SyncerModel,
    d: Decision,
)
    requires
        place_of(c.t, pair) == Some(anat),
        pair_decided(c, anat, pair.dev, owned, s, s2, d),
        forall|m: Mac| #[trigger] owned.contains(m) ==> ever_noted(g, ops, anat.dev, m),
    ensures
        same_setup(s, s2),
        s2.book.dir == s.book.dir,
        s2.carried == s.carried,
        d.want.subset_of(want_of(c, anat, pair.dev, owned, s)),
        forall|m: Mac| #[trigger]
            d.want.contains(m) ==> may_hold(seen(c), s.rules(), s.vf_answer(), pair, anat.dev, m)
                && (belongs(seen(c), s.rules(), pair, m) || owned.contains(m)),
        forall|m: Mac| #[trigger] d.kept.contains(m) ==> ever_noted(g, ops, anat.dev, m),
{
    let shed = choose|shed: Seq<Mac>| #[trigger]
        pair_shed(c, anat, pair.dev, owned, s, shed, d);
    assert forall|m: Mac| #[trigger] d.want.contains(m) implies may_hold(
        seen(c),
        s.rules(),
        s.vf_answer(),
        pair,
        anat.dev,
        m,
    ) && (belongs(seen(c), s.rules(), pair, m) || owned.contains(m)) by {
        lemma_want_may_be_held(c, pair, anat, owned, s, m);
    }
    only_owned_addresses_are_kept(
        s.rules(),
        c.t.links,
        anat,
        c.fdb,
        s.vf_answer(),
        owned,
        s.memory.ports(pair.dev),
    );
    assert forall|m: Mac| #[trigger] d.kept.contains(m) implies ever_noted(
        g,
        ops,
        anat.dev,
        m,
    ) by {
        assert(kept_of(c, anat, pair.dev, owned, s).contains(m));
        assert(owned.contains(m));
    }
}

proof fn lemma_pair_worked(
    g: Ground,
    l0: Seq<Op>,
    c: Pass,
    pairs: Seq<PairModel>,
    k: int,
    rules: Rules,
    anat: AnatomyModel,
    owned: Set<Mac>,
    readable: bool,
    p: Progress,
    p2: Progress,
)
    requires
        g.t == c.t,
        0 <= k < pairs.len(),
        place_of(c.t, pairs[k]) == Some(anat),
        pass_holds(g, l0, c, pairs, rules, p.run.s, p.run.log, p.vf_carried),
        pair_worked(c, pairs[k], anat, owned, readable, p, p2),
        forall|m: Mac| #[trigger]
            owned.contains(m) ==> ever_noted(g, since(l0, p.run.log), anat.dev, m),
    ensures
        pass_holds(g, l0, c, pairs, rules, p2.run.s, p2.run.log, p2.vf_carried),
        grew(p.run.log, p2.run.log),
        quiet_was_noted(g, since(l0, p2.run.log), p2.run.s, pairs[k].dev, anat.dev),
        p2.run.s.carried == p.run.s.carried.insert(
            pairs[k].dev,
            p2.run.s.carried[pairs[k].dev],
        ),
{
    let pair = pairs[k];
    let (sb, lb, sc, d) = choose|sb: SyncerModel, lb: Seq<Op>, sc: SyncerModel, d: Decision|
        {
            &&& #[trigger] answer_settled(
                c,
                anat,
                pair.dev,
                owned,
                p.run.s,
                p.run.log,
                p.vf_carried,
                sb,
                lb,
                p2.vf_carried,
                None,
            )
            &&& #[trigger] pair_decided(c, anat, pair.dev, owned, sb, sc, d)
            &&& pair_written(
                c,
                pair,
                anat,
                owned,
                readable,
                d,
                Run { s: sc, log: lb, failures: p.run.failures },
                p.reports,
                p2,
            )
        };
    lemma_answer_settled(
        g,
        l0,
        c,
        pairs,
        rules,
        anat,
        pair.dev,
        owned,
        p.run.s,
        p.run.log,
        p.vf_carried,
        sb,
        lb,
        p2.vf_carried,
        None,
    );
    lemma_ever_all(g, l0, p.run.log, lb, anat.dev, owned);
    lemma_pair_decided(g, since(l0, lb), c, pair, anat, owned, sb, sc, d);
    let rb = Run { s: sc, log: lb, failures: p.run.failures };
    assert(pass_holds(g, l0, c, pairs, rules, sc, lb, p2.vf_carried));
    lemma_pair_written(
        g,
        l0,
        c,
        pairs,
        k,
        anat,
        owned,
        readable,
        d,
        p2.vf_carried,
        rb,
        p.reports,
        p2,
    );
    lemma_grew_trans(p.run.log, lb, p2.run.log);
    lemma_ever_all(g, l0, lb, p2.run.log, anat.dev, d.kept);
}

/// What holds before a pair is passed holds after it; and what is kept quiet
/// was on record.
proof fn lemma_pair_passed(
    g: Ground,
    l0: Seq<Op>,
    c: Pass,
    pairs: Seq<PairModel>,
    k: int,
    rules: Rules,
    p: Progress,
    p2: Progress,
)
    requires
        g.t == c.t,
        0 <= k < pairs.len(),
        pass_holds(g, l0, c, pairs, rules, p.run.s, p.run.log, p.vf_carried),
        pair_passed(c, pairs[k], p, p2),
    ensures
        pass_holds(g, l0, c, pairs, rules, p2.run.s, p2.run.log, p2.vf_carried),
        grew(p.run.log, p2.run.log),
        place_of(c.t, pairs[k]) matches Some(anat) ==> quiet_was_noted(
            g,
            since(l0, p2.run.log),
            p2.run.s,
            pairs[k].dev,
            anat.dev,
        ),
        place_of(c.t, pairs[k]) is None ==> p2 == left_alone(c.t, pairs[k], p),
        place_of(c.t, pairs[k]) is Some ==> p2.run.s.carried == p.run.s.carried.insert(
            pairs[k].dev,
            p2.run.s.carried[pairs[k].dev],
        ),
{
    lemma_grew_same(p.run.log);
    let pair = pairs[k];
    if let Some(anat) = place_of(c.t, pair) {
        let (sa, la) = choose|sa: SyncerModel, la: Seq<Op>| #[trigger]
            pair_read(c.t, c.apply, pair.dev, p.run.s, p.run.log, sa, la) && pair_worked(
                c,
                pair,
                anat,
                owned_in(sa.book.dir, pair.dev),
                sa.book.readable(pair.dev),
                Progress { run: Run { s: sa, log: la, failures: p.run.failures }, ..p },
                p2,
            );
        lemma_pair_read(
            g,
            l0,
            c,
            pairs,
            rules,
            pair.dev,
            p.vf_carried,
            p.run.s,
            p.run.log,
            sa,
            la,
        );
        let owned = owned_in(sa.book.dir, pair.dev);
        let pa = Progress { run: Run { s: sa, log: la, failures: p.run.failures }, ..p };
        assert forall|m: Mac| #[trigger] owned.contains(m) implies ever_noted(
            g,
            since(l0, la),
            anat.dev,
            m,
        ) by {
            assert(noted_in(g.t, replay(g.dir, since(l0, la)), pair.dev, anat.dev, m));
            lemma_ever_now(g, since(l0, la), pair.dev, anat.dev, m);
        }
        lemma_pair_worked(
            g,
            l0,
            c,
            pairs,
            k,
            rules,
            anat,
            owned,
            sa.book.readable(pair.dev),
            pa,
            p2,
        );
        lemma_grew_trans(p.run.log, la, p2.run.log);
    }
}

/// Whether what is being kept quiet for an uplink was on its note at some moment
/// of this stretch of requests.
pub open spec fn quiet_was_noted(
    g: Ground,
    ops: Seq<Op>,
    s: SyncerModel,
    dev: Seq<char>,
    index: u32,
) -> bool {
    s.carried.contains_key(dev) && forall|m: Mac| #[trigger]
        s.carried[dev].quiet.contains(m) ==> ever_noted(g, ops, index, m)
}

proof fn lemma_pairs_passed(
    g: Ground,
    l0: Seq<Op>,
    c: Pass,
    pairs: Seq<PairModel>,
    rules: Rules,
    ps: Seq<Progress>,
    n: int,
    top: int,
)
    requires
        g.t == c.t,
        0 <= n <= top <= pairs.len(),
        pairs_passed(c, pairs.take(top), ps),
        pass_holds(g, l0, c, pairs, rules, ps[0].run.s, ps[0].run.log, ps[0].vf_carried),
    ensures
        pass_holds(g, l0, c, pairs, rules, ps[n].run.s, ps[n].run.log, ps[n].vf_carried),
        grew(ps[0].run.log, ps[n].run.log),
        forall|i: int|
            0 <= i < n ==> keeps_noted(
                g,
                since(l0, ps[n].run.log),
                ps[n].run.s,
                c.t,
                #[trigger] pairs[i],
            ),
    decreases n,
{
    lemma_grew_same(ps[0].run.log);
    if n > 0 {
        lemma_pairs_passed(g, l0, c, pairs, rules, ps, n - 1, top);
        let pair = pairs.take(top)[n - 1];
        assert(pair == pairs[n - 1]);
        lemma_pair_passed(g, l0, c, pairs, n - 1, rules, ps[n - 1], ps[n]);
        lemma_grew_trans(ps[0].run.log, ps[n - 1].run.log, ps[n].run.log);
        lemma_grew_trans(l0, ps[n - 1].run.log, ps[n].run.log);
        let (p, p2) = (ps[n - 1], ps[n]);
        assert forall|i: int| 0 <= i < n implies keeps_noted(
            g,
            since(l0, p2.run.log),
            p2.run.s,
            c.t,
            #[trigger] pairs[i],
        ) by {
            if let Some(anat) = place_of(c.t, pairs[i]) {
                let d = pairs[i].dev;
                if d != pairs[n - 1].dev || place_of(c.t, pairs[n - 1]) is None {
                    assert(i < n - 1);
                    assert(keeps_noted(g, since(l0, p.run.log), p.run.s, c.t, pairs[i]));
                    assert forall|m: Mac| #[trigger]
                        p2.run.s.carried[d].quiet.contains(m) implies ever_noted(
                        g,
                        since(l0, p2.run.log),
                        anat.dev,
                        m,
                    ) by {
                        assert(p.run.s.carried[d].quiet.contains(m));
                        lemma_ever_later(
                            g,
                            since(l0, p.run.log),
                            since(p.run.log, p2.run.log),
                            anat.dev,
                            m,
                        );
                    }
                }
            }
        }
    }
}

/// Whether what is being kept for a pair that stands where it should was on its
/// note at some moment of this stretch of requests.
pub open spec fn keeps_noted(
    g: Ground,
    ops: Seq<Op>,
    s: SyncerModel,
    t: TopologyModel,
    pair: PairModel,
) -> bool {
    place_of(t, pair) matches Some(anat) ==> quiet_was_noted(g, ops, s, pair.dev, anat.dev)
}

proof fn lemma_pairs_reconciled(
    g: Ground,
    l0: Seq<Op>,
    c: Pass,
    pairs: Seq<PairModel>,
    rules: Rules,
    p: Progress,
    s2: SyncerModel,
    log2: Seq<Op>,
    r: Result<Seq<Report>, Errno>,
)
    requires
        g.t == c.t,
        pass_holds(g, l0, c, pairs, rules, p.run.s, p.run.log, p.vf_carried),
        pairs_reconciled(c, pairs, p, s2, log2, r),
    ensures
        sound(g, l0, s2.book.dir, log2),
        grew(p.run.log, log2),
        all_allowed(g, seen(c), pairs, rules, s2.vf_answer(), since(l0, log2)),
        r is Ok ==> forall|i: int|
            0 <= i < pairs.len() ==> keeps_noted(g, since(l0, log2), s2, c.t, #[trigger] pairs[i]),
{
    let (ps, k) = choose|ps: Seq<Progress>, k: int|
        {
            &&& 0 <= k <= pairs.len()
            &&& #[trigger] pairs_passed(c, pairs.take(k), ps)
            &&& ps[0] == p
            &&& match r {
                Ok(reports) => {
                    &&& k == pairs.len()
                    &&& reports == ps.last().reports
                    &&& s2 == (SyncerModel {
                        timings: pass_findings(c, ps.last()),
                        ..ps.last().run.s
                    })
                    &&& log2 == ps.last().run.log
                },
                Err(e) => k < pairs.len() && pair_stopped(c, pairs[k], ps.last(), s2, log2, e),
            }
        };
    lemma_pairs_passed(g, l0, c, pairs, rules, ps, k, k);
    let q = ps[k];
    assert(ps.last() == q);
    if let Err(e) = r {
        let pair = pairs[k];
        let anat = place_of(c.t, pair)->0;
        let (sa, la) = choose|sa: SyncerModel, la: Seq<Op>| #[trigger]
            pair_read(c.t, c.apply, pair.dev, q.run.s, q.run.log, sa, la) && answer_settled(
                c,
                anat,
                pair.dev,
                owned_in(sa.book.dir, pair.dev),
                sa,
                la,
                q.vf_carried,
                s2,
                log2,
                q.vf_carried,
                Some(e),
            );
        lemma_pair_read(
            g,
            l0,
            c,
            pairs,
            rules,
            pair.dev,
            q.vf_carried,
            q.run.s,
            q.run.log,
            sa,
            la,
        );
        lemma_answer_settled(
            g,
            l0,
            c,
            pairs,
            rules,
            anat,
            pair.dev,
            owned_in(sa.book.dir, pair.dev),
            sa,
            la,
            q.vf_carried,
            s2,
            log2,
            q.vf_carried,
            Some(e),
        );
        lemma_grew_trans(p.run.log, q.run.log, la);
        lemma_grew_trans(p.run.log, la, log2);
    }
}

pub(crate) proof fn lemma_pass_made(
    g: Ground,
    l0: Seq<Op>,
    t: TopologyModel,
    apply: bool,
    fdb: Seq<FdbEntry>,
    pfs: Seq<u32>,
    carried: bool,
    s: SyncerModel,
    log: Seq<Op>,
    s2: SyncerModel,
    log2: Seq<Op>,
    r: Result<Seq<Report>, Errno>,
)
    requires
        g.t == t,
        sound(g, l0, s.book.dir, log),
        if carried {
            removals_only(since(l0, log))
        } else {
            asked(since(l0, log), pfs, s.vf_answer()) && removals_only(since(l0, log))
        },
        pass_made(t, apply, fdb, pfs, carried, s, log, s2, log2, r),
    ensures
        sound(g, l0, s2.book.dir, log2),
        grew(log, log2),
        all_allowed(
            g,
            (Seen { t, fdb, pfs }),
            s.pairs,
            s.rules(),
            s2.vf_answer(),
            since(l0, log2),
        ),
        r is Ok ==> forall|i: int|
            0 <= i < s.pairs.len() ==> keeps_noted(
                g,
                since(l0, log2),
                s2,
                t,
                #[trigger] s.pairs[i],
            ),
{
    let (now, r1) = choose|now: Moment, r1: Run|
        {
            &&& #[trigger] orphans_dropped(
                t,
                apply,
                pass_start(s, log.push(Op::Clock { reading: now }), at_after(s, now)),
                r1,
            )
            &&& pairs_reconciled(
                Pass { t, fdb, pfs, pass_at: at_after(s, now), apply },
                s.pairs,
                Progress { run: r1, vf_carried: carried, reports: Seq::empty() },
                s2,
                log2,
                r,
            )
        };
    let c = Pass { t, fdb, pfs, pass_at: at_after(s, now), apply };
    let clock = Op::Clock { reading: now };
    let lc = log.push(clock);
    let r0 = pass_start(s, lc, c.pass_at);
    lemma_allowed_none(g, seen(c), s.pairs, s.rules(), s.vf_answer(), since(l0, log));
    assert(pass_holds(g, l0, c, s.pairs, s.rules(), s, log, carried));
    lemma_filework_one(s.book.dir, log, clock);
    lemma_holds_files(g, l0, c, s.pairs, s.rules(), s, log, carried, r0.s, lc);
    orphans_only_take_out(g, l0, apply, r0, r1);
    lemma_grew_trans(log, lc, r1.log);
    lemma_holds_removals(
        g,
        l0,
        c,
        s.pairs,
        s.rules(),
        r0.s,
        lc,
        carried,
        r1.s,
        r1.log,
    );
    let p = Progress { run: r1, vf_carried: carried, reports: Seq::empty() };
    lemma_pairs_reconciled(g, l0, c, s.pairs, s.rules(), p, s2, log2, r);
    lemma_grew_trans(log, r1.log, log2);
}

/// A pass that has read the forwarding table keeps to the record, and puts
/// nothing into a card that may not be there.
pub proof fn lemma_table_reconciled(
    g: Ground,
    l0: Seq<Op>,
    t: TopologyModel,
    apply: bool,
    fdb: Seq<FdbEntry>,
    pfs: Seq<u32>,
    s: SyncerModel,
    log: Seq<Op>,
    s2: SyncerModel,
    log2: Seq<Op>,
    r: Result<Seq<Report>, Errno>,
)
    requires
        g.t == t,
        sound(g, l0, s.book.dir, log),
        removals_only(since(l0, log)),
        table_reconciled(t, apply, fdb, pfs, s, log, s2, log2, r),
    ensures
        sound(g, l0, s2.book.dir, log2),
        grew(log, log2),
        all_allowed(
            g,
            (Seen { t, fdb, pfs }),
            s.pairs,
            s.rules(),
            s2.vf_answer(),
            since(l0, log2),
        ),
        r is Ok ==> forall|i: int|
            0 <= i < s.pairs.len() ==> keeps_noted(
                g,
                since(l0, log2),
                s2,
                t,
                #[trigger] s.pairs[i],
            ),
{
    let (s1, l1, failed) = choose|s1: SyncerModel, l1: Seq<Op>, failed: Option<Errno>|
        {
            &&& #[trigger] answer_first(s, log, pfs, s1, l1, failed)
            &&& match failed {
                None => pass_made(t, apply, fdb, pfs, s.vf_usable(pfs), s1, l1, s2, log2, r),
                Some(e) => r == Err::<Seq<Report>, Errno>(e) && s2 == s1 && log2 == l1,
            }
        };
    lemma_grew_same(log);
    if !s.vf_usable(pfs) {
        let op = l1.last();
        lemma_sound_ask(g, l0, s.book.dir, log, op);
        lemma_grew_push(log, log, op);
        let a = since(l0, log);
        let b = since(l0, l1);
        assert(removals_only(b)) by {
            assert forall|i: int| 0 <= i < b.len() implies ((#[trigger] b[i]) matches Op::Card {
                add,
                ..
            } ==> !add) by {
                if i < a.len() {
                    assert(b[i] == a[i]);
                }
            }
        }
        if failed is None {
            assert(b[a.len() as int] == op);
            assert(asked(b, pfs, s1.vf_answer()));
        }
    }
    if failed is None {
        lemma_pass_made(
            g,
            l0,
            t,
            apply,
            fdb,
            pfs,
            s.vf_usable(pfs),
            s1,
            l1,
            s2,
            log2,
            r,
        );
        lemma_grew_trans(log, l1, log2);
    } else {
        lemma_allowed_none(
            g,
            Seen { t, fdb, pfs },
            s.pairs,
            s.rules(),
            s2.vf_answer(),
            since(l0, log2),
        );
    }
}

/// A full pass keeps to the record: whatever it puts into a card is on the note
/// of that card's device at that moment, and whatever it takes out was on the
/// note at some moment of the pass.
pub proof fn a_pass_keeps_to_the_record(
    t: TopologyModel,
    apply: bool,
    s: SyncerModel,
    log: Seq<Op>,
    s2: SyncerModel,
    log2: Seq<Op>,
    r: Result<Seq<Report>, Errno>,
)
    requires
        reconciled(t, apply, s, log, s2, log2, r),
    ensures
        sound((Ground { t, dir: s.book.dir, quiet: Set::empty() }), log, s2.book.dir, log2),
{
    let g = Ground { t, dir: s.book.dir, quiet: Set::empty() };
    lemma_sound_start(g, log);
    if s.pairs.len() == 0 {
        let r1 = choose|r1: Run|
            {
                &&& #[trigger] orphans_dropped(
                    t,
                    apply,
                    Run { s, log, failures: Seq::empty() },
                    r1,
                )
                &&& s2 == (SyncerModel {
                    timings: Findings {
                        links: counted(t.links.dom().len()),
                        failures: r1.failures,
                        ..no_findings()
                    },
                    ..r1.s
                })
                &&& log2 == r1.log
                &&& r == Ok::<Seq<Report>, Errno>(Seq::empty())
            };
        let r0 = Run { s, log, failures: Seq::empty() };
        orphans_only_take_out(g, log, apply, r0, r1);
    } else {
        lemma_dumped(g, t, apply, s, log, s2, log2, r);
    }
}

proof fn lemma_dumped(
    g: Ground,
    t: TopologyModel,
    apply: bool,
    s: SyncerModel,
    log: Seq<Op>,
    s2: SyncerModel,
    log2: Seq<Op>,
    r: Result<Seq<Report>, Errno>,
)
    requires
        g.t == t,
        g.dir == s.book.dir,
        s.pairs.len() > 0,
        reconciled(t, apply, s, log, s2, log2, r),
    ensures
        sound(g, log, s2.book.dir, log2),
        log2[log.len() as int] matches Op::DumpFdb { table: Ok(fdb) } ==> all_allowed(
            g,
            (Seen {
                t,
                fdb,
                pfs: live_functions(
                    t,
                    pair_devs(s.pairs),
                ),
            }),
            s.pairs,
            s.rules(),
            s2.vf_answer(),
            since(log, log2),
        ),
        r is Ok ==> forall|i: int|
            0 <= i < s.pairs.len() ==> keeps_noted(
                g,
                since(log, log2),
                s2,
                t,
                #[trigger] s.pairs[i],
            ),
{
    lemma_sound_start(g, log);
    lemma_grew_same(log);
    let dump = log2[log.len() as int];
    let l1 = log.push(dump);
    lemma_sound_ask(g, log, g.dir, log, dump);
    assert(since(log, l1) =~= seq![dump]);
    if let Op::DumpFdb { table: Ok(fdb) } = dump {
        lemma_table_reconciled(
            g,
            log,
            t,
            apply,
            fdb,
            live_functions(t, pair_devs(s.pairs)),
            s,
            l1,
            s2,
            log2,
            r,
        );
    }
}

/// What a full pass puts into a card can stand in a filter, is not out on the
/// wire by the dump it works from, and is not excluded - so it is no virtual
/// function's own address - by an answer the driver gave within this very pass.
/// It belongs behind the bridge, or it was on the note before.
pub proof fn a_pass_adds_only_what_may_be_there(
    t: TopologyModel,
    apply: bool,
    s: SyncerModel,
    log: Seq<Op>,
    fdb: Seq<FdbEntry>,
    s2: SyncerModel,
    log2: Seq<Op>,
    r: Result<Seq<Report>, Errno>,
)
    requires
        s.pairs.len() > 0,
        reconciled(t, apply, s, log, s2, log2, r),
        log2[log.len() as int] == (Op::DumpFdb { table: Ok(fdb) }),
    ensures
        all_allowed(
            (Ground { t, dir: s.book.dir, quiet: Set::empty() }),
            (Seen {
                t,
                fdb,
                pfs: live_functions(
                    t,
                    pair_devs(s.pairs),
                ),
            }),
            s.pairs,
            s.rules(),
            s2.vf_answer(),
            since(log, log2),
        ),
{
    lemma_dumped(
        Ground { t, dir: s.book.dir, quiet: Set::empty() },
        t,
        apply,
        s,
        log,
        s2,
        log2,
        r,
    );
}

/// The three rules of a full pass, together. An address that goes into a card
/// goes into that of a pair's uplink: it can stand in a filter, it was not learnt
/// on that uplink's own port, it is not excluded and no virtual function's own by
/// the driver's last answer, which was given within this pass, and the dump does
/// not show it there already. It is on the note at that moment. And an address
/// that is taken out was on the note, as this pass read it.
pub proof fn a_pass_keeps_the_three_rules(
    t: TopologyModel,
    apply: bool,
    s: SyncerModel,
    log: Seq<Op>,
    fdb: Seq<FdbEntry>,
    s2: SyncerModel,
    log2: Seq<Op>,
    r: Result<Seq<Report>, Errno>,
    i: int,
)
    requires
        s.pairs.len() > 0,
        reconciled(t, apply, s, log, s2, log2, r),
        log2[log.len() as int] == (Op::DumpFdb { table: Ok(fdb) }),
        0 <= i < since(log, log2).len(),
    ensures
        ({
            let g = Ground { t, dir: s.book.dir, quiet: Set::empty() };
            let before = since(log, log2).take(i);
            since(log, log2)[i] matches Op::Card { ifindex, mac, add, .. } ==> if add {
                noted_now(g, before, ifindex, mac) && exists|k: int|
                    0 <= k < s.pairs.len() && #[trigger] may_add_to(
                        t,
                        fdb,
                        s.rules(),
                        s2.vf_answer(),
                        s.pairs[k],
                        ifindex,
                        mac,
                    )
            } else {
                ever_noted(g, before, ifindex, mac)
            }
        }),
{
    let g = Ground { t, dir: s.book.dir, quiet: Set::empty() };
    let ops = since(log, log2);
    let c = Seen { t, fdb, pfs: live_functions(t, pair_devs(s.pairs)) };
    a_pass_keeps_to_the_record(t, apply, s, log, s2, log2, r);
    a_pass_adds_only_what_may_be_there(t, apply, s, log, fdb, s2, log2, r);
    assert(on_record(g, ops, i));
    assert(allowed(g, c, s.pairs, s.rules(), s2.vf_answer(), ops, i));
    if let Op::Card { ifindex, mac, add, .. } = ops[i] {
        if add {
            let k = choose|k: int|
                {
                    &&& 0 <= k < s.pairs.len()
                    &&& may_hold(c, s.rules(), s2.vf_answer(), #[trigger] s.pairs[k], ifindex, mac)
                    &&& !own_entries(c.fdb, ifindex).contains(mac)
                };
            let anat = place_of(t, s.pairs[k])->0;
            reported_addresses_are_excluded(s.rules().exclude, t.links, anat, s2.vf_answer());
            assert(may_add_to(
                t,
                fdb,
                s.rules(),
                s2.vf_answer(),
                s.pairs[k],
                ifindex,
                mac,
            ));
        }
    }
}

/// Whether an address may be added to the filter of a pair's uplink.
pub open spec fn may_add_to(
    t: TopologyModel,
    fdb: Seq<FdbEntry>,
    rules: Rules,
    vf: Seq<(u32, Mac)>,
    pair: PairModel,
    index: u32,
    mac: Mac,
) -> bool {
    place_of(t, pair) matches Some(anat) && {
        &&& index == anat.dev
        &&& registerable(mac)
        &&& !own_entries(fdb, index).contains(mac)
        &&& !wire_set(t.links, anat, fdb).contains(mac)
        &&& !rules.exclude.contains(mac)
        &&& !reported(anat.functions, vf).contains(mac)
    }
}

/// Only what has been on its note is kept: after a full pass, whatever is being
/// kept for a pair that stands where it should was on the note of its device at
/// some moment of the pass.
pub proof fn what_is_kept_was_noted(
    t: TopologyModel,
    apply: bool,
    s: SyncerModel,
    log: Seq<Op>,
    s2: SyncerModel,
    log2: Seq<Op>,
    reports: Seq<Report>,
    i: int,
)
    requires
        reconciled(t, apply, s, log, s2, log2, Ok(reports)),
        0 <= i < s.pairs.len(),
    ensures
        keeps_noted(
            (Ground { t, dir: s.book.dir, quiet: Set::empty() }),
            since(log, log2),
            s2,
            t,
            s.pairs[i],
        ),
{
    lemma_dumped(
        Ground { t, dir: s.book.dir, quiet: Set::empty() },
        t,
        apply,
        s,
        log,
        s2,
        log2,
        Ok(reports),
    );
}

/// A pass over a pair whose card holds all that is wanted, and whose note names
/// nothing else, asks nothing of the card.
pub proof fn a_settled_pair_is_left_alone(
    c: Pass,
    pair: PairModel,
    anat: AnatomyModel,
    owned: Set<Mac>,
    readable: bool,
    d: Decision,
    r: Run,
    reports: Seq<Report>,
    p2: Progress,
)
    requires
        pair_written(c, pair, anat, owned, readable, d, r, reports, p2),
        d.want.subset_of(own_entries(c.fdb, anat.dev)),
        owned.subset_of(d.want),
    ensures
        filework(r.s.book.dir, r.log, p2.run.s.book.dir, p2.run.log),
        p2.reports.last().added == 0,
        p2.reports.last().removed == 0,
{
    let (r1, a, r2, x) = choose|r1: Run, a: Added, r2: Run, x: Dropped|
        {
            &&& #[trigger] pair_registered(c, anat, pair.dev, owned, d.want, r, r1, a)
            &&& #[trigger] pair_retired(c, anat, pair.dev, a.owned, d.want, r1, r2, x)
            &&& pair_finished(c, pair, anat, owned, readable, d, a, x, r2, reports, p2)
        };
    lemma_filework_same(r.s.book.dir, r.log);
    let macs = choose|macs: Seq<Mac>|
        {
            &&& #[trigger] lists(macs, d.want.difference(own_entries(c.fdb, anat.dev)))
            &&& if !c.apply || r.s.dry_run {
                &&& r1 == r
                &&& a == (Added { count: macs.len(), owned, landed: Set::empty() })
            } else {
                batch_passed(anat, pair.dev, owned, macs, r, r1, a)
            }
        };
    assert(d.want.difference(own_entries(c.fdb, anat.dev)) =~= Set::empty());
    lemma_lists_nothing(macs);
    if c.apply && !r.s.dry_run && owned != Set::<Mac>::empty() {
        let (b1, l1) = choose|b1: BookModel, l1: Seq<Op>|
            {
                &&& #[trigger] index_passed(r.s.book, r.log, pair.dev, anat.dev, owned, macs, b1, l1)
                &&& r1 == (Run { s: r.s.with_book(b1), log: l1, ..r })
            };
        lemma_filework_index(r.s.book, r.log, pair.dev, anat.dev, b1, l1);
    }
    let stale = choose|stale: Seq<Mac>|
        {
            &&& #[trigger] lists(stale, a.owned.difference(d.want))
            &&& if !c.apply || r1.s.dry_run || stale.len() == 0 {
                &&& r2 == r1
                &&& x == (Dropped { count: stale.len(), owned: a.owned, gone: Set::empty() })
            } else {
                stale_taken_out(anat, pair.dev, a.owned, stale, r1, r2, x)
            }
        };
    assert(a.owned.difference(d.want) =~= Set::empty());
    lemma_lists_nothing(stale);
    let s3 = choose|s3: SyncerModel|
        {
            &&& #[trigger] pair_remembered(
                c,
                anat,
                pair.dev,
                owned,
                x.owned,
                readable,
                r2.s,
                r2.log,
                s3,
                p2.run.log,
            )
            &&& p2.run.s == pair_carried(c, anat, pair.dev, d, a.landed, x.gone, readable, s3)
        };
    lemma_filework_remembered(
        c,
        anat,
        pair.dev,
        owned,
        x.owned,
        readable,
        r2.s,
        r2.log,
        s3,
        p2.run.log,
    );
    lemma_filework_trans(
        r.s.book.dir,
        r.log,
        r1.s.book.dir,
        r1.log,
        s3.book.dir,
        p2.run.log,
    );
}

proof fn lemma_lists_nothing(v: Seq<Mac>)
    requires
        lists(v, Set::empty()),
    ensures
        v.len() == 0,
{
    if v.len() > 0 {
        assert(v.to_set().contains(v[0]));
    }
}

} // verus!
