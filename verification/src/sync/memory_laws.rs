//! What is remembered of an address: behind which port it was heard, and when.

use vstd::prelude::*;

use crate::graph::reaches;
use crate::mac::Mac;
use crate::netlink::{FdbEntry, Op, RTM_DELNEIGH};
use crate::sync::batch::stamped;
use crate::sync::files::{since, wrote};
use crate::sync::memory::{
    dated, dated_for, heard, memory_lines, memory_saved, memory_settled, memory_written,
    passed_over, silence, sorted_texts, MemoryModel, PortsModel,
};
use crate::sync::notes::{lock_asked, ports_name, BookModel};
use crate::sync::pass::evicted;
use crate::sync::record::memory_text;
use crate::sync::syncer::SyncerModel;
use crate::sync::types::PairModel;
use crate::topology::{edges, subtree, LinkModel, TopologyModel, Way};
use crate::topology::path_laws::{below_is_what_a_path_leads_down_to, leads_down};

verus! {

/// The later of two times.
pub open spec fn later(a: u64, b: u64) -> u64 {
    if a >= b {
        a
    } else {
        b
    }
}

/// Who speaks is remembered behind the port it spoke on, with the time of it or a
/// later one that is known already; whoever did not speak is left as it was.
pub proof fn who_speaks_is_stamped(ports: PortsModel, learnt: Map<Mac, u32>, at: u64, m: Mac)
    ensures
        learnt.contains_key(m) ==> heard(ports, learnt, at).contains_key(m) && heard(
            ports,
            learnt,
            at,
        )[m].0 == learnt[m],
        learnt.contains_key(m) && ports.contains_key(m) ==> heard(ports, learnt, at)[m].1 == later(
            at,
            ports[m].1,
        ),
        learnt.contains_key(m) && !ports.contains_key(m) ==> heard(ports, learnt, at)[m].1 == at,
        !learnt.contains_key(m) ==> heard(ports, learnt, at).contains_key(m) == ports.contains_key(
            m,
        ) && (ports.contains_key(m) ==> heard(ports, learnt, at)[m] == ports[m]),
{
}

/// A burst stamps who spoke in the memory of its own uplink, and in no other; it
/// stamps nobody before the memory of the previous process has been taken over.
pub proof fn a_burst_stamps_its_own_uplink(
    s: SyncerModel,
    dev: Seq<char>,
    learnt: Map<Mac, u32>,
    now: u64,
    other: Seq<char>,
    m: Mac,
)
    ensures
        !s.memory.loaded.contains(dev) ==> stamped(s, dev, learnt, now) == s,
        s.memory.loaded.contains(dev) && learnt.contains_key(m) ==> {
            let after = stamped(s, dev, learnt, now).memory.carried;
            &&& after.contains_key(dev)
            &&& after[dev].contains_key(m)
            &&& after[dev][m].0 == learnt[m]
            &&& after[dev][m].1 >= now
        },
        other != dev ==> stamped(s, dev, learnt, now).memory.carried.contains_key(other)
            == s.memory.carried.contains_key(other) && stamped(
            s,
            dev,
            learnt,
            now,
        ).memory.carried[other] == s.memory.carried[other],
        stamped(s, dev, learnt, now).book == s.book,
        stamped(s, dev, learnt, now).carried == s.carried,
{
}

/// After a pass only what is on the note is remembered: behind the port where the
/// table showed it, as of this pass; or as before, where the table did not.
pub proof fn a_pass_remembers_what_is_noted(
    ports: PortsModel,
    learnt: Map<Mac, u32>,
    at: u64,
    owned: Set<Mac>,
    m: Mac,
)
    ensures
        passed_over(ports, learnt, at, owned).contains_key(m) <==> owned.contains(m) && (
        ports.contains_key(m) || learnt.contains_key(m)),
        owned.contains(m) && learnt.contains_key(m) ==> passed_over(ports, learnt, at, owned)[m] == (
            learnt[m],
            if ports.contains_key(m) {
                later(at, ports[m].1)
            } else {
                at
            },
        ),
        owned.contains(m) && !learnt.contains_key(m) && ports.contains_key(m) ==> passed_over(
            ports,
            learnt,
            at,
            owned,
        )[m] == ports[m],
{
}

/// What is taken out of a card is forgotten, and nothing else.
pub proof fn what_is_evicted_is_forgotten(
    mem: MemoryModel,
    dev: Seq<char>,
    macs: Set<Mac>,
    other: Seq<char>,
    m: Mac,
)
    ensures
        evicted(mem, dev, macs).carried.contains_key(other) == mem.carried.contains_key(other),
        mem.carried.contains_key(dev) ==> (evicted(mem, dev, macs).carried[dev].contains_key(m)
            <==> mem.carried[dev].contains_key(m) && !macs.contains(m)),
        mem.carried.contains_key(dev) && mem.carried[dev].contains_key(m) && !macs.contains(m)
            ==> evicted(mem, dev, macs).carried[dev][m] == mem.carried[dev][m],
        other != dev ==> evicted(mem, dev, macs).carried[other] == mem.carried[other],
{
}

/// How long an address has been silent: since it was last heard of, or since the
/// clock started where nothing is remembered of it, and never less than nothing.
pub proof fn silence_counts_from_the_last_word(
    mem: MemoryModel,
    dev: Seq<char>,
    m: Mac,
    now: u64,
)
    ensures
        mem.carried.contains_key(dev) && mem.carried[dev].contains_key(m) ==> silence(
            mem,
            dev,
            m,
            now,
        ) == if now >= mem.carried[dev][m].1 {
            (now - mem.carried[dev][m].1) as u64
        } else {
            0
        },
        !(mem.carried.contains_key(dev) && mem.carried[dev].contains_key(m)) ==> silence(
            mem,
            dev,
            m,
            now,
        ) == now,
{
}

/// Whether a bridge serves an uplink: the bridge of one of its pairs is at or
/// below it.
pub open spec fn serves(
    t: TopologyModel,
    pairs: Seq<PairModel>,
    master: u32,
    dev: Seq<char>,
) -> bool {
    exists|i: int|
        0 <= i < pairs.len() && (#[trigger] pairs[i]).dev == dev && t.names.contains_key(
            pairs[i].bridge,
        ) && lies_below(t.links, master, t.names[pairs[i].bridge])
}

/// Whether a path down leads from one interface to another.
pub open spec fn lies_below(links: Map<u32, LinkModel>, a: u32, b: u32) -> bool {
    exists|p: Seq<u32>| #[trigger] leads_down(links, p) && p[0] == a && p.last() == b
}

proof fn lemma_lies_below(links: Map<u32, LinkModel>, a: u32, b: u32)
    ensures
        reaches(edges(links, Way::Down), a, b) <==> lies_below(links, a, b),
{
    below_is_what_a_path_leads_down_to(links, a, b);
    assert(seq![a][0] == a);
    assert(seq![a].contains(a));
    assert(subtree(links, a).contains(b) <==> reaches(edges(links, Way::Down), a, b));
}

proof fn lemma_dated_for(
    carried: Map<Seq<char>, PortsModel>,
    t: TopologyModel,
    pairs: Seq<PairModel>,
    master: u32,
    mac: Mac,
    spoke: u64,
    dev: Seq<char>,
    m: Mac,
)
    requires
        carried.contains_key(dev),
        carried[dev].contains_key(m),
    ensures
        ({
            let after = dated_for(carried, t, pairs, master, mac, spoke);
            &&& after.contains_key(dev)
            &&& after[dev].contains_key(m)
            &&& after[dev][m].0 == carried[dev][m].0
            &&& after[dev][m].1 == if m == mac && serves(t, pairs, master, dev) {
                later(spoke, carried[dev][m].1)
            } else {
                carried[dev][m].1
            }
        }),
    decreases pairs.len(),
{
    if pairs.len() > 0 {
        let front = pairs.drop_last();
        let p = pairs.last();
        lemma_dated_for(carried, t, front, master, mac, spoke, dev, m);
        if t.names.contains_key(p.bridge) {
            lemma_lies_below(t.links, master, t.names[p.bridge]);
        }
        assert(pairs[pairs.len() - 1] == p);
        assert forall|i: int| 0 <= i < front.len() implies #[trigger] front[i] == pairs[i] by {}
        if serves(t, front, master, dev) {
            let i = choose|i: int|
                0 <= i < front.len() && (#[trigger] front[i]).dev == dev && t.names.contains_key(
                    front[i].bridge,
                ) && lies_below(t.links, master, t.names[front[i].bridge]);
            assert(pairs[i].dev == dev);
        }
        if serves(t, pairs, master, dev) && !serves(t, front, master, dev) {
            let i = choose|i: int|
                0 <= i < pairs.len() && (#[trigger] pairs[i]).dev == dev && t.names.contains_key(
                    pairs[i].bridge,
                ) && lies_below(t.links, master, t.names[pairs[i].bridge]);
            if i < front.len() {
                assert(front[i].dev == dev);
            }
        }
    }
}

/// Whether a notification dates the silence of an address for an uplink: a bridge
/// that serves the uplink, and whose ageing time is known, has forgotten it.
pub open spec fn dates(
    t: TopologyModel,
    pairs: Seq<PairModel>,
    event: (u16, FdbEntry),
    dev: Seq<char>,
    m: Mac,
) -> bool {
    &&& event.0 == RTM_DELNEIGH
    &&& event.1.mac == m
    &&& event.1.master matches Some(b) && t.links.contains_key(b) && t.links[b].ageing_ms is Some
        && serves(t, pairs, b, dev)
}

/// When the address was last heard of by such a notification: one ageing time
/// ago.
pub open spec fn dated_to(t: TopologyModel, event: (u16, FdbEntry), now: u64) -> u64 {
    let ageing = t.links[event.1.master->0].ageing_ms->0;
    if now >= ageing {
        (now - ageing) as u64
    } else {
        0
    }
}

/// What a batch of notifications says of silences: an address of an uplink that
/// a bridge serving it has forgotten was heard of one ageing time ago, unless
/// something later is known. Its port stays, no other bridge's forgetting counts,
/// and no stamp comes from anywhere else.
pub proof fn a_forgotten_address_is_dated(
    carried: Map<Seq<char>, PortsModel>,
    t: TopologyModel,
    pairs: Seq<PairModel>,
    events: Seq<(u16, FdbEntry)>,
    now: u64,
    dev: Seq<char>,
    m: Mac,
)
    requires
        carried.contains_key(dev),
        carried[dev].contains_key(m),
    ensures
        ({
            let after = dated(carried, t, pairs, events, now);
            &&& after.contains_key(dev)
            &&& after[dev].contains_key(m)
            &&& after[dev][m].0 == carried[dev][m].0
            &&& after[dev][m].1 >= carried[dev][m].1
            &&& forall|j: int|
                0 <= j < events.len() && dates(t, pairs, #[trigger] events[j], dev, m)
                    ==> after[dev][m].1 >= dated_to(t, events[j], now)
            &&& after[dev][m].1 == carried[dev][m].1 || exists|j: int|
                0 <= j < events.len() && dates(t, pairs, #[trigger] events[j], dev, m)
                    && after[dev][m].1 == dated_to(t, events[j], now)
        }),
    decreases events.len(),
{
    if events.len() > 0 {
        let front = events.drop_last();
        let e = events.last();
        let n = events.len() - 1;
        let before = dated(carried, t, pairs, front, now);
        let after = dated(carried, t, pairs, events, now);
        a_forgotten_address_is_dated(carried, t, pairs, front, now, dev, m);
        assert(events[n] == e);
        assert forall|j: int| 0 <= j < front.len() implies #[trigger] front[j] == events[j] by {}
        if e.0 == RTM_DELNEIGH {
            if let Some(b) = e.1.master {
                if t.links.contains_key(b) && t.links[b].ageing_ms is Some {
                    lemma_dated_for(
                        before,
                        t,
                        pairs,
                        b,
                        e.1.mac,
                        dated_to(t, e, now),
                        dev,
                        m,
                    );
                }
            }
        }
        assert(after[dev][m].1 == if dates(t, pairs, e, dev, m) {
            later(dated_to(t, e, now), before[dev][m].1)
        } else {
            before[dev][m].1
        });
        assert forall|j: int|
            0 <= j < events.len() && dates(t, pairs, #[trigger] events[j], dev, m) implies
            after[dev][m].1 >= dated_to(t, events[j], now) by {
            if j < n {
                assert(dates(t, pairs, front[j], dev, m));
            }
        }
        if after[dev][m].1 != carried[dev][m].1 {
            if after[dev][m].1 == before[dev][m].1 {
                let j = choose|j: int|
                    0 <= j < front.len() && dates(t, pairs, #[trigger] front[j], dev, m)
                        && before[dev][m].1 == dated_to(t, front[j], now);
                assert(dates(t, pairs, events[j], dev, m));
            } else {
                assert(dates(t, pairs, events[n], dev, m));
            }
        }
    }
}

/// What is remembered is written down: where the file is not known to say it
/// already, it is asked to be replaced by the lines of the memory, under the
/// device's lock.
pub proof fn a_changed_memory_is_written_down(
    mem: MemoryModel,
    b: BookModel,
    log: Seq<Op>,
    t: TopologyModel,
    dev: Seq<char>,
    pass_at: u64,
    mem2: MemoryModel,
    b2: BookModel,
    log2: Seq<Op>,
)
    requires
        memory_saved(mem, b, log, t, dev, pass_at, false, mem2, b2, log2),
        mem.carried.contains_key(dev),
        !mem.written.contains_key(dev),
        sorted_texts(memory_lines(t.links, mem.carried[dev], None)).len() > 0,
    ensures
        log2.len() >= log.len() + 3,
        log2[log.len() as int] matches Op::Lock { dev: d, .. } && d == dev,
        log2[log.len() as int + 1] matches Op::Put { name, text, .. } && name == ports_name(dev)
            && text == memory_text(sorted_texts(memory_lines(t.links, mem.carried[dev], None))),
        log2.last() == (Op::Unlock { dev }),
{
    let ports = mem.ports(dev);
    let keys = sorted_texts(memory_lines(t.links, ports, Some(pass_at)));
    let rows = sorted_texts(memory_lines(t.links, ports, None));
    let (bl, ll, lb) = choose|bl: BookModel, ll: Seq<Op>, lb: Seq<Op>|
        {
            &&& #[trigger] lock_asked(b, log, dev, bl, ll)
            &&& #[trigger] memory_settled(mem, bl, ll, dev, rows, keys, mem2, b2, lb)
            &&& log2 == lb.push(Op::Unlock { dev })
        };
    assert(memory_written(mem, bl, ll, dev, rows, keys, mem2, b2, lb));
    let put = Op::Put { name: ports_name(dev), text: memory_text(rows), refused: None };
    let r = choose|r: bool| #[trigger] wrote(bl.dir, ll, put, b2.dir, lb, r);
    let ops = since(ll, lb);
    assert(lb[ll.len() as int] == ops[0]);
    assert(lb.take(ll.len() as int)[log.len() as int] == ll[log.len() as int]);
    assert(log2[log.len() as int] == ll.last());
    assert(log2[log.len() as int + 1] == ops[0]);
}

} // verus!
