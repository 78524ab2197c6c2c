//! What holds of the quiet addresses: which stay, which are surrendered first,
//! and what a restart takes over.

use vstd::prelude::*;

use crate::mac::{registerable, spelling_is_unique, spells, Mac};
use crate::netlink::FdbEntry;
use crate::sync::decide::{behind_map, desired_set, excluded, port_lives, wire_set};
use crate::sync::files::{file_text, Files};
use crate::sync::memory::{
    believed, believed_lines, has_line, latest, lemma_line_starts, lemma_sorted_texts_list,
    memory_line, memory_lines, passed_over, ports_from, previous_memory, sorted_texts, PortsModel,
};
use crate::sync::notes::{note_name, owned_in};
use crate::sync::pass::{
    kept_of, limit_for, pair_decided, pair_shed, pressure, want_of, Decision, Pass,
};
use crate::sync::record::{
    memory_of, memory_reads_back, memory_text, named_in, plain_name, port_lines, RememberedModel,
};
use crate::sync::syncer::{SyncerModel, CAPACITY_HEADROOM};
use crate::sync::valve::more_silent;
use crate::text::{lines, trim};
use crate::topology::{AnatomyModel, LinkModel, TopologyModel};

verus! {

proof fn lemma_named_finite(ls: Seq<Seq<char>>)
    ensures
        named_in(ls).finite(),
    decreases ls.len(),
{
    if ls.len() == 0 {
        assert(named_in(ls) =~= Set::empty());
    } else {
        let head = ls.drop_last();
        let t = trim(ls.last());
        lemma_named_finite(head);
        let one = if exists|m: Mac| spells(t, m) {
            set![choose|m: Mac| spells(t, m)]
        } else {
            Set::empty()
        };
        assert forall|m: Mac| named_in(ls).contains(m) implies named_in(head).union(one).contains(
            m,
        ) by {
            let i = choose|i: int| 0 <= i < ls.len() && spells(trim(#[trigger] ls[i]), m);
            if i < head.len() {
                assert(head[i] == ls[i]);
            } else {
                assert(spells(t, m));
                spelling_is_unique(t, m, choose|x: Mac| spells(t, x));
            }
        }
        assert(named_in(ls).subset_of(named_in(head).union(one)));
        vstd::set_lib::lemma_set_subset_finite(named_in(head).union(one), named_in(ls));
    }
}

/// A pass relieves the card, or has nothing left to surrender: what it decides
/// on fits with the headroom counted, or nothing is kept any more. Nothing that
/// is wanted outright is ever surrendered, and what is surrendered has been
/// silent for at least as long as whatever is kept on.
pub proof fn pressure_is_relieved(
    c: Pass,
    anat: AnatomyModel,
    dev: Seq<char>,
    dir: Files,
    s: SyncerModel,
    s2: SyncerModel,
    d: Decision,
)
    requires
        pair_decided(c, anat, dev, owned_in(dir, dev), s, s2, d),
    ensures
        d.occupied + CAPACITY_HEADROOM <= limit_for(c, anat, dev, s) || d.kept
            == Set::<Mac>::empty(),
        desired_set(s.rules(), c.t.links, anat, c.fdb, s.vf_answer()).subset_of(d.want),
        d.kept.subset_of(d.want),
        forall|a: Mac, b: Mac|
            #![trigger d.want.contains(a), d.kept.contains(b)]
            want_of(c, anat, dev, owned_in(dir, dev), s).contains(a) && !d.want.contains(a)
                && d.kept.contains(b) ==> more_silent(s.memory.ports(dev), a, b),
{
    let owned = owned_in(dir, dev);
    let kept = kept_of(c, anat, dev, owned, s);
    let want = want_of(c, anat, dev, owned, s);
    let over = pressure(c, anat, dev, owned, s);
    let shed = choose|shed: Seq<Mac>| #[trigger] pair_shed(c, anat, dev, owned, s, shed, d);
    lemma_named_finite(lines(file_text(dir, note_name(dev))));
    assert(kept.subset_of(owned));
    vstd::set_lib::lemma_set_subset_finite(owned, kept);
    shed.unique_seq_to_set();
    if over > kept.len() {
        vstd::set_lib::lemma_subset_equality(shed.to_set(), kept);
        assert(d.kept =~= Set::empty());
    }
    assert forall|a: Mac, b: Mac|
        #![trigger d.want.contains(a), d.kept.contains(b)]
        want.contains(a) && !d.want.contains(a) && d.kept.contains(b) implies more_silent(
        s.memory.ports(dev),
        a,
        b,
    ) by {
        assert(shed.to_set().contains(a));
        assert(shed.contains(a));
        assert(kept.contains(b));
    }
}

/// A quiet address stays: where the list is not near its limit, an owned
/// address is wanted on for as long as the port it was heard behind still hangs
/// under the bridge, unless it has moved out to the wire or is excluded.
pub proof fn a_quiet_address_stays(
    c: Pass,
    anat: AnatomyModel,
    dev: Seq<char>,
    owned: Set<Mac>,
    s: SyncerModel,
    s2: SyncerModel,
    d: Decision,
    m: Mac,
)
    requires
        pair_decided(c, anat, dev, owned, s, s2, d),
        pressure(c, anat, dev, owned, s) == 0,
        c.t.links.contains_key(anat.dev),
        owned.contains(m),
        s.memory.ports(dev).contains_key(m),
        port_lives(c.t.links, anat, s.memory.ports(dev)[m].0),
        !wire_set(c.t.links, anat, c.fdb).contains(m),
        !excluded(s.rules().exclude, c.t.links, anat, s.vf_answer()).contains(m),
        registerable(m),
    ensures
        d.want.contains(m),
{
    let shed = choose|shed: Seq<Mac>| #[trigger] pair_shed(c, anat, dev, owned, s, shed, d);
    assert(shed =~= Seq::empty());
    assert(!shed.to_set().contains(m));
    assert(want_of(c, anat, dev, owned, s).contains(m));
}

/// The entry goes when its port goes: an owned address that is not wanted
/// outright and whose port no longer hangs under the bridge, or that nothing is
/// remembered of, is not kept.
pub proof fn a_lost_port_ends_the_keep(
    c: Pass,
    anat: AnatomyModel,
    dev: Seq<char>,
    owned: Set<Mac>,
    s: SyncerModel,
    s2: SyncerModel,
    d: Decision,
    m: Mac,
)
    requires
        pair_decided(c, anat, dev, owned, s, s2, d),
        !desired_set(s.rules(), c.t.links, anat, c.fdb, s.vf_answer()).contains(m),
        !(s.memory.ports(dev).contains_key(m) && port_lives(
            c.t.links,
            anat,
            s.memory.ports(dev)[m].0,
        )),
    ensures
        !d.want.contains(m),
{
    let shed = choose|shed: Seq<Mac>| #[trigger] pair_shed(c, anat, dev, owned, s, shed, d);
    assert(!want_of(c, anat, dev, owned, s).contains(m));
}

/// Every fresh learn makes an entry young again: an owned address that the dump
/// shows behind a port is remembered behind that port, with the stamp of this
/// pass or a later one, and whatever the dump does not show stays as it was.
pub proof fn a_fresh_learn_is_young(
    links: Map<u32, LinkModel>,
    anat: AnatomyModel,
    fdb: Seq<FdbEntry>,
    ports: PortsModel,
    at: u64,
    owned: Set<Mac>,
    m: Mac,
)
    requires
        owned.contains(m),
    ensures
        ({
            let behind = behind_map(links, anat, fdb);
            let after = passed_over(ports, behind, at, owned);
            if behind.contains_key(m) {
                after.contains_key(m) && after[m].0 == behind[m] && after[m].1 >= at
            } else {
                after.contains_key(m) == ports.contains_key(m) && (ports.contains_key(m)
                    ==> after[m] == ports[m])
            }
        }),
{
}

/// What the file says of an address.
pub open spec fn line_of(
    links: Map<u32, LinkModel>,
    ports: PortsModel,
    m: Mac,
) -> RememberedModel {
    RememberedModel {
        mac: m,
        name: links[ports[m].0].name,
        index: ports[m].0,
        seen: ports[m].1,
    }
}

proof fn lemma_lines_finite(links: Map<u32, LinkModel>, ports: PortsModel)
    requires
        ports.dom().finite(),
    ensures
        memory_lines(links, ports, None).finite(),
{
    let all = ports.dom().map(|m: Mac| memory_line(links, ports, m, None));
    ports.dom().lemma_map_finite(|m: Mac| memory_line(links, ports, m, None));
    assert forall|l: Seq<char>| memory_lines(links, ports, None).contains(l) implies all.contains(
        l,
    ) by {
        let m = choose|m: Mac| #[trigger]
            has_line(links, ports, m) && l == memory_line(links, ports, m, None);
        assert(ports.dom().contains(m));
    }
    vstd::set_lib::lemma_set_subset_finite(all, memory_lines(links, ports, None));
}

spec fn stamped_in(ports: PortsModel, x: RememberedModel) -> bool {
    ports.contains_key(x.mac) && x.seen == ports[x.mac].1
}

proof fn lemma_listed_from(t: TopologyModel, ports: PortsModel, xs: Seq<RememberedModel>)
    requires
        forall|i: int|
            0 <= i < xs.len() ==> has_line(t.links, ports, (#[trigger] xs[i]).mac) && xs[i]
                == line_of(t.links, ports, xs[i].mac),
    ensures
        forall|m: Mac| #[trigger]
            ports_from(believed_lines(t, xs), 0).contains_key(m) ==> ports_from(
                believed_lines(t, xs),
                0,
            )[m] == ports[m],
        forall|m: Mac| #[trigger]
            ports_from(believed_lines(t, xs), 0).contains_key(m) <==> exists|i: int|
                0 <= i < xs.len() && (#[trigger] xs[i]).mac == m && believed(t, xs[i]),
        forall|i: int|
            0 <= i < believed_lines(t, xs).len() ==> stamped_in(
                ports,
                #[trigger] believed_lines(t, xs)[i],
            ),
    decreases xs.len(),
{
    if xs.len() > 0 {
        let head = xs.drop_last();
        let x = xs.last();
        assert(x == xs[xs.len() - 1]);
        assert forall|i: int| 0 <= i < head.len() implies has_line(
            t.links,
            ports,
            (#[trigger] head[i]).mac,
        ) && head[i] == line_of(t.links, ports, head[i].mac) by {
            assert(head[i] == xs[i]);
        }
        lemma_listed_from(t, ports, head);
        let (a, b) = (believed_lines(t, head), believed_lines(t, xs));
        if believed(t, x) {
            assert(b == a.push(x));
            assert(b.drop_last() =~= a);
        }
        assert forall|m: Mac| #[trigger] ports_from(b, 0).contains_key(m) <==> exists|i: int|
            0 <= i < xs.len() && (#[trigger] xs[i]).mac == m && believed(t, xs[i]) by {
            if ports_from(b, 0).contains_key(m) {
                if believed(t, x) && x.mac == m {
                    assert(xs[xs.len() - 1].mac == m);
                } else {
                    assert(ports_from(a, 0).contains_key(m));
                    let i = choose|i: int|
                        0 <= i < head.len() && (#[trigger] head[i]).mac == m && believed(
                            t,
                            head[i],
                        );
                    assert(xs[i] == head[i]);
                }
            }
            if exists|i: int|
                0 <= i < xs.len() && (#[trigger] xs[i]).mac == m && believed(t, xs[i]) {
                let i = choose|i: int|
                    0 <= i < xs.len() && (#[trigger] xs[i]).mac == m && believed(t, xs[i]);
                if i < head.len() {
                    assert(head[i] == xs[i]);
                    assert(ports_from(a, 0).contains_key(m));
                }
            }
        }
        assert forall|m: Mac| #[trigger] ports_from(b, 0).contains_key(m) implies ports_from(b, 0)[m]
            == ports[m] by {
            if !(believed(t, x) && x.mac == m) {
                assert(ports_from(a, 0).contains_key(m));
            }
        }
        assert forall|i: int| 0 <= i < b.len() implies stamped_in(ports, #[trigger] b[i]) by {
            if i < a.len() {
                assert(b[i] == a[i]);
            }
        }
    }
}

proof fn lemma_latest(xs: Seq<RememberedModel>, now: u64)
    requires
        forall|i: int| 0 <= i < xs.len() ==> (#[trigger] xs[i]).seen <= now,
    ensures
        latest(xs) <= now,
    decreases xs.len(),
{
    if xs.len() > 0 {
        assert(xs[xs.len() - 1].seen <= now);
        assert forall|i: int| 0 <= i < xs.drop_last().len() implies (
        #[trigger] xs.drop_last()[i]).seen <= now by {
            assert(xs.drop_last()[i] == xs[i]);
        }
        lemma_latest(xs.drop_last(), now);
    }
}

/// A restart takes the memory over: from the file that a memory was written to,
/// the next process gets back every address whose port is still there under its
/// name and its index, behind that port and with its stamp, provided that the
/// clock has not been set back meanwhile.
pub proof fn a_restart_takes_the_memory_over(t: TopologyModel, ports: PortsModel, now: u64)
    requires
        ports.dom().finite(),
        forall|m: Mac| #[trigger] ports.contains_key(m) ==> ports[m].1 <= now,
        forall|m: Mac| #[trigger]
            has_line(t.links, ports, m) ==> plain_name(t.links[ports[m].0].name),
    ensures
        ({
            let text = memory_text(sorted_texts(memory_lines(t.links, ports, None)));
            previous_memory(t, memory_of(text), now) == ports.restrict(
                Set::new(
                    |m: Mac|
                        has_line(t.links, ports, m) && believed(t, line_of(t.links, ports, m)),
                ),
            )
        }),
{
    let all = memory_lines(t.links, ports, None);
    lemma_lines_finite(t.links, ports);
    lemma_sorted_texts_list(all);
    let rows = sorted_texts(all);
    let mac_at = |i: int| choose|m: Mac| #[trigger]
        has_line(t.links, ports, m) && rows[i] == memory_line(t.links, ports, m, None);
    let xs = Seq::new(rows.len(), |i: int| line_of(t.links, ports, mac_at(i)));
    assert forall|i: int| 0 <= i < rows.len() implies has_line(
        t.links,
        ports,
        (#[trigger] xs[i]).mac,
    ) && xs[i] == line_of(t.links, ports, xs[i].mac) && rows[i] == memory_line(
        t.links,
        ports,
        xs[i].mac,
        None,
    ) by {
        assert(rows.contains(rows[i]));
        assert(rows.to_set().contains(rows[i]));
        assert(all.contains(rows[i]));
        let m = mac_at(i);
        assert(xs[i].mac == m);
    }
    assert(port_lines(xs) =~= rows) by {
        assert forall|i: int| 0 <= i < rows.len() implies port_lines(xs)[i] == rows[i] by {
            assert(has_line(t.links, ports, xs[i].mac));
        }
    }
    assert forall|i: int| 0 <= i < xs.len() implies plain_name((#[trigger] xs[i]).name) by {
        assert(has_line(t.links, ports, xs[i].mac));
    }
    memory_reads_back(xs);
    lemma_listed_from(t, ports, xs);
    let ours = believed_lines(t, xs);
    assert forall|i: int| 0 <= i < ours.len() implies (#[trigger] ours[i]).seen <= now by {
        assert(stamped_in(ports, ours[i]));
        assert(ports.contains_key(ours[i].mac));
    }
    lemma_latest(ours, now);
    let got = previous_memory(t, memory_of(memory_text(rows)), now);
    assert(got == ports_from(ours, 0));
    let keep = Set::new(
        |m: Mac| has_line(t.links, ports, m) && believed(t, line_of(t.links, ports, m)),
    );
    assert forall|m: Mac| got.contains_key(m) <==> ports.restrict(keep).contains_key(m) by {
        if got.contains_key(m) {
            let i = choose|i: int|
                0 <= i < xs.len() && (#[trigger] xs[i]).mac == m && believed(t, xs[i]);
            assert(has_line(t.links, ports, m));
        }
        if keep.contains(m) {
            let l = memory_line(t.links, ports, m, None);
            assert(all.contains(l));
            assert(rows.to_set().contains(l));
            assert(rows.contains(l));
            let i = choose|i: int| 0 <= i < rows.len() && rows[i] == l;
            let x = xs[i].mac;
            lemma_line_starts(
                m,
                t.links[ports[m].0].name,
                ports[m].0,
                ports[m].1 as nat,
                x,
                t.links[ports[x].0].name,
                ports[x].0,
                ports[x].1 as nat,
            );
            assert(xs[i].mac == m && believed(t, xs[i]));
        }
    }
    assert(got =~= ports.restrict(keep));
}

} // verus!
