//! Which addresses belong in an uplink's filter, and which must stay out.

use vstd::prelude::*;

use crate::keyed::{lemma_index_models, lemma_listed, lemma_mac_models, KeyMap, KeySet};
use crate::mac::{is_registerable, registerable, unicast, Mac};
use crate::netlink::FdbEntry;
use crate::order::{name_le, sorted, Ordered};
use crate::sync::memory::{Ports, PortsModel};
use crate::topology::{
    above, ascending_list, bridge_over, carrier, functions_of, holds_index, learn_kind,
    lemma_ascending_list, macs_in, stacked_on, subtree, Anatomy, AnatomyModel, Learn, LinkModel,
    Reach, Topology, TopologyModel,
};
use crate::topology::detect::texts;

verus! {

/// The addresses the driver reports for the virtual functions behind some
/// physical functions - the share of the exclusions that can go stale.
pub open spec fn reported(functions: Set<u32>, vf: Seq<(u32, Mac)>) -> Set<Mac> {
    Set::new(
        |m: Mac|
            exists|i: int|
                0 <= i < vf.len() && functions.contains((#[trigger] vf[i]).0) && vf[i].1 == m,
    )
}

/// Whether `m` is the address of the physical function `f`, or of one of its
/// virtual functions bound on the host.
pub open spec fn belongs_to_function(links: Map<u32, LinkModel>, f: u32, m: Mac) -> bool {
    &&& links.contains_key(f)
    &&& links[f].mac == Some(m) || exists|v: u32| #[trigger]
        links[f].vf_netdevs.contains(v) && links.contains_key(v) && links[v].mac == Some(m)
}

/// The addresses that must never be registered for an uplink, wherever learnt:
/// the operator's exclusions, everything on the wire side, the uplink's own,
/// and those of its physical functions and their virtual functions.
pub open spec fn excluded(
    exclude: Set<Mac>,
    links: Map<u32, LinkModel>,
    anat: AnatomyModel,
    vf: Seq<(u32, Mac)>,
) -> Set<Mac> {
    Set::new(
        |m: Mac|
            {
                ||| exclude.contains(m)
                ||| macs_in(links, subtree(links, anat.port)).contains(m)
                ||| links.contains_key(anat.dev) && links[anat.dev].mac == Some(m)
                ||| reported(anat.functions, vf).contains(m)
                ||| exists|f: u32|
                    anat.functions.contains(f) && #[trigger] belongs_to_function(links, f, m)
            },
    )
}

/// A virtual function's own address is among the exclusions, as far as the
/// driver reports it.
pub proof fn reported_addresses_are_excluded(
    exclude: Set<Mac>,
    links: Map<u32, LinkModel>,
    anat: AnatomyModel,
    vf: Seq<(u32, Mac)>,
)
    ensures
        reported(anat.functions, vf).subset_of(excluded(exclude, links, anat, vf)),
{
}

/// Where the station is that a forwarding entry speaks of; nothing for an
/// entry that nobody learnt.
pub open spec fn learn_of(
    links: Map<u32, LinkModel>,
    bridge: u32,
    port: u32,
    e: FdbEntry,
) -> Option<Learn> {
    if e.learnt() && unicast(e.mac) {
        match e.master {
            Some(m) => Some(learn_kind(links, bridge, e.ifindex, m, port)),
            None => None,
        }
    } else {
        None
    }
}

/// The addresses that were learnt in one way.
pub open spec fn learnt(
    links: Map<u32, LinkModel>,
    bridge: u32,
    port: u32,
    fdb: Seq<FdbEntry>,
    how: Learn,
) -> Set<Mac> {
    Set::new(
        |m: Mac|
            exists|i: int|
                0 <= i < fdb.len() && (#[trigger] fdb[i]).mac == m && learn_of(
                    links,
                    bridge,
                    port,
                    fdb[i],
                ) == Some(how),
    )
}

/// Behind which port each address was learnt; the last learn counts.
pub open spec fn learnt_behind(
    links: Map<u32, LinkModel>,
    bridge: u32,
    port: u32,
    fdb: Seq<FdbEntry>,
) -> Map<Mac, u32>
    decreases fdb.len(),
{
    if fdb.len() == 0 {
        Map::empty()
    } else {
        let head = learnt_behind(links, bridge, port, fdb.drop_last());
        if learn_of(links, bridge, port, fdb.last()) == Some(Learn::Behind) {
            head.insert(fdb.last().mac, fdb.last().ifindex)
        } else {
            head
        }
    }
}

/// What the operator configured.
pub struct Rules {
    pub exclude: Set<Mac>,
    pub extra: Set<Mac>,
}

/// Whether the wire carries an address: it was learnt on the uplink's own port.
pub open spec fn wire_set(
    links: Map<u32, LinkModel>,
    anat: AnatomyModel,
    fdb: Seq<FdbEntry>,
) -> Set<Mac> {
    if links.contains_key(anat.bridge) {
        learnt(links, anat.bridge, anat.port, fdb, Learn::Wire)
    } else {
        Set::empty()
    }
}

/// Behind which port each address was learnt, for an uplink.
pub open spec fn behind_map(
    links: Map<u32, LinkModel>,
    anat: AnatomyModel,
    fdb: Seq<FdbEntry>,
) -> Map<Mac, u32> {
    if links.contains_key(anat.bridge) {
        learnt_behind(links, anat.bridge, anat.port, fdb)
    } else {
        Map::empty()
    }
}

/// The addresses that belong in an uplink's filter: what was learnt behind its
/// bridge, the host's own addresses on and above the bridge, and the pinned
/// ones; less what is excluded, what is on the wire, and what cannot stand in
/// a unicast filter.
pub open spec fn desired_set(
    rules: Rules,
    links: Map<u32, LinkModel>,
    anat: AnatomyModel,
    fdb: Seq<FdbEntry>,
    vf: Seq<(u32, Mac)>,
) -> Set<Mac> {
    Set::new(
        |m: Mac|
            {
                &&& links.contains_key(anat.bridge)
                &&& {
                    ||| learnt(links, anat.bridge, anat.port, fdb, Learn::Behind).contains(m)
                    ||| macs_in(links, above(links, anat.bridge)).contains(m)
                    ||| rules.extra.contains(m)
                }
                &&& !excluded(rules.exclude, links, anat, vf).contains(m)
                &&& !wire_set(links, anat, fdb).contains(m)
                &&& registerable(m)
            },
    )
}

/// Whether a port still hangs under a bridge, or under one stacked on it, and
/// not on the wire side.
pub open spec fn port_lives(links: Map<u32, LinkModel>, anat: AnatomyModel, p: u32) -> bool {
    &&& !subtree(links, anat.port).contains(p)
    &&& bridge_over(links, p) matches Some((br, _)) && (br == anat.bridge || stacked_on(
        links,
        anat.bridge,
    ).contains(br))
}

/// The owned addresses that are not wanted any more but stay: those whose
/// learn-port still exists and still hangs under this bridge.
pub open spec fn quiet_set(
    rules: Rules,
    links: Map<u32, LinkModel>,
    anat: AnatomyModel,
    fdb: Seq<FdbEntry>,
    vf: Seq<(u32, Mac)>,
    owned: Set<Mac>,
    ports: PortsModel,
) -> Set<Mac> {
    Set::new(
        |m: Mac|
            {
                &&& owned.contains(m)
                &&& !desired_set(rules, links, anat, fdb, vf).contains(m)
                &&& !wire_set(links, anat, fdb).contains(m)
                &&& !excluded(rules.exclude, links, anat, vf).contains(m)
                &&& registerable(m)
                &&& links.contains_key(anat.dev)
                &&& ports.contains_key(m)
                &&& port_lives(links, anat, ports[m].0)
            },
    )
}

/// What the filter should hold: the desired addresses with the quiet ones.
pub open spec fn wanted_set(
    rules: Rules,
    links: Map<u32, LinkModel>,
    anat: AnatomyModel,
    fdb: Seq<FdbEntry>,
    vf: Seq<(u32, Mac)>,
    owned: Set<Mac>,
    ports: PortsModel,
) -> Set<Mac> {
    desired_set(rules, links, anat, fdb, vf).union(
        quiet_set(rules, links, anat, fdb, vf, owned, ports),
    )
}

/// Nothing that was learnt on the wire is wanted, whatever else speaks for it.
pub proof fn wire_is_never_wanted(
    rules: Rules,
    links: Map<u32, LinkModel>,
    anat: AnatomyModel,
    fdb: Seq<FdbEntry>,
    vf: Seq<(u32, Mac)>,
    owned: Set<Mac>,
    ports: PortsModel,
)
    ensures
        wanted_set(rules, links, anat, fdb, vf, owned, ports).disjoint(wire_set(links, anat, fdb)),
{
}

/// Nothing that is excluded is wanted, a virtual function's own address and a
/// pinned one included; and everything wanted can stand in a unicast filter.
pub proof fn excluded_is_never_wanted(
    rules: Rules,
    links: Map<u32, LinkModel>,
    anat: AnatomyModel,
    fdb: Seq<FdbEntry>,
    vf: Seq<(u32, Mac)>,
    owned: Set<Mac>,
    ports: PortsModel,
)
    ensures
        wanted_set(rules, links, anat, fdb, vf, owned, ports).disjoint(
            excluded(rules.exclude, links, anat, vf),
        ),
        wanted_set(rules, links, anat, fdb, vf, owned, ports).disjoint(
            reported(anat.functions, vf),
        ),
        forall|m: Mac| #[trigger]
            wanted_set(rules, links, anat, fdb, vf, owned, ports).contains(m) ==> registerable(m),
{
}

/// Everything behind the bridge is wanted: what was learnt there, the host's own
/// addresses on and above it, and the pinned ones, unless the wire carries the
/// address, it is excluded, or it cannot stand in a unicast filter.
pub proof fn what_is_behind_is_wanted(
    rules: Rules,
    links: Map<u32, LinkModel>,
    anat: AnatomyModel,
    fdb: Seq<FdbEntry>,
    vf: Seq<(u32, Mac)>,
    owned: Set<Mac>,
    ports: PortsModel,
    m: Mac,
)
    requires
        links.contains_key(anat.bridge),
        learnt(links, anat.bridge, anat.port, fdb, Learn::Behind).contains(m) || macs_in(
            links,
            above(links, anat.bridge),
        ).contains(m) || rules.extra.contains(m),
        !wire_set(links, anat, fdb).contains(m),
        !excluded(rules.exclude, links, anat, vf).contains(m),
        registerable(m),
    ensures
        wanted_set(rules, links, anat, fdb, vf, owned, ports).contains(m),
{
}

/// Only an address that is owned already is kept quiet, and none that is
/// wanted outright.
pub proof fn only_owned_addresses_are_kept(
    rules: Rules,
    links: Map<u32, LinkModel>,
    anat: AnatomyModel,
    fdb: Seq<FdbEntry>,
    vf: Seq<(u32, Mac)>,
    owned: Set<Mac>,
    ports: PortsModel,
)
    ensures
        quiet_set(rules, links, anat, fdb, vf, owned, ports).subset_of(owned),
        quiet_set(rules, links, anat, fdb, vf, owned, ports).disjoint(
            desired_set(rules, links, anat, fdb, vf),
        ),
{
}

/// The addresses the driver reports for the virtual functions behind an uplink.
pub fn vf_reported(functions: &Vec<u32>, vf: &Vec<(u32, Mac)>) -> (r: KeySet<Mac>)
    ensures
        r@ == reported(functions@.to_set(), vf@),
{
    let ghost fs = functions@.to_set();
    let mut out: KeySet<Mac> = KeySet::new();
    let mut i: usize = 0;
    while i < vf.len()
        invariant
            fs == functions@.to_set(),
            i <= vf@.len(),
            forall|m: Mac| #[trigger]
                out@.contains(m) <==> exists|j: int|
                    0 <= j < i && fs.contains((#[trigger] vf@[j]).0) && vf@[j].1 == m,
        decreases vf@.len() - i,
    {
        let (f, m) = vf[i];
        if holds_index(functions, f) {
            let _ = out.insert(m);
        }
        i += 1;
    }
    assert(out@ =~= reported(fs, vf@));
    out
}

/// Puts the address of an interface in, if it has one.
fn put_mac(out: &mut KeySet<Mac>, topo: &Topology, x: u32)
    ensures
        forall|m: Mac| #[trigger]
            final(out)@.contains(m) <==> old(out)@.contains(m) || (topo@.links.contains_key(x)
                && topo@.links[x].mac == Some(m)),
{
    if let Some(l) = topo.at(x) {
        if let Some(m) = l.mac {
            let _ = out.insert(m);
        }
    }
}

/// The addresses that must never be registered for an uplink, wherever learnt.
/// One function for the pass and the fast path alike: a second spelling would
/// go stale in one copy.
pub fn exclusions(
    exclude: &KeySet<Mac>,
    topo: &Topology,
    anat: &Anatomy,
    vf: &Vec<(u32, Mac)>,
) -> (r: KeySet<Mac>)
    ensures
        r@ == excluded(exclude@, topo@.links, anat@, vf@),
{
    let ghost links = topo@.links;
    let mut skip = exclude.dup();
    let below = topo.subtree_macs(anat.port);
    skip.extend_list(&below);
    proof {
        lemma_mac_models(below@);
    }
    put_mac(&mut skip, topo, anat.dev);
    let theirs = vf_reported(&anat.functions, vf);
    skip.extend(&theirs);
    let ghost base = skip@;
    let mut i: usize = 0;
    while i < anat.functions.len()
        invariant
            links == topo@.links,
            i <= anat.functions@.len(),
            forall|m: Mac| #[trigger]
                skip@.contains(m) <==> base.contains(m) || exists|j: int|
                    0 <= j < i && belongs_to_function(links, #[trigger] anat.functions@[j], m),
        decreases anat.functions@.len() - i,
    {
        let f = anat.functions[i];
        let ghost skip0 = skip@;
        if let Some(l) = topo.at(f) {
            put_mac(&mut skip, topo, f);
            let ghost skip1 = skip@;
            let mut k: usize = 0;
            while k < l.vf_netdevs.len()
                invariant
                    links == topo@.links,
                    k <= l.vf_netdevs@.len(),
                    forall|m: Mac| #[trigger]
                        skip@.contains(m) <==> skip1.contains(m) || exists|j: int|
                            0 <= j < k && links.contains_key(#[trigger] l.vf_netdevs@[j])
                                && links[l.vf_netdevs@[j]].mac == Some(m),
                decreases l.vf_netdevs@.len() - k,
            {
                put_mac(&mut skip, topo, l.vf_netdevs[k]);
                k += 1;
            }
            proof {
                assert forall|m: Mac| #[trigger] skip@.contains(m) <==> skip0.contains(m)
                    || belongs_to_function(links, f, m) by {
                    if exists|j: int|
                        0 <= j < l.vf_netdevs@.len() && links.contains_key(
                            #[trigger] l.vf_netdevs@[j],
                        ) && links[l.vf_netdevs@[j]].mac == Some(m) {
                        let j = choose|j: int|
                            0 <= j < l.vf_netdevs@.len() && links.contains_key(
                                #[trigger] l.vf_netdevs@[j],
                            ) && links[l.vf_netdevs@[j]].mac == Some(m);
                        assert(links[f].vf_netdevs.contains(l.vf_netdevs@[j]));
                    }
                    if belongs_to_function(links, f, m) && links[f].mac != Some(m) {
                        let v = choose|v: u32| #[trigger]
                            links[f].vf_netdevs.contains(v) && links.contains_key(v)
                                && links[v].mac == Some(m);
                        let j = choose|j: int|
                            0 <= j < l.vf_netdevs@.len() && l.vf_netdevs@[j] == v;
                        assert(links.contains_key(l.vf_netdevs@[j]));
                    }
                }
            }
        }
        i += 1;
    }
    proof {
        assert forall|m: Mac| skip@.contains(m) <==> excluded(
            exclude@,
            links,
            anat@,
            vf@,
        ).contains(m) by {
            if exists|f: u32|
                anat@.functions.contains(f) && #[trigger] belongs_to_function(links, f, m) {
                let f = choose|f: u32|
                    anat@.functions.contains(f) && #[trigger] belongs_to_function(links, f, m);
                let j = choose|j: int| 0 <= j < anat.functions@.len() && anat.functions@[j] == f;
                assert(belongs_to_function(links, anat.functions@[j], m));
            }
            if exists|j: int|
                0 <= j < anat.functions@.len() && belongs_to_function(
                    links,
                    #[trigger] anat.functions@[j],
                    m,
                ) {
                let j = choose|j: int|
                    0 <= j < anat.functions@.len() && belongs_to_function(
                        links,
                        #[trigger] anat.functions@[j],
                        m,
                    );
                assert(anat@.functions.contains(anat.functions@[j]));
            }
        }
        assert(skip@ =~= excluded(exclude@, links, anat@, vf@));
    }
    skip
}

/// Whether `v` names the bridges stacked on top of `bridge`, in order.
pub open spec fn names_stacked(v: Seq<Seq<char>>, links: Map<u32, LinkModel>, bridge: u32) -> bool {
    &&& v.len() == stacked_on(links, bridge).len()
    &&& forall|n: Seq<char>| #[trigger]
        v.contains(n) <==> exists|x: u32| #[trigger]
            stacked_on(links, bridge).contains(x) && links[x].name == n
    &&& forall|i: int, j: int|
        #![trigger v[i], v[j]]
        0 <= i <= j < v.len() ==> name_le(v[i], v[j])
}

/// The bridges stacked on top of a bridge, by name.
fn stacked_names(topo: &Topology, reach: &Reach) -> (r: Vec<String>)
    requires
        reach.of(topo@.links, reach.bridge),
    ensures
        names_stacked(texts(r@), topo@.links, reach.bridge),
{
    let ghost links = topo@.links;
    let ghost bridge = reach.bridge;
    let list = reach.stacked_bridges().list();
    let mut out: Vec<String> = Vec::new();
    let mut i: usize = 0;
    proof {
        lemma_index_models(list@);
        lemma_listed(list@);
        list@.unique_seq_to_set();
    }
    while i < list.len()
        invariant
            links == topo@.links,
            list@.to_set() == stacked_on(links, bridge),
            forall|j: int| 0 <= j < list@.len() ==> stacked_on(links, bridge).contains(
                #[trigger] list@[j],
            ),
            i <= list@.len(),
            out@.len() == i,
            forall|j: int| 0 <= j < i ==> (#[trigger] out@[j])@ == links[list@[j]].name,
        decreases list@.len() - i,
    {
        assert(stacked_on(links, bridge).contains(list@[i as int]));
        if let Some(n) = topo.name_of(list[i]) {
            out.push(n.clone());
        }
        i += 1;
    }
    let ghost unsorted = out@;
    let r = sorted(out);
    proof {
        let v = texts(r@);
        assert forall|n: Seq<char>| #[trigger] v.contains(n) <==> exists|x: u32| #[trigger]
            stacked_on(links, bridge).contains(x) && links[x].name == n by {
            if v.contains(n) {
                let j = choose|j: int| 0 <= j < v.len() && v[j] == n;
                assert(r@.contains(r@[j]));
                assert(unsorted.contains(r@[j]));
                let q = choose|q: int| 0 <= q < unsorted.len() && unsorted[q] == r@[j];
                assert(stacked_on(links, bridge).contains(list@[q]));
            }
            if exists|x: u32| #[trigger] stacked_on(links, bridge).contains(x) && links[x].name
                == n {
                let x = choose|x: u32| #[trigger]
                    stacked_on(links, bridge).contains(x) && links[x].name == n;
                assert(list@.contains(x));
                let q = choose|q: int| 0 <= q < list@.len() && list@[q] == x;
                assert(unsorted.contains(unsorted[q]));
                assert(r@.contains(unsorted[q]));
                let j = choose|j: int| 0 <= j < r@.len() && r@[j] == unsorted[q];
                assert(v[j] == n);
            }
        }
        assert forall|a: int, b: int|
            #![trigger v[a], v[b]]
            0 <= a <= b < v.len() implies name_le(v[a], v[b]) by {
            assert(r@[a].leq(&r@[b]));
        }
    }
    r
}

/// What a pass wants for an uplink, and what it found on the way.
pub struct Wanted {
    /// what the filter should hold
    pub want: KeySet<Mac>,
    /// the bridges stacked on top of the uplink's bridge, by name
    pub stacked: Vec<String>,
    /// what the dump shows on the wire
    pub wire: KeySet<Mac>,
    /// behind which port each address was learnt
    pub learnt_at: KeyMap<Mac, u32>,
    /// the part of `want` that is only kept
    pub kept: KeySet<Mac>,
}

/// What was learnt for an uplink.
struct Learns {
    wire: KeySet<Mac>,
    behind: KeySet<Mac>,
    learnt_at: KeyMap<Mac, u32>,
}

/// Sorts the entries of a dump into what is on the wire and what is behind the
/// bridge.
fn sort_learns(
    reach: &Reach,
    port: u32,
    fdb: &Vec<FdbEntry>,
    Ghost(links): Ghost<Map<u32, LinkModel>>,
) -> (r: Learns)
    requires
        reach.of(links, reach.bridge),
    ensures
        r.wire@ == learnt(links, reach.bridge, port, fdb@, Learn::Wire),
        r.behind@ == learnt(links, reach.bridge, port, fdb@, Learn::Behind),
        r.learnt_at@ == learnt_behind(links, reach.bridge, port, fdb@),
{
    let ghost bridge = reach.bridge;
    let mut wire: KeySet<Mac> = KeySet::new();
    let mut behind: KeySet<Mac> = KeySet::new();
    let mut learnt_at: KeyMap<Mac, u32> = KeyMap::new();
    let mut i: usize = 0;
    assert(fdb@.take(0) =~= Seq::empty());
    while i < fdb.len()
        invariant
            bridge == reach.bridge,
            reach.of(links, bridge),
            i <= fdb@.len(),
            forall|m: Mac| #[trigger]
                wire@.contains(m) <==> exists|j: int|
                    0 <= j < i && (#[trigger] fdb@[j]).mac == m && learn_of(
                        links,
                        bridge,
                        port,
                        fdb@[j],
                    ) == Some(Learn::Wire),
            forall|m: Mac| #[trigger]
                behind@.contains(m) <==> exists|j: int|
                    0 <= j < i && (#[trigger] fdb@[j]).mac == m && learn_of(
                        links,
                        bridge,
                        port,
                        fdb@[j],
                    ) == Some(Learn::Behind),
            learnt_at@ == learnt_behind(links, bridge, port, fdb@.take(i as int)),
        decreases fdb@.len() - i,
    {
        let e = fdb[i];
        proof {
            let next = fdb@.take(i + 1);
            assert(next.drop_last() =~= fdb@.take(i as int));
            assert(next.last() == e);
        }
        if e.is_learned() && e.is_unicast() {
            if let Some(master) = e.master {
                match reach.classify(e.ifindex, master, port) {
                    Learn::Wire => {
                        let _ = wire.insert(e.mac);
                    },
                    Learn::Behind => {
                        let _ = behind.insert(e.mac);
                        learnt_at.insert(e.mac, e.ifindex);
                    },
                    Learn::NotOurs => {},
                }
            }
        }
        i += 1;
    }
    proof {
        assert(fdb@.take(i as int) =~= fdb@);
        assert(wire@ =~= learnt(links, bridge, port, fdb@, Learn::Wire));
        assert(behind@ =~= learnt(links, bridge, port, fdb@, Learn::Behind));
    }
    Learns { wire, behind, learnt_at }
}

/// Adds the addresses that interfaces of a set have.
fn put_macs_of(out: &mut KeySet<Mac>, topo: &Topology, xs: &KeySet<u32>)
    ensures
        final(out)@ == old(out)@.union(macs_in(topo@.links, xs@)),
{
    let ghost links = topo@.links;
    let ghost before = out@;
    let list = xs.list();
    let mut i: usize = 0;
    proof {
        lemma_index_models(list@);
        lemma_listed(list@);
    }
    while i < list.len()
        invariant
            links == topo@.links,
            i <= list@.len(),
            forall|m: Mac| #[trigger]
                out@.contains(m) <==> before.contains(m) || exists|j: int|
                    0 <= j < i && links.contains_key(#[trigger] list@[j]) && links[list@[j]].mac
                        == Some(m),
        decreases list@.len() - i,
    {
        put_mac(out, topo, list[i]);
        i += 1;
    }
    proof {
        assert forall|m: Mac| out@.contains(m) <==> before.union(
            macs_in(links, xs@),
        ).contains(m) by {
            if macs_in(links, xs@).contains(m) {
                let x = choose|x: u32| #[trigger]
                    xs@.contains(x) && links.contains_key(x) && links[x].mac == Some(m);
                assert(list@.to_set().contains(x));
                let j = choose|j: int| 0 <= j < list@.len() && list@[j] == x;
                assert(links.contains_key(list@[j]));
            }
            if exists|j: int|
                0 <= j < list@.len() && links.contains_key(#[trigger] list@[j])
                    && links[list@[j]].mac == Some(m) {
                let j = choose|j: int|
                    0 <= j < list@.len() && links.contains_key(#[trigger] list@[j])
                        && links[list@[j]].mac == Some(m);
                assert(xs@.contains(list@[j]));
            }
        }
        assert(out@ =~= before.union(macs_in(links, xs@)));
    }
}

/// The addresses of a set that may be registered: neither in `skip` nor in
/// `wire`, and fit for a unicast filter.
fn admissible(set: &KeySet<Mac>, skip: &KeySet<Mac>, wire: &KeySet<Mac>) -> (r: KeySet<Mac>)
    ensures
        forall|m: Mac| #[trigger]
            r@.contains(m) <==> set@.contains(m) && !skip@.contains(m) && !wire@.contains(m)
                && registerable(m),
{
    let list = set.list();
    let mut out: KeySet<Mac> = KeySet::new();
    let mut i: usize = 0;
    proof {
        lemma_mac_models(list@);
        lemma_listed(list@);
    }
    while i < list.len()
        invariant
            i <= list@.len(),
            forall|m: Mac| #[trigger]
                out@.contains(m) <==> !skip@.contains(m) && !wire@.contains(m) && registerable(m)
                    && exists|j: int| 0 <= j < i && #[trigger] list@[j] == m,
        decreases list@.len() - i,
    {
        let m = list[i];
        if !skip.contains(&m) && !wire.contains(&m) && is_registerable(&m) {
            let _ = out.insert(m);
        }
        i += 1;
    }
    proof {
        assert forall|m: Mac| #[trigger] out@.contains(m) <==> set@.contains(m) && !skip@.contains(
            m,
        ) && !wire@.contains(m) && registerable(m) by {
            if set@.contains(m) {
                assert(list@.to_set().contains(m));
                assert(list@.contains(m));
                let j = choose|j: int| 0 <= j < list@.len() && list@[j] == m;
                assert(list@[j] == m);
            }
        }
    }
    out
}

/// The addresses that belong in an uplink's filter, and the ones that must stay
/// out of it. Nothing is kept yet.
pub fn desired(
    exclude: &KeySet<Mac>,
    extra: &KeySet<Mac>,
    topo: &Topology,
    anat: &Anatomy,
    fdb: &Vec<FdbEntry>,
    vf: &Vec<(u32, Mac)>,
) -> (r: Wanted)
    ensures
        r.want@ == desired_set(
            (Rules { exclude: exclude@, extra: extra@ }),
            topo@.links,
            anat@,
            fdb@,
            vf@,
        ),
        r.wire@ == wire_set(topo@.links, anat@, fdb@),
        r.learnt_at@ == behind_map(topo@.links, anat@, fdb@),
        r.kept@ == Set::<Mac>::empty(),
        if topo@.links.contains_key(anat.bridge) {
            names_stacked(texts(r.stacked@), topo@.links, anat.bridge)
        } else {
            r.stacked@.len() == 0
        },
{
    let ghost links = topo@.links;
    let ghost rules = Rules { exclude: exclude@, extra: extra@ };
    if topo.at(anat.bridge).is_none() {
        let r = Wanted {
            want: KeySet::new(),
            stacked: Vec::new(),
            wire: KeySet::new(),
            learnt_at: KeyMap::new(),
            kept: KeySet::new(),
        };
        assert(r.want@ =~= desired_set(rules, links, anat@, fdb@, vf@));
        return r;
    }
    let reach = topo.reach(anat.bridge);
    let learns = sort_learns(&reach, anat.port, fdb, Ghost(links));
    let mut want = learns.behind.dup();
    put_macs_of(&mut want, topo, &reach.above);
    want.extend(extra);
    let skip = exclusions(exclude, topo, anat, vf);
    let want = admissible(&want, &skip, &learns.wire);
    assert(want@ =~= desired_set(rules, links, anat@, fdb@, vf@));
    let stacked = stacked_names(topo, &reach);
    Wanted {
        want,
        stacked,
        wire: learns.wire,
        learnt_at: learns.learnt_at,
        kept: KeySet::new(),
    }
}

/// The owned addresses that aged out of the bridge but should stay: those whose
/// learn-port still exists and still hangs under this bridge. Ageing is the
/// bridge managing its table, not news about the device.
pub fn quiet_survivors(
    topo: &Topology,
    anat: &Anatomy,
    want: &KeySet<Mac>,
    wire: &KeySet<Mac>,
    skip: &KeySet<Mac>,
    owned: &KeySet<Mac>,
    ports: &Ports,
) -> (r: KeySet<Mac>)
    ensures
        forall|m: Mac| #[trigger]
            r@.contains(m) <==> {
                &&& owned@.contains(m)
                &&& !want@.contains(m)
                &&& !wire@.contains(m)
                &&& !skip@.contains(m)
                &&& registerable(m)
                &&& topo@.links.contains_key(anat.dev)
                &&& ports@.contains_key(m)
                &&& port_lives(topo@.links, anat@, ports@[m].0)
            },
{
    let ghost links = topo@.links;
    let mut kept: KeySet<Mac> = KeySet::new();
    if topo.at(anat.dev).is_none() {
        return kept;
    }
    let mut roots: Vec<u32> = Vec::new();
    roots.push(anat.port);
    assert(roots@ =~= seq![anat.port]);
    let wireward = topo.subtree_of(&roots);
    let reach = topo.reach(anat.bridge);
    let list = owned.list();
    let mut i: usize = 0;
    proof {
        lemma_mac_models(list@);
        lemma_listed(list@);
    }
    let ghost stays = |m: Mac|
        {
            &&& !want@.contains(m)
            &&& !wire@.contains(m)
            &&& !skip@.contains(m)
            &&& registerable(m)
            &&& ports@.contains_key(m)
            &&& port_lives(links, anat@, ports@[m].0)
        };
    while i < list.len()
        invariant
            links == topo@.links,
            wireward@ == subtree(links, anat.port),
            reach.of(links, anat.bridge),
            stays == (|m: Mac|
                {
                    &&& !want@.contains(m)
                    &&& !wire@.contains(m)
                    &&& !skip@.contains(m)
                    &&& registerable(m)
                    &&& ports@.contains_key(m)
                    &&& port_lives(links, anat@, ports@[m].0)
                }),
            i <= list@.len(),
            forall|m: Mac| #[trigger]
                kept@.contains(m) <==> stays(m) && exists|j: int|
                    0 <= j < i && #[trigger] list@[j] == m,
        decreases list@.len() - i,
    {
        let m = list[i];
        if !want.contains(&m) && !wire.contains(&m) && !skip.contains(&m) && is_registerable(&m) {
            if let Some(slot) = ports.get(&m) {
                let p = slot.0;
                if !wireward.contains(&p) {
                    if let Some((br, _)) = topo.bridge_above(p) {
                        if reach.reaches(br) {
                            assert(stays(m));
                            let _ = kept.insert(m);
                        }
                    }
                }
            }
        }
        i += 1;
    }
    proof {
        assert forall|m: Mac| #[trigger] kept@.contains(m) <==> owned@.contains(m) && stays(m) by {
            if owned@.contains(m) {
                assert(list@.to_set().contains(m));
                let j = choose|j: int| 0 <= j < list@.len() && list@[j] == m;
                assert(list@[j] == m);
            }
        }
    }
    kept
}

/// One spelling of what the filter should hold: the desired set with the quiet
/// survivors folded in.
pub fn wanted_with_keeps(
    exclude: &KeySet<Mac>,
    extra: &KeySet<Mac>,
    topo: &Topology,
    anat: &Anatomy,
    fdb: &Vec<FdbEntry>,
    vf: &Vec<(u32, Mac)>,
    owned: &KeySet<Mac>,
    ports: &Ports,
) -> (r: Wanted)
    ensures
        wanted_is(
            (Rules { exclude: exclude@, extra: extra@ }),
            topo@.links,
            anat@,
            fdb@,
            vf@,
            owned@,
            ports@,
            r,
        ),
{
    let ghost links = topo@.links;
    let ghost rules = Rules { exclude: exclude@, extra: extra@ };
    let mut r = desired(exclude, extra, topo, anat, fdb, vf);
    let skip = exclusions(exclude, topo, anat, vf);
    let kept = quiet_survivors(topo, anat, &r.want, &r.wire, &skip, owned, ports);
    assert(kept@ =~= quiet_set(rules, links, anat@, fdb@, vf@, owned@, ports@));
    r.want.extend(&kept);
    r.kept = kept;
    r
}

/// Whether `w` is what a pass wants for an uplink.
pub open spec fn wanted_is(
    rules: Rules,
    links: Map<u32, LinkModel>,
    anat: AnatomyModel,
    fdb: Seq<FdbEntry>,
    vf: Seq<(u32, Mac)>,
    owned: Set<Mac>,
    ports: PortsModel,
    w: Wanted,
) -> bool {
    &&& w.want@ == wanted_set(rules, links, anat, fdb, vf, owned, ports)
    &&& w.kept@ == quiet_set(rules, links, anat, fdb, vf, owned, ports)
    &&& w.wire@ == wire_set(links, anat, fdb)
    &&& w.learnt_at@ == behind_map(links, anat, fdb)
    &&& if links.contains_key(anat.bridge) {
        names_stacked(texts(w.stacked@), links, anat.bridge)
    } else {
        w.stacked@.len() == 0
    }
}

/// A list with what is new in another at its end.
pub open spec fn with_new(acc: Seq<u32>, v: Seq<u32>) -> Seq<u32>
    decreases v.len(),
{
    if v.len() == 0 {
        acc
    } else {
        let head = with_new(acc, v.drop_last());
        if head.contains(v.last()) {
            head
        } else {
            head.push(v.last())
        }
    }
}

/// The physical functions behind these uplinks, as far as the uplinks are
/// there, each once, in the order of the uplinks.
pub open spec fn live_functions(t: TopologyModel, devs: Seq<Seq<char>>) -> Seq<u32>
    decreases devs.len(),
{
    if devs.len() == 0 {
        Seq::empty()
    } else {
        let head = live_functions(t, devs.drop_last());
        if t.names.contains_key(devs.last()) {
            with_new(
                head,
                ascending_list(
                    functions_of(t.links, carrier(t.links, t.names[devs.last()])),
                ),
            )
        } else {
            head
        }
    }
}

/// The physical functions behind these uplinks, alive in this reading - only
/// they contribute exclusions.
pub fn live_pfs(topo: &Topology, devs: &Vec<String>) -> (r: Vec<u32>)
    ensures
        r@ == live_functions(topo@, texts(devs@)),
{
    let ghost all = texts(devs@);
    let mut pfs: Vec<u32> = Vec::new();
    let mut i: usize = 0;
    assert(all.take(0) =~= Seq::empty());
    while i < devs.len()
        invariant
            all == texts(devs@),
            i <= devs@.len(),
            pfs@ == live_functions(topo@, all.take(i as int)),
        decreases devs@.len() - i,
    {
        let ghost head = pfs@;
        proof {
            let next = all.take(i + 1);
            assert(next.drop_last() =~= all.take(i as int));
            assert(next.last() == devs@[i as int]@);
        }
        if let Some(idx) = topo.index_of(&devs[i]) {
            let card = topo.filter_carrier(idx);
            let fs = topo.physical_functions(card);
            proof {
                lemma_ascending_list(fs@, functions_of(topo@.links, card));
                assert(fs@.take(0) =~= Seq::empty());
            }
            let mut k: usize = 0;
            while k < fs.len()
                invariant
                    k <= fs@.len(),
                    pfs@ == with_new(head, fs@.take(k as int)),
                decreases fs@.len() - k,
            {
                proof {
                    let next = fs@.take(k + 1);
                    assert(next.drop_last() =~= fs@.take(k as int));
                    assert(next.last() == fs@[k as int]);
                }
                if !holds_index(&pfs, fs[k]) {
                    pfs.push(fs[k]);
                }
                k += 1;
            }
            assert(fs@.take(k as int) =~= fs@);
        }
        i += 1;
    }
    assert(all.take(i as int) =~= all);
    pfs
}

} // verus!
