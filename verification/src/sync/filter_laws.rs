//! Which addresses belong in an uplink's filter, told by the interfaces, the
//! forwarding entries and the driver's answer themselves.

use vstd::prelude::*;

use crate::mac::Mac;
use crate::netlink::{FdbEntry, NTF_SELF, NUD_PERMANENT};
use crate::sync::decide::{
    behind_map, desired_set, excluded, learn_of, learnt, learnt_behind, port_lives, quiet_set,
    reported, wanted_set, wire_set, Rules,
};
use crate::sync::memory::PortsModel;
use crate::topology::{above, bridge_over, macs_in, subtree, AnatomyModel, Learn, LinkModel};
use crate::topology::path_laws::{
    a_learn_is_where_its_port_is, above_is_what_a_path_leads_up_to,
    below_is_what_a_path_leads_down_to, leads_down, leads_up, stacked_bridges_are_above,
};

verus! {

/// Whether an interface has this address.
pub open spec fn has_address(links: Map<u32, LinkModel>, x: u32, m: Mac) -> bool {
    links.contains_key(x) && links[x].mac == Some(m)
}

/// Whether an interface at or below `root` has this address.
pub open spec fn address_below(links: Map<u32, LinkModel>, root: u32, m: Mac) -> bool {
    exists|p: Seq<u32>| #[trigger]
        leads_down(links, p) && p[0] == root && has_address(links, p.last(), m)
}

/// Whether an interface has this address that is stacked on `root`, or `root`
/// itself.
pub open spec fn address_above(links: Map<u32, LinkModel>, root: u32, m: Mac) -> bool {
    exists|p: Seq<u32>| #[trigger]
        leads_up(links, p) && p[0] == root && has_address(links, p.last(), m)
}

/// Whether one of these physical functions has this address, or a virtual
/// function of one of them that is bound on the host.
pub open spec fn address_of_function(
    links: Map<u32, LinkModel>,
    functions: Set<u32>,
    m: Mac,
) -> bool {
    exists|f: u32| #[trigger]
        functions.contains(f) && links.contains_key(f) && (links[f].mac == Some(m)
            || exists|i: int|
            0 <= i < links[f].vf_netdevs.len() && has_address(
                links,
                #[trigger] links[f].vf_netdevs[i],
                m,
            ))
}

/// Whether the driver gives this address for a virtual function of one of these
/// physical functions.
pub open spec fn driver_names(vf: Seq<(u32, Mac)>, functions: Set<u32>, m: Mac) -> bool {
    exists|i: int| 0 <= i < vf.len() && functions.contains((#[trigger] vf[i]).0) && vf[i].1 == m
}

/// Whether an address is kept out of an uplink's filter: by the operator, by the
/// wire side of the bridge, or by the card.
pub open spec fn kept_out(
    exclude: Set<Mac>,
    links: Map<u32, LinkModel>,
    anat: AnatomyModel,
    vf: Seq<(u32, Mac)>,
    m: Mac,
) -> bool {
    ||| exclude.contains(m)
    ||| address_below(links, anat.port, m)
    ||| has_address(links, anat.dev, m)
    ||| address_of_function(links, anat.functions, m)
    ||| driver_names(vf, anat.functions, m)
}

/// Whether a forwarding entry was learnt from traffic and names one station: it
/// is not permanent, it does not stand in an interface's own filter, and it is
/// not a group's.
pub open spec fn is_learn(e: FdbEntry) -> bool {
    &&& e.state & 0x80 == 0
    &&& e.flags & 0x02 == 0
    &&& e.mac[0] & 1 == 0
    &&& e.master is Some
}

/// Whether an entry was learnt on the uplink's own port.
pub open spec fn learnt_on_wire(fdb: Seq<FdbEntry>, port: u32, m: Mac) -> bool {
    exists|i: int|
        0 <= i < fdb.len() && is_learn(#[trigger] fdb[i]) && fdb[i].mac == m && fdb[i].ifindex
            == port
}

/// Whether a learn is behind a bridge: the bridge learnt it elsewhere than on the
/// uplink's port, or a bridge stacked on it did, on a port that does not lead
/// back down.
pub open spec fn is_behind(
    links: Map<u32, LinkModel>,
    bridge: u32,
    port: u32,
    ifindex: u32,
    master: u32,
) -> bool {
    &&& ifindex != port
    &&& master == bridge || {
        &&& links.contains_key(master)
        &&& links[master].is_bridge
        &&& exists|p: Seq<u32>| #[trigger]
            leads_up(links, p) && p[0] == bridge && p.last() == master
        &&& !exists|p: Seq<u32>| #[trigger]
            leads_up(links, p) && p[0] == bridge && p.last() == ifindex
    }
}

/// Whether an entry says that a station is behind a bridge.
pub open spec fn entry_behind(
    links: Map<u32, LinkModel>,
    bridge: u32,
    port: u32,
    e: FdbEntry,
) -> bool {
    is_learn(e) && (e.master matches Some(master) && is_behind(
        links,
        bridge,
        port,
        e.ifindex,
        master,
    ))
}

/// Whether the table says that an address is behind a bridge.
pub open spec fn table_behind(
    links: Map<u32, LinkModel>,
    bridge: u32,
    port: u32,
    fdb: Seq<FdbEntry>,
    m: Mac,
) -> bool {
    exists|i: int|
        0 <= i < fdb.len() && entry_behind(links, bridge, port, #[trigger] fdb[i]) && fdb[i].mac
            == m
}

/// Whether an address can stand in a unicast filter: one station's, and not all
/// zeroes.
pub open spec fn can_stand(m: Mac) -> bool {
    &&& m[0] & 1 == 0
    &&& m[0] != 0 || m[1] != 0 || m[2] != 0 || m[3] != 0 || m[4] != 0 || m[5] != 0
}

proof fn lemma_below(links: Map<u32, LinkModel>, root: u32, m: Mac)
    ensures
        macs_in(links, subtree(links, root)).contains(m) <==> address_below(links, root, m),
{
    if macs_in(links, subtree(links, root)).contains(m) {
        let x = choose|x: u32| #[trigger]
            subtree(links, root).contains(x) && links.contains_key(x) && links[x].mac == Some(m);
        below_is_what_a_path_leads_down_to(links, root, x);
    }
    if address_below(links, root, m) {
        let p = choose|p: Seq<u32>| #[trigger]
            leads_down(links, p) && p[0] == root && has_address(links, p.last(), m);
        below_is_what_a_path_leads_down_to(links, root, p.last());
    }
}

proof fn lemma_above(links: Map<u32, LinkModel>, root: u32, m: Mac)
    ensures
        macs_in(links, above(links, root)).contains(m) <==> address_above(links, root, m),
{
    if macs_in(links, above(links, root)).contains(m) {
        let x = choose|x: u32| #[trigger]
            above(links, root).contains(x) && links.contains_key(x) && links[x].mac == Some(m);
        above_is_what_a_path_leads_up_to(links, root, x);
    }
    if address_above(links, root, m) {
        let p = choose|p: Seq<u32>| #[trigger]
            leads_up(links, p) && p[0] == root && has_address(links, p.last(), m);
        above_is_what_a_path_leads_up_to(links, root, p.last());
    }
}

proof fn lemma_functions(
    links: Map<u32, LinkModel>,
    functions: Set<u32>,
    vf: Seq<(u32, Mac)>,
    m: Mac,
)
    ensures
        address_of_function(links, functions, m) <==> exists|f: u32|
            functions.contains(f) && #[trigger] crate::sync::decide::belongs_to_function(
                links,
                f,
                m,
            ),
        driver_names(vf, functions, m) <==> reported(functions, vf).contains(m),
{
    if address_of_function(links, functions, m) {
        let f = choose|f: u32| #[trigger]
            functions.contains(f) && links.contains_key(f) && (links[f].mac == Some(m)
                || exists|i: int|
                0 <= i < links[f].vf_netdevs.len() && has_address(
                    links,
                    #[trigger] links[f].vf_netdevs[i],
                    m,
                ));
        if links[f].mac != Some(m) {
            let i = choose|i: int|
                0 <= i < links[f].vf_netdevs.len() && has_address(
                    links,
                    #[trigger] links[f].vf_netdevs[i],
                    m,
                );
            assert(links[f].vf_netdevs.contains(links[f].vf_netdevs[i]));
        }
        assert(crate::sync::decide::belongs_to_function(links, f, m));
    }
    if exists|f: u32|
        functions.contains(f) && #[trigger] crate::sync::decide::belongs_to_function(links, f, m) {
        let f = choose|f: u32|
            functions.contains(f) && #[trigger] crate::sync::decide::belongs_to_function(
                links,
                f,
                m,
            );
        if links[f].mac != Some(m) {
            let v = choose|v: u32| #[trigger]
                links[f].vf_netdevs.contains(v) && links.contains_key(v) && links[v].mac == Some(m);
            let i = choose|i: int|
                0 <= i < links[f].vf_netdevs.len() && links[f].vf_netdevs[i] == v;
            assert(has_address(links, links[f].vf_netdevs[i], m));
        }
        assert(functions.contains(f));
    }
}

/// What is kept out of an uplink's filter, and nothing beside it: what the
/// operator listed, the addresses of the interfaces at or below the uplink's own
/// port, the uplink's own, those of its physical functions and of their virtual
/// functions that are bound here, and those that the driver gives for these
/// functions. An interface below the bridge that is not on this uplink's side
/// keeps nothing out.
pub proof fn only_the_uplinks_own_side_is_kept_out(
    exclude: Set<Mac>,
    links: Map<u32, LinkModel>,
    anat: AnatomyModel,
    vf: Seq<(u32, Mac)>,
    m: Mac,
)
    ensures
        excluded(exclude, links, anat, vf).contains(m) <==> kept_out(exclude, links, anat, vf, m),
{
    lemma_below(links, anat.port, m);
    lemma_functions(links, anat.functions, vf, m);
}

pub(crate) proof fn lemma_bits(e: FdbEntry)
    ensures
        is_learn(e) <==> e.learnt() && crate::mac::unicast(e.mac) && e.master is Some,
{
    assert(NTF_SELF == 0x02 && NUD_PERMANENT == 0x80);
}

/// Where a forwarding entry puts its station.
pub proof fn an_entry_is_where_it_was_learnt(
    links: Map<u32, LinkModel>,
    bridge: u32,
    port: u32,
    e: FdbEntry,
)
    ensures
        learn_of(links, bridge, port, e) == Some(Learn::Wire) <==> is_learn(e) && e.ifindex == port,
        learn_of(links, bridge, port, e) == Some(Learn::Behind) <==> entry_behind(
            links,
            bridge,
            port,
            e,
        ),
        learn_of(links, bridge, port, e) is None <==> !is_learn(e),
{
    lemma_bits(e);
    if let Some(master) = e.master {
        a_learn_is_where_its_port_is(links, bridge, e.ifindex, master, port);
    }
}

/// What the wire carries is what was learnt on the uplink's own port, whoever
/// learnt it.
pub proof fn the_wire_is_the_uplinks_port(
    links: Map<u32, LinkModel>,
    anat: AnatomyModel,
    fdb: Seq<FdbEntry>,
    m: Mac,
)
    requires
        links.contains_key(anat.bridge),
    ensures
        wire_set(links, anat, fdb).contains(m) <==> learnt_on_wire(fdb, anat.port, m),
{
    if wire_set(links, anat, fdb).contains(m) {
        let i = choose|i: int|
            0 <= i < fdb.len() && (#[trigger] fdb[i]).mac == m && learn_of(
                links,
                anat.bridge,
                anat.port,
                fdb[i],
            ) == Some(Learn::Wire);
        an_entry_is_where_it_was_learnt(links, anat.bridge, anat.port, fdb[i]);
    }
    if learnt_on_wire(fdb, anat.port, m) {
        let i = choose|i: int|
            0 <= i < fdb.len() && is_learn(#[trigger] fdb[i]) && fdb[i].mac == m && fdb[i].ifindex
                == anat.port;
        an_entry_is_where_it_was_learnt(links, anat.bridge, anat.port, fdb[i]);
    }
}

proof fn lemma_behind(
    links: Map<u32, LinkModel>,
    bridge: u32,
    port: u32,
    fdb: Seq<FdbEntry>,
    m: Mac,
)
    ensures
        learnt(links, bridge, port, fdb, Learn::Behind).contains(m) <==> table_behind(
            links,
            bridge,
            port,
            fdb,
            m,
        ),
{
    if learnt(links, bridge, port, fdb, Learn::Behind).contains(m) {
        let i = choose|i: int|
            0 <= i < fdb.len() && (#[trigger] fdb[i]).mac == m && learn_of(
                links,
                bridge,
                port,
                fdb[i],
            ) == Some(Learn::Behind);
        an_entry_is_where_it_was_learnt(links, bridge, port, fdb[i]);
    }
    if table_behind(links, bridge, port, fdb, m) {
        let i = choose|i: int|
            0 <= i < fdb.len() && entry_behind(links, bridge, port, #[trigger] fdb[i])
                && fdb[i].mac == m;
        an_entry_is_where_it_was_learnt(links, bridge, port, fdb[i]);
    }
}

/// Whether an address belongs in an uplink's filter outright: it was learnt
/// behind the bridge, an interface at or above the bridge has it, or the operator
/// pinned it; it is not kept out, it is not on the wire, and it can stand in a
/// filter.
pub open spec fn belongs(
    rules: Rules,
    links: Map<u32, LinkModel>,
    anat: AnatomyModel,
    fdb: Seq<FdbEntry>,
    vf: Seq<(u32, Mac)>,
    m: Mac,
) -> bool {
    &&& {
        ||| table_behind(links, anat.bridge, anat.port, fdb, m)
        ||| address_above(links, anat.bridge, m)
        ||| rules.extra.contains(m)
    }
    &&& !kept_out(rules.exclude, links, anat, vf, m)
    &&& !learnt_on_wire(fdb, anat.port, m)
    &&& can_stand(m)
}

/// What belongs in an uplink's filter outright.
pub proof fn what_belongs_is_desired(
    rules: Rules,
    links: Map<u32, LinkModel>,
    anat: AnatomyModel,
    fdb: Seq<FdbEntry>,
    vf: Seq<(u32, Mac)>,
    m: Mac,
)
    requires
        links.contains_key(anat.bridge),
    ensures
        desired_set(rules, links, anat, fdb, vf).contains(m) <==> belongs(
            rules,
            links,
            anat,
            fdb,
            vf,
            m,
        ),
{
    lemma_behind(links, anat.bridge, anat.port, fdb, m);
    lemma_above(links, anat.bridge, m);
    only_the_uplinks_own_side_is_kept_out(rules.exclude, links, anat, vf, m);
    the_wire_is_the_uplinks_port(links, anat, fdb, m);
    lemma_stands(m);
}

/// What can stand in a filter.
pub proof fn lemma_stands(m: Mac)
    ensures
        crate::mac::registerable(m) <==> can_stand(m),
{
    if !crate::mac::all_zero(m) {
        let i = choose|i: int| 0 <= i < 6 && m[i] != 0;
        assert(i == 0 || i == 1 || i == 2 || i == 3 || i == 4 || i == 5);
    }
}

/// The host itself stays within reach of the virtual functions: the bridge's own
/// address is wanted, also where a port that is not the uplink's shares it, as
/// long as nothing on the uplink's own side does.
pub proof fn the_bridges_own_address_is_wanted(
    rules: Rules,
    links: Map<u32, LinkModel>,
    anat: AnatomyModel,
    fdb: Seq<FdbEntry>,
    vf: Seq<(u32, Mac)>,
    owned: Set<Mac>,
    ports: PortsModel,
    m: Mac,
)
    requires
        has_address(links, anat.bridge, m),
        !rules.exclude.contains(m),
        !address_below(links, anat.port, m),
        !has_address(links, anat.dev, m),
        !address_of_function(links, anat.functions, m),
        !driver_names(vf, anat.functions, m),
        !learnt_on_wire(fdb, anat.port, m),
        can_stand(m),
    ensures
        desired_set(rules, links, anat, fdb, vf).contains(m),
        wanted_set(rules, links, anat, fdb, vf, owned, ports).contains(m),
{
    let p = seq![anat.bridge];
    assert(leads_up(links, p));
    what_belongs_is_desired(rules, links, anat, fdb, vf, m);
}

/// The port that counts for an address learnt behind the bridge is that of the
/// last entry that says so, and nothing is recorded of any other address.
pub proof fn the_last_learn_counts(
    links: Map<u32, LinkModel>,
    anat: AnatomyModel,
    fdb: Seq<FdbEntry>,
    m: Mac,
)
    requires
        links.contains_key(anat.bridge),
    ensures
        behind_map(links, anat, fdb).contains_key(m) <==> table_behind(
            links,
            anat.bridge,
            anat.port,
            fdb,
            m,
        ),
        forall|i: int|
            0 <= i < fdb.len() && entry_behind(links, anat.bridge, anat.port, #[trigger] fdb[i])
                && fdb[i].mac == m && (forall|j: int|
                i < j < fdb.len() && (#[trigger] fdb[j]).mac == m ==> !entry_behind(
                    links,
                    anat.bridge,
                    anat.port,
                    fdb[j],
                )) ==> behind_map(links, anat, fdb)[m] == fdb[i].ifindex,
{
    let (bridge, port) = (anat.bridge, anat.port);
    lemma_behind(links, bridge, port, fdb, m);
    lemma_last_learn(links, bridge, port, fdb, m);
    assert forall|i: int|
        0 <= i < fdb.len() && entry_behind(links, bridge, port, #[trigger] fdb[i]) && fdb[i].mac
            == m && (forall|j: int|
            i < j < fdb.len() && (#[trigger] fdb[j]).mac == m ==> !entry_behind(
                links,
                bridge,
                port,
                fdb[j],
            )) implies behind_map(links, anat, fdb)[m] == fdb[i].ifindex by {
        an_entry_is_where_it_was_learnt(links, bridge, port, fdb[i]);
        assert forall|j: int| i < j < fdb.len() && (#[trigger] fdb[j]).mac == m implies learn_of(
            links,
            bridge,
            port,
            fdb[j],
        ) != Some(Learn::Behind) by {
            an_entry_is_where_it_was_learnt(links, bridge, port, fdb[j]);
        }
    }
}

proof fn lemma_last_learn(
    links: Map<u32, LinkModel>,
    bridge: u32,
    port: u32,
    fdb: Seq<FdbEntry>,
    m: Mac,
)
    ensures
        learnt_behind(links, bridge, port, fdb).contains_key(m) <==> learnt(
            links,
            bridge,
            port,
            fdb,
            Learn::Behind,
        ).contains(m),
        forall|i: int|
            0 <= i < fdb.len() && (#[trigger] fdb[i]).mac == m && learn_of(
                links,
                bridge,
                port,
                fdb[i],
            ) == Some(Learn::Behind) && (forall|j: int|
                i < j < fdb.len() && (#[trigger] fdb[j]).mac == m ==> learn_of(
                    links,
                    bridge,
                    port,
                    fdb[j],
                ) != Some(Learn::Behind)) ==> learnt_behind(links, bridge, port, fdb)[m]
                == fdb[i].ifindex,
    decreases fdb.len(),
{
    if fdb.len() > 0 {
        let head = fdb.drop_last();
        let e = fdb.last();
        lemma_last_learn(links, bridge, port, head, m);
        assert(fdb[fdb.len() - 1] == e);
        assert forall|i: int| 0 <= i < head.len() implies #[trigger] head[i] == fdb[i] by {}
        if learnt(links, bridge, port, head, Learn::Behind).contains(m) {
            let i = choose|i: int|
                0 <= i < head.len() && (#[trigger] head[i]).mac == m && learn_of(
                    links,
                    bridge,
                    port,
                    head[i],
                ) == Some(Learn::Behind);
            assert(fdb[i].mac == m);
        }
        if learnt(links, bridge, port, fdb, Learn::Behind).contains(m) {
            let i = choose|i: int|
                0 <= i < fdb.len() && (#[trigger] fdb[i]).mac == m && learn_of(
                    links,
                    bridge,
                    port,
                    fdb[i],
                ) == Some(Learn::Behind);
            if i < head.len() {
                assert(head[i].mac == m);
            }
        }
        assert forall|i: int|
            0 <= i < fdb.len() && (#[trigger] fdb[i]).mac == m && learn_of(
                links,
                bridge,
                port,
                fdb[i],
            ) == Some(Learn::Behind) && (forall|j: int|
                i < j < fdb.len() && (#[trigger] fdb[j]).mac == m ==> learn_of(
                    links,
                    bridge,
                    port,
                    fdb[j],
                ) != Some(Learn::Behind)) implies learnt_behind(links, bridge, port, fdb)[m]
            == fdb[i].ifindex by {
            if i < head.len() {
                assert(head[i].mac == m);
                assert(!(e.mac == m && learn_of(links, bridge, port, e) == Some(Learn::Behind)));
            }
        }
    }
}

/// Whether a port still hangs under a bridge, or under one stacked on it, and not
/// on the uplink's own side.
pub open spec fn hangs_on(links: Map<u32, LinkModel>, anat: AnatomyModel, p: u32) -> bool {
    &&& !exists|q: Seq<u32>| #[trigger]
        leads_down(links, q) && q[0] == anat.port && q.last() == p
    &&& exists|br: u32, q: u32| #[trigger]
        bridge_over(links, p) == Some((br, q)) && (br == anat.bridge || {
            &&& links.contains_key(br)
            &&& links[br].is_bridge
            &&& exists|u: Seq<u32>| #[trigger]
                leads_up(links, u) && u[0] == anat.bridge && u.last() == br
        })
}

/// Which addresses are kept although nothing speaks for them any more: those on
/// the note, heard behind a port that still hangs under the bridge, that are
/// neither on the wire nor kept out and can stand in a filter.
pub proof fn what_is_kept_hangs_on(
    rules: Rules,
    links: Map<u32, LinkModel>,
    anat: AnatomyModel,
    fdb: Seq<FdbEntry>,
    vf: Seq<(u32, Mac)>,
    owned: Set<Mac>,
    ports: PortsModel,
    m: Mac,
)
    requires
        links.contains_key(anat.bridge),
        links.contains_key(anat.dev),
    ensures
        quiet_set(rules, links, anat, fdb, vf, owned, ports).contains(m) <==> {
            &&& owned.contains(m)
            &&& ports.contains_key(m)
            &&& hangs_on(links, anat, ports[m].0)
            &&& !belongs(rules, links, anat, fdb, vf, m)
            &&& !kept_out(rules.exclude, links, anat, vf, m)
            &&& !learnt_on_wire(fdb, anat.port, m)
            &&& can_stand(m)
        },
        wanted_set(rules, links, anat, fdb, vf, owned, ports).contains(m) <==> belongs(
            rules,
            links,
            anat,
            fdb,
            vf,
            m,
        ) || quiet_set(rules, links, anat, fdb, vf, owned, ports).contains(m),
{
    what_belongs_is_desired(rules, links, anat, fdb, vf, m);
    only_the_uplinks_own_side_is_kept_out(rules.exclude, links, anat, vf, m);
    the_wire_is_the_uplinks_port(links, anat, fdb, m);
    lemma_stands(m);
    if ports.contains_key(m) {
        lemma_hangs_on(links, anat, ports[m].0);
    }
}

/// Which port hangs on.
pub proof fn lemma_hangs_on(links: Map<u32, LinkModel>, anat: AnatomyModel, p: u32)
    ensures
        port_lives(links, anat, p) <==> hangs_on(links, anat, p),
{
    below_is_what_a_path_leads_down_to(links, anat.port, p);
    if let Some((br, q)) = bridge_over(links, p) {
        stacked_bridges_are_above(links, anat.bridge, br);
        assert(bridge_over(links, p) == Some((br, q)));
    }
    if hangs_on(links, anat, p) {
        let (br, q) = choose|br: u32, q: u32| #[trigger]
            bridge_over(links, p) == Some((br, q)) && (br == anat.bridge || {
                &&& links.contains_key(br)
                &&& links[br].is_bridge
                &&& exists|u: Seq<u32>| #[trigger]
                    leads_up(links, u) && u[0] == anat.bridge && u.last() == br
            });
        stacked_bridges_are_above(links, anat.bridge, br);
    }
}

} // verus!
