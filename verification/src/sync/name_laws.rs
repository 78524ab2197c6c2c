//! Nothing is decided by an interface's name: which way is the wire, and what
//! belongs in a filter, comes from the stacking alone.

use vstd::prelude::*;

use crate::graph::flooded;
use crate::mac::Mac;
use crate::netlink::FdbEntry;
use crate::sync::decide::{
    belongs_to_function, desired_set, excluded, learn_of, learnt, port_lives, quiet_set, wanted_set,
    wire_set, Rules,
};
use crate::sync::memory::PortsModel;
use crate::topology::{
    above, anatomy_of, bridge_from, carrier, carrier_from, edges, functions_of, lemma_unseen,
    macs_in, own_function, stacked_on, subtree, AnatomyModel, Learn, LinkModel, Way,
};

verus! {

/// Whether two pictures of a host differ in nothing but the interfaces' names.
pub open spec fn same_but_names(a: Map<u32, LinkModel>, b: Map<u32, LinkModel>) -> bool {
    &&& a.dom() == b.dom()
    &&& forall|x: u32| #[trigger]
        a.contains_key(x) ==> b[x] == (LinkModel { name: b[x].name, ..a[x] })
}

proof fn lemma_edges(a: Map<u32, LinkModel>, b: Map<u32, LinkModel>, way: Way)
    requires
        same_but_names(a, b),
    ensures
        edges(a, way) == edges(b, way),
{
    assert forall|x: u32| #[trigger] edges(a, way)(x) == edges(b, way)(x) by {
        assert(a.contains_key(x) == b.dom().contains(x));
    }
    assert(edges(a, way) =~= edges(b, way));
}

proof fn lemma_carrier(a: Map<u32, LinkModel>, b: Map<u32, LinkModel>, cur: u32, seen: Set<u32>)
    requires
        a.dom().finite(),
        same_but_names(a, b),
    ensures
        carrier_from(a, cur, seen) == carrier_from(b, cur, seen),
    decreases a.dom().difference(seen).len(),
{
    assert(a.contains_key(cur) == b.dom().contains(cur));
    if !seen.contains(cur) && a.contains_key(cur) {
        if let Some(parent) = a[cur].filter_below {
            lemma_unseen(a, seen, cur);
            lemma_carrier(a, b, parent, seen.insert(cur));
        }
    }
}

proof fn lemma_bridge(a: Map<u32, LinkModel>, b: Map<u32, LinkModel>, cur: u32, seen: Set<u32>)
    requires
        a.dom().finite(),
        same_but_names(a, b),
    ensures
        bridge_from(a, cur, seen) == bridge_from(b, cur, seen),
    decreases a.dom().difference(seen).len(),
{
    assert(a.contains_key(cur) == b.dom().contains(cur));
    if !seen.contains(cur) && a.contains_key(cur) {
        if let Some(m) = a[cur].master {
            assert(a.contains_key(m) == b.dom().contains(m));
            lemma_unseen(a, seen, cur);
            lemma_bridge(a, b, m, seen.insert(cur));
        }
    }
}

proof fn lemma_swapped(a: Map<u32, LinkModel>, b: Map<u32, LinkModel>)
    requires
        same_but_names(a, b),
    ensures
        same_but_names(b, a),
{
    assert forall|x: u32| #[trigger] b.contains_key(x) implies a[x] == (LinkModel {
        name: a[x].name,
        ..b[x]
    }) by {
        assert(a.dom().contains(x));
        assert(a.contains_key(x));
    }
}

proof fn lemma_some_functions(a: Map<u32, LinkModel>, b: Map<u32, LinkModel>, dev: u32)
    requires
        same_but_names(a, b),
    ensures
        functions_of(a, dev).subset_of(functions_of(b, dev)),
{
    lemma_edges(a, b, Way::Members);
    assert forall|f: u32| functions_of(a, dev).contains(f) implies functions_of(b, dev).contains(
        f,
    ) by {
        let x = choose|x: u32|
            flooded(edges(a, Way::Members), seq![dev]).contains(x) && #[trigger] own_function(
                a,
                x,
                f,
            );
        assert(a.contains_key(x));
        assert(b.dom().contains(x));
        assert(own_function(b, x, f));
    }
}

proof fn lemma_functions(a: Map<u32, LinkModel>, b: Map<u32, LinkModel>, dev: u32)
    requires
        same_but_names(a, b),
    ensures
        functions_of(a, dev) == functions_of(b, dev),
{
    lemma_swapped(a, b);
    lemma_some_functions(a, b, dev);
    lemma_some_functions(b, a, dev);
    assert(functions_of(a, dev) =~= functions_of(b, dev));
}

/// How an interface hangs under a bridge does not depend on any name.
pub proof fn names_do_not_place_an_uplink(
    a: Map<u32, LinkModel>,
    b: Map<u32, LinkModel>,
    dev: u32,
    bridge: u32,
)
    requires
        a.dom().finite(),
        same_but_names(a, b),
    ensures
        anatomy_of(a, dev, bridge) == anatomy_of(b, dev, bridge),
{
    lemma_bridge(a, b, dev, Set::empty());
    lemma_carrier(a, b, dev, Set::empty());
    lemma_functions(a, b, carrier(a, dev));
}

proof fn lemma_macs(a: Map<u32, LinkModel>, b: Map<u32, LinkModel>, xs: Set<u32>)
    requires
        same_but_names(a, b),
    ensures
        macs_in(a, xs) == macs_in(b, xs),
{
    assert forall|x: u32| #[trigger] xs.contains(x) implies a.contains_key(x) == b.contains_key(x)
        && (a.contains_key(x) ==> a[x].mac == b[x].mac) by {
        assert(a.contains_key(x) == b.dom().contains(x));
    }
    assert(macs_in(a, xs) =~= macs_in(b, xs));
}

proof fn lemma_stacked(a: Map<u32, LinkModel>, b: Map<u32, LinkModel>, bridge: u32)
    requires
        same_but_names(a, b),
    ensures
        above(a, bridge) == above(b, bridge),
        stacked_on(a, bridge) == stacked_on(b, bridge),
{
    lemma_edges(a, b, Way::Up);
    assert forall|x: u32| stacked_on(a, bridge).contains(x) == stacked_on(b, bridge).contains(
        x,
    ) by {
        assert(a.contains_key(x) == b.dom().contains(x));
    }
    assert(stacked_on(a, bridge) =~= stacked_on(b, bridge));
}

proof fn lemma_learnt(
    a: Map<u32, LinkModel>,
    b: Map<u32, LinkModel>,
    bridge: u32,
    port: u32,
    fdb: Seq<FdbEntry>,
    how: Learn,
)
    requires
        same_but_names(a, b),
    ensures
        learnt(a, bridge, port, fdb, how) == learnt(b, bridge, port, fdb, how),
{
    lemma_stacked(a, b, bridge);
    assert forall|e: FdbEntry| #[trigger]
        learn_of(a, bridge, port, e) == learn_of(b, bridge, port, e) by {}
    assert(learnt(a, bridge, port, fdb, how) =~= learnt(b, bridge, port, fdb, how));
}

proof fn lemma_belongs(a: Map<u32, LinkModel>, b: Map<u32, LinkModel>, f: u32, m: Mac)
    requires
        same_but_names(a, b),
        belongs_to_function(a, f, m),
    ensures
        belongs_to_function(b, f, m),
{
    assert(a.contains_key(f));
    assert(b.dom().contains(f));
    if a[f].mac != Some(m) {
        let v = choose|v: u32| #[trigger]
            a[f].vf_netdevs.contains(v) && a.contains_key(v) && a[v].mac == Some(m);
        assert(b.dom().contains(v));
        assert(b[f].vf_netdevs.contains(v));
    }
}

proof fn lemma_some_excluded(
    a: Map<u32, LinkModel>,
    b: Map<u32, LinkModel>,
    exclude: Set<Mac>,
    anat: AnatomyModel,
    vf: Seq<(u32, Mac)>,
)
    requires
        same_but_names(a, b),
    ensures
        excluded(exclude, a, anat, vf).subset_of(excluded(exclude, b, anat, vf)),
{
    lemma_edges(a, b, Way::Down);
    lemma_macs(a, b, subtree(a, anat.port));
    assert(a.contains_key(anat.dev) == b.dom().contains(anat.dev));
    assert forall|m: Mac| excluded(exclude, a, anat, vf).contains(m) implies excluded(
        exclude,
        b,
        anat,
        vf,
    ).contains(m) by {
        if exists|f: u32| anat.functions.contains(f) && #[trigger] belongs_to_function(a, f, m) {
            let f = choose|f: u32|
                anat.functions.contains(f) && #[trigger] belongs_to_function(a, f, m);
            lemma_belongs(a, b, f, m);
        }
    }
}

proof fn lemma_excluded(
    a: Map<u32, LinkModel>,
    b: Map<u32, LinkModel>,
    exclude: Set<Mac>,
    anat: AnatomyModel,
    vf: Seq<(u32, Mac)>,
)
    requires
        same_but_names(a, b),
    ensures
        excluded(exclude, a, anat, vf) == excluded(exclude, b, anat, vf),
{
    lemma_swapped(a, b);
    lemma_some_excluded(a, b, exclude, anat, vf);
    lemma_some_excluded(b, a, exclude, anat, vf);
    assert(excluded(exclude, a, anat, vf) =~= excluded(exclude, b, anat, vf));
}

/// What belongs in an uplink's filter, and what is kept in it, does not depend
/// on any name.
pub proof fn names_decide_nothing(
    rules: Rules,
    a: Map<u32, LinkModel>,
    b: Map<u32, LinkModel>,
    anat: AnatomyModel,
    fdb: Seq<FdbEntry>,
    vf: Seq<(u32, Mac)>,
    owned: Set<Mac>,
    ports: PortsModel,
)
    requires
        a.dom().finite(),
        same_but_names(a, b),
    ensures
        wire_set(a, anat, fdb) == wire_set(b, anat, fdb),
        desired_set(rules, a, anat, fdb, vf) == desired_set(rules, b, anat, fdb, vf),
        quiet_set(rules, a, anat, fdb, vf, owned, ports) == quiet_set(
            rules,
            b,
            anat,
            fdb,
            vf,
            owned,
            ports,
        ),
        wanted_set(rules, a, anat, fdb, vf, owned, ports) == wanted_set(
            rules,
            b,
            anat,
            fdb,
            vf,
            owned,
            ports,
        ),
{
    assert(a.contains_key(anat.bridge) == b.dom().contains(anat.bridge));
    assert(a.contains_key(anat.dev) == b.dom().contains(anat.dev));
    lemma_learnt(a, b, anat.bridge, anat.port, fdb, Learn::Wire);
    lemma_learnt(a, b, anat.bridge, anat.port, fdb, Learn::Behind);
    lemma_stacked(a, b, anat.bridge);
    lemma_edges(a, b, Way::Down);
    lemma_macs(a, b, above(a, anat.bridge));
    lemma_excluded(a, b, rules.exclude, anat, vf);
    assert(desired_set(rules, a, anat, fdb, vf) =~= desired_set(rules, b, anat, fdb, vf));
    assert forall|p: u32| #[trigger] port_lives(a, anat, p) == port_lives(b, anat, p) by {
        lemma_bridge(a, b, p, Set::empty());
    }
    assert(quiet_set(rules, a, anat, fdb, vf, owned, ports) =~= quiet_set(
        rules,
        b,
        anat,
        fdb,
        vf,
        owned,
        ports,
    ));
}

} // verus!
