//! The interface topology: which interface leads where.
//!
//! Everything here is about answering two structural questions without ever
//! looking at an interface's name: which way is the wire, and which way is the
//! rest of the host. Naming conventions differ between distributions, and
//! guessing from them is how a tool like this breaks on somebody else's
//! machine.

use vstd::prelude::*;

use crate::graph::{flooded, lemma_closed, lemma_reaches_self, lemma_reaches_step, reaches, Edges};
use crate::keyed::{
    entry_map, entry_models, lemma_entry, lemma_listed, lemma_push_contains, models, KeyMap, KeySet,
};
use crate::mac::Mac;
use crate::order::{in_order, name_le, sorted, Ordered};

pub mod alike;
pub mod answers;
pub mod assemble;
pub mod detect;
pub mod detect_laws;
pub mod host_laws;
pub mod path_laws;
pub mod walk;

verus! {

/// One interface, with its relations held as interface indices. The name is
/// kept for one purpose: saying which interface is meant in a message a person
/// will read.
pub struct Link {
    pub name: String,
    pub index: u32,
    pub mac: Option<Mac>,
    /// what this interface is enslaved to - a bridge, a bond, a team
    pub master: Option<u32>,
    /// what is enslaved to, or stacked under, this interface
    pub lowers: Vec<u32>,
    /// The interface whose unicast filter this one really writes into: a VLAN
    /// interface has none of its own, the kernel hands an entry down to its
    /// parent. Only VLAN interfaces have one.
    pub filter_below: Option<u32>,
    pub is_bridge: bool,
    /// How long this bridge takes to forget a silent address, in milliseconds.
    pub ageing_ms: Option<u64>,
    pub numvfs: u32,
    pub driver: Option<String>,
    /// the physical function, when this interface is a virtual one: the
    /// lowest-numbered of `pf_netdevs`
    pub physfn: Option<u32>,
    /// every interface of this virtual function's physical function
    pub pf_netdevs: Vec<u32>,
    /// interfaces of this interface's virtual functions, as far as they are
    /// bound on the host
    pub vf_netdevs: Vec<u32>,
    /// what has this interface as a lower - the inverse of `lowers`
    pub uppers: Vec<u32>,
    /// what is enslaved to this interface - the inverse of `master`
    pub slaves: Vec<u32>,
}

/// What a `Link` says.
pub struct LinkModel {
    pub name: Seq<char>,
    pub index: u32,
    pub mac: Option<Mac>,
    pub master: Option<u32>,
    pub lowers: Seq<u32>,
    pub filter_below: Option<u32>,
    pub is_bridge: bool,
    pub ageing_ms: Option<u64>,
    pub numvfs: u32,
    pub driver: Option<Seq<char>>,
    pub physfn: Option<u32>,
    pub pf_netdevs: Seq<u32>,
    pub vf_netdevs: Seq<u32>,
    pub uppers: Seq<u32>,
    pub slaves: Seq<u32>,
}

/// What an optional name says.
pub open spec fn opt_text(s: Option<String>) -> Option<Seq<char>> {
    match s {
        Some(t) => Some(t@),
        None => None,
    }
}

impl View for Link {
    type V = LinkModel;

    open spec fn view(&self) -> LinkModel {
        LinkModel {
            name: self.name@,
            index: self.index,
            mac: self.mac,
            master: self.master,
            lowers: self.lowers@,
            filter_below: self.filter_below,
            is_bridge: self.is_bridge,
            ageing_ms: self.ageing_ms,
            numvfs: self.numvfs,
            driver: opt_text(self.driver),
            physfn: self.physfn,
            pf_netdevs: self.pf_netdevs@,
            vf_netdevs: self.vf_netdevs@,
            uppers: self.uppers@,
            slaves: self.slaves@,
        }
    }
}

/// A copy of a list of indices.
pub fn copy_indices(v: &Vec<u32>) -> (r: Vec<u32>)
    ensures
        r@ == v@,
{
    let mut out: Vec<u32> = Vec::new();
    let mut i: usize = 0;
    while i < v.len()
        invariant
            i <= v@.len(),
            out@ == v@.take(i as int),
        decreases v@.len() - i,
    {
        out.push(v[i]);
        assert(v@.take(i + 1) =~= v@.take(i as int).push(v@[i as int]));
        i += 1;
    }
    assert(v@.take(v@.len() as int) =~= v@);
    out
}

/// Whether a list of indices holds `x`.
pub fn holds_index(v: &Vec<u32>, x: u32) -> (r: bool)
    ensures
        r == v@.contains(x),
{
    let mut i: usize = 0;
    while i < v.len()
        invariant
            i <= v@.len(),
            forall|j: int| 0 <= j < i ==> v@[j] != x,
        decreases v@.len() - i,
    {
        if v[i] == x {
            return true;
        }
        i += 1;
    }
    false
}

/// A copy of an optional name.
pub fn copy_name(s: &Option<String>) -> (r: Option<String>)
    ensures
        opt_text(r) == opt_text(*s),
{
    match s {
        Some(t) => Some(t.clone()),
        None => None,
    }
}

/// Which edges a walk follows.
#[derive(Clone, Copy, PartialEq, Eq, Structural)]
pub enum Way {
    /// to what lies below
    Down,
    /// to what is stacked on top
    Up,
    /// to the members of an interface that is no card of its own
    Members,
}

/// Whether an interface is a card, or a virtual function of one.
pub open spec fn has_card(l: LinkModel) -> bool {
    l.pf_netdevs.len() > 0 || l.numvfs > 0
}

/// Where the edges of one kind lead from an interface.
pub open spec fn next_of(l: LinkModel, way: Way) -> Seq<u32> {
    match way {
        Way::Down => l.lowers,
        Way::Up => l.uppers,
        Way::Members => if has_card(l) {
            Seq::empty()
        } else {
            l.slaves
        },
    }
}

/// The edges of one kind between all interfaces; none from an unknown one.
pub open spec fn edges(links: Map<u32, LinkModel>, way: Way) -> Edges {
    |x: u32|
        if links.contains_key(x) {
            next_of(links[x], way)
        } else {
            Seq::empty()
        }
}

/// What a topology says.
pub struct TopologyModel {
    pub links: Map<u32, LinkModel>,
    pub names: Map<Seq<char>, u32>,
}

/// See `Topology::anatomy`.
pub struct Anatomy {
    pub dev: u32,
    pub bridge: u32,
    pub port: u32,
    pub card: u32,
    pub functions: Vec<u32>,
}

/// Every interface of the host, by index and by name.
pub struct Topology {
    links: KeyMap<u32, Link>,
    by_name: KeyMap<String, u32>,
    /// the bridges in name order, worked out once
    bridge_order: Vec<u32>,
}

/// What the links in a map say.
pub open spec fn link_models(m: Map<u32, Link>) -> Map<u32, LinkModel> {
    m.map_values(|l: Link| l@)
}

/// A name with the index it goes with.
pub struct Named {
    pub name: String,
    pub index: u32,
}

/// In the order of the names; under one name in the order of the indices.
pub open spec fn named_le(a: Seq<char>, i: u32, b: Seq<char>, j: u32) -> bool {
    name_le(a, b) && (name_le(b, a) ==> i <= j)
}

impl Ordered for Named {
    open spec fn leq(&self, other: &Self) -> bool {
        named_le(self.name@, self.index, other.name@, other.index)
    }

    proof fn total(a: &Self, b: &Self) {
        <String as Ordered>::total(&a.name, &b.name);
    }

    proof fn trans(a: &Self, b: &Self, c: &Self) {
        <String as Ordered>::trans(&a.name, &b.name, &c.name);
        if name_le(c.name@, a.name@) {
            <String as Ordered>::trans(&b.name, &c.name, &a.name);
            <String as Ordered>::trans(&c.name, &a.name, &b.name);
        }
    }

    fn comes_first(&self, other: &Self) -> (r: bool) {
        self.name.comes_first(&other.name) && (!other.name.comes_first(&self.name) || self.index
            <= other.index)
    }
}

/// Whether `order` lists exactly the interfaces of `links`, or only the bridges
/// among them, each once, in name order.
pub open spec fn lists_in_name_order(
    order: Seq<u32>,
    links: Map<u32, LinkModel>,
    bridges_only: bool,
) -> bool {
    &&& order.no_duplicates()
    &&& forall|x: u32| #[trigger] order.contains(x) <==> links.contains_key(x) && (bridges_only
        ==> links[x].is_bridge)
    &&& forall|i: int, j: int|
        #![trigger order[i], order[j]]
        0 <= i <= j < order.len() ==> named_le(
            links[order[i]].name,
            order[i],
            links[order[j]].name,
            order[j],
        )
}

/// Whether `x` is a bridge.
pub open spec fn bridge_at(links: Map<u32, LinkModel>, x: u32) -> bool {
    links.contains_key(x) && links[x].is_bridge
}

/// The interface whose filter `x` hands its entries down to.
pub open spec fn filter_below(links: Map<u32, LinkModel>, x: u32) -> Option<u32> {
    if links.contains_key(x) {
        links[x].filter_below
    } else {
        None
    }
}

/// What `x` is enslaved to.
pub open spec fn master_of(links: Map<u32, LinkModel>, x: u32) -> Option<u32> {
    if links.contains_key(x) {
        links[x].master
    } else {
        None
    }
}

/// One interface fewer is unseen once a known one has been seen.
pub proof fn lemma_unseen(links: Map<u32, LinkModel>, seen: Set<u32>, x: u32)
    requires
        links.dom().finite(),
        links.contains_key(x),
        !seen.contains(x),
    ensures
        links.dom().difference(seen.insert(x)).len() < links.dom().difference(seen).len(),
{
    assert(links.dom().difference(seen.insert(x)) =~= links.dom().difference(seen).remove(x));
}

/// Where the filters hand down to from `cur`, when `seen` has been passed
/// already: the first interface that hands nothing down, or the first one met
/// a second time.
pub open spec fn carrier_from(links: Map<u32, LinkModel>, cur: u32, seen: Set<u32>) -> u32
    decreases links.dom().difference(seen).len(),
    when links.dom().finite()
{
    if seen.contains(cur) {
        cur
    } else {
        match filter_below(links, cur) {
            None => cur,
            Some(parent) => {
                proof {
                    lemma_unseen(links, seen, cur);
                }
                carrier_from(links, parent, seen.insert(cur))
            },
        }
    }
}

/// The interface whose filter holds the entries written through `dev`.
pub open spec fn carrier(links: Map<u32, LinkModel>, dev: u32) -> u32 {
    carrier_from(links, dev, Set::empty())
}

/// The first bridge up the chain of masters from `cur`, when `seen` has been
/// passed already, with the interface that is enslaved to it.
pub open spec fn bridge_from(
    links: Map<u32, LinkModel>,
    cur: u32,
    seen: Set<u32>,
) -> Option<(u32, u32)>
    decreases links.dom().difference(seen).len(),
    when links.dom().finite()
{
    if seen.contains(cur) {
        None
    } else {
        match master_of(links, cur) {
            None => None,
            Some(m) => if bridge_at(links, m) {
                Some((m, cur))
            } else {
                proof {
                    lemma_unseen(links, seen, cur);
                }
                bridge_from(links, m, seen.insert(cur))
            },
        }
    }
}

/// The bridge that `dev` ends up in, with the interface through which it does.
pub open spec fn bridge_over(links: Map<u32, LinkModel>, dev: u32) -> Option<(u32, u32)> {
    bridge_from(links, dev, Set::empty())
}

/// Whether `f` is a physical function of the interface `x` itself: one of
/// those a virtual function names, or `x` when it hands out virtual functions.
pub open spec fn own_function(links: Map<u32, LinkModel>, x: u32, f: u32) -> bool {
    &&& links.contains_key(x)
    &&& if links[x].pf_netdevs.len() > 0 {
        links[x].pf_netdevs.contains(f)
    } else {
        links[x].numvfs > 0 && f == x
    }
}

/// The physical functions behind an interface, its members' included when it
/// is no card of its own.
pub open spec fn functions_of(links: Map<u32, LinkModel>, dev: u32) -> Set<u32> {
    Set::new(
        |f: u32|
            exists|x: u32|
                flooded(edges(links, Way::Members), seq![dev]).contains(x) && #[trigger]
                    own_function(links, x, f),
    )
}

/// Whether an index list holds exactly `s`, each index once, in ascending order.
pub open spec fn ascending(v: Seq<u32>, s: Set<u32>) -> bool {
    v.no_duplicates() && in_order(v) && v.to_set() == s
}

/// A set of indices as a list in ascending order.
pub open spec fn ascending_list(s: Set<u32>) -> Seq<u32> {
    choose|v: Seq<u32>| ascending(v, s)
}

/// There is one way to put indices in order.
pub proof fn lemma_ascending_list(v: Seq<u32>, s: Set<u32>)
    requires
        ascending(v, s),
    ensures
        ascending_list(s) == v,
{
    let w = ascending_list(s);
    let leq = |a: u32, b: u32| a <= b;
    assert(vstd::relations::total_ordering(leq));
    assert forall|i: int, j: int| 0 <= i < j < v.len() implies #[trigger] leq(v[i], v[j]) by {
        assert(v[i].leq(&v[j]));
    }
    assert forall|i: int, j: int| 0 <= i < j < w.len() implies #[trigger] leq(w[i], w[j]) by {
        assert(w[i].leq(&w[j]));
    }
    assert(v.to_multiset() == w.to_multiset()) by {
        broadcast use vstd::seq_lib::group_to_multiset_ensures;

        v.lemma_multiset_has_no_duplicates();
        w.lemma_multiset_has_no_duplicates();
        assert forall|x: u32| v.to_multiset().count(x) == w.to_multiset().count(x) by {
            assert(v.contains(x) <==> v.to_set().contains(x));
            assert(w.contains(x) <==> w.to_set().contains(x));
            if v.contains(x) {
                assert(v.to_multiset().contains(x));
                assert(w.to_multiset().contains(x));
            }
        }
        assert(v.to_multiset() =~= w.to_multiset());
    }
    vstd::seq_lib::lemma_sorted_unique(v, w, leq);
}

/// Everything stacked on top of `root`, `root` included.
pub open spec fn above(links: Map<u32, LinkModel>, root: u32) -> Set<u32> {
    flooded(edges(links, Way::Up), seq![root])
}

/// Everything at or below `root`.
pub open spec fn subtree(links: Map<u32, LinkModel>, root: u32) -> Set<u32> {
    flooded(edges(links, Way::Down), seq![root])
}

/// The bridges stacked on top of `bridge`, itself not included.
pub open spec fn stacked_on(links: Map<u32, LinkModel>, bridge: u32) -> Set<u32> {
    Set::new(|x: u32| x != bridge && above(links, bridge).contains(x) && bridge_at(links, x))
}

/// What a learnt address says about where its station is.
#[derive(Clone, Copy, PartialEq, Eq, Structural, Debug)]
pub enum Learn {
    /// out on the wire, at the uplink's own port
    Wire,
    /// behind the bridge, or behind a bridge stacked on top of it
    Behind,
    /// somewhere that is no business of this uplink
    NotOurs,
}

/// Where a station is that `master` learnt on its port `ifindex`, for an
/// uplink that hangs in `bridge` through `port`. A stacked bridge also learns
/// on the port that leads back down to the uplink; that one says nothing.
pub open spec fn learn_kind(
    links: Map<u32, LinkModel>,
    bridge: u32,
    ifindex: u32,
    master: u32,
    port: u32,
) -> Learn {
    if ifindex == port {
        Learn::Wire
    } else if master == bridge {
        Learn::Behind
    } else if stacked_on(links, bridge).contains(master) && !above(links, bridge).contains(
        ifindex,
    ) {
        Learn::Behind
    } else {
        Learn::NotOurs
    }
}

/// How far a bridge reaches, worked out once for many questions.
pub struct Reach {
    /// the bridge itself
    pub bridge: u32,
    /// everything stacked on top of it, itself included
    pub above: KeySet<u32>,
    /// the bridges among those, itself not included
    pub stacked: KeySet<u32>,
}

impl Reach {
    /// Whether this is what `links` says about `bridge`.
    pub open spec fn of(self, links: Map<u32, LinkModel>, bridge: u32) -> bool {
        &&& self.bridge == bridge
        &&& self.above@ == above(links, bridge)
        &&& self.stacked@ == stacked_on(links, bridge)
    }

    /// Whether `br` is the bridge, or one stacked on top of it.
    pub fn reaches(&self, br: u32) -> (r: bool)
        ensures
            r == (br == self.bridge || self.stacked@.contains(br)),
    {
        br == self.bridge || self.stacked.contains(&br)
    }

    /// The bridges stacked on top of the bridge.
    pub fn stacked_bridges(&self) -> (r: &KeySet<u32>)
        ensures
            r@ == self.stacked@,
    {
        &self.stacked
    }

    /// Where the station is that `master` learnt on `ifindex`.
    pub fn classify(&self, ifindex: u32, master: u32, port: u32) -> (r: Learn)
        ensures
            forall|links: Map<u32, LinkModel>| #[trigger]
                self.of(links, self.bridge) ==> r == learn_kind(
                    links,
                    self.bridge,
                    ifindex,
                    master,
                    port,
                ),
    {
        if ifindex == port {
            Learn::Wire
        } else if master == self.bridge {
            Learn::Behind
        } else if self.stacked.contains(&master) && !self.above.contains(&ifindex) {
            Learn::Behind
        } else {
            Learn::NotOurs
        }
    }
}

/// Whether `macs` are the addresses of the interfaces `xs`, one for one.
pub open spec fn addresses_of(links: Map<u32, LinkModel>, xs: Seq<u32>, macs: Seq<Mac>) -> bool {
    &&& macs.len() == xs.len()
    &&& forall|i: int|
        #![trigger xs[i]]
        0 <= i < xs.len() ==> links.contains_key(xs[i]) && links[xs[i]].mac == Some(macs[i])
}

/// Whether `v` gives the addresses of these interfaces, one for each that has
/// one.
pub open spec fn lists_addresses(links: Map<u32, LinkModel>, below: Set<u32>, v: Seq<Mac>) -> bool {
    exists|xs: Seq<u32>|
        xs.no_duplicates() && #[trigger] addresses_of(links, xs, v) && forall|x: u32| #[trigger]
            xs.contains(x) <==> below.contains(x) && links.contains_key(x) && links[x].mac is Some
}

/// The addresses that interfaces of `xs` have.
pub open spec fn macs_in(links: Map<u32, LinkModel>, xs: Set<u32>) -> Set<Mac> {
    Set::new(
        |m: Mac|
            exists|x: u32| #[trigger]
                xs.contains(x) && links.contains_key(x) && links[x].mac == Some(m),
    )
}

/// Whether an interface can be an uplink at all: a card of its own, or a VLAN
/// interface with a card somewhere below.
pub open spec fn may_be_uplink(links: Map<u32, LinkModel>, x: u32) -> bool {
    has_card(links[x]) || (links[x].filter_below is Some && functions_of(
        links,
        carrier(links, x),
    ).len() > 0)
}

/// What an `Anatomy` says.
pub struct AnatomyModel {
    pub dev: u32,
    pub bridge: u32,
    pub port: u32,
    pub card: u32,
    pub functions: Set<u32>,
}

impl View for Anatomy {
    type V = AnatomyModel;

    open spec fn view(&self) -> AnatomyModel {
        AnatomyModel {
            dev: self.dev,
            bridge: self.bridge,
            port: self.port,
            card: self.card,
            functions: self.functions@.to_set(),
        }
    }
}

/// How an interface hangs under a bridge; nothing when it does not.
pub open spec fn anatomy_of(
    links: Map<u32, LinkModel>,
    dev: u32,
    bridge: u32,
) -> Option<AnatomyModel> {
    match bridge_over(links, dev) {
        Some((br, port)) => if br == bridge {
            Some(
                AnatomyModel {
                    dev,
                    bridge,
                    port,
                    card: carrier(links, dev),
                    functions: functions_of(links, carrier(links, dev)),
                },
            )
        } else {
            None
        },
        None => None,
    }
}

impl View for Topology {
    type V = TopologyModel;

    closed spec fn view(&self) -> TopologyModel {
        TopologyModel { links: link_models(self.links@), names: self.by_name@ }
    }
}

impl Topology {
    #[verifier::type_invariant]
    spec fn inv(self) -> bool {
        &&& lists_in_name_order(self.bridge_order@, link_models(self.links@), true)
        &&& self.links@.dom().finite()
        &&& forall|x: u32| #[trigger] self.links@.contains_key(x) ==> self.links@[x].index == x
        &&& forall|n: Seq<char>| #[trigger]
            self.by_name@.contains_key(n) ==> self.links@.contains_key(self.by_name@[n])
    }

    /// How many interfaces there are.
    pub fn len(&self) -> (r: usize)
        ensures
            self@.links.dom().finite(),
            forall|x: u32| #[trigger]
                self@.links.contains_key(x) ==> self@.links[x].index == x,
            r == self@.links.dom().len(),
    {
        proof {
            use_type_invariant(self);
        }
        let r = self.links.len();
        assert(self@.links.dom() =~= self.links@.dom());
        r
    }

    /// By index, which is how everything the kernel says identifies an
    /// interface, and how every walk in here travels.
    pub fn at(&self, index: u32) -> (r: Option<&Link>)
        ensures
            match r {
                Some(l) => self@.links.contains_key(index) && l@ == self@.links[index],
                None => !self@.links.contains_key(index),
            },
            self@.links.dom().finite(),
    {
        let _ = self.len();
        self.links.get(&index)
    }

    /// One flood over one kind of edge, roots included.
    fn flood(&self, roots: &Vec<u32>, way: Way) -> (r: KeySet<u32>)
        ensures
            r@ == flooded(edges(self@.links, way), roots@),
    {
        let ghost e = edges(self@.links, way);
        let ghost links = self@.links;
        let mut seen: KeySet<u32> = KeySet::new();
        let mut stack: Vec<u32> = copy_indices(roots);
        proof {
            use_type_invariant(self);
            assert(links.dom() =~= self.links@.dom());
            assert forall|x: u32| #[trigger] stack@.contains(x) implies flooded(
                e,
                roots@,
            ).contains(x) by {
                lemma_reaches_self(e, x);
            }
        }
        while stack.len() > 0
            invariant
                links == self@.links,
                links.dom().finite(),
                e == edges(links, way),
                forall|x: u32| #[trigger] seen@.contains(x) ==> flooded(e, roots@).contains(x),
                forall|x: u32| #[trigger] stack@.contains(x) ==> flooded(e, roots@).contains(x),
                forall|x: u32| #[trigger]
                    roots@.contains(x) ==> seen@.contains(x) || stack@.contains(x),
                forall|x: u32, y: u32|
                    seen@.contains(x) && #[trigger] e(x).contains(y) ==> seen@.contains(y)
                        || stack@.contains(y),
            decreases links.dom().difference(seen@).len(), stack@.len(),
        {
            let ghost stack0 = stack@;
            let ghost seen0 = seen@;
            let cur = stack.pop().unwrap();
            proof {
                assert(stack0 =~= stack@.push(cur));
                assert(stack0[stack0.len() - 1] == cur);
                assert(stack0.contains(cur));
                assert forall|x: u32| #[trigger] stack@.contains(x) implies stack0.contains(x) by {
                    let i = choose|i: int| 0 <= i < stack@.len() && stack@[i] == x;
                    assert(stack0[i] == x);
                }
                assert forall|x: u32| #[trigger] stack0.contains(x) implies x == cur
                    || stack@.contains(x) by {
                    let i = choose|i: int| 0 <= i < stack0.len() && stack0[i] == x;
                    if i < stack@.len() {
                        assert(stack@[i] == x);
                    }
                }
            }
            if seen.insert(cur) {
                let ghost mut list: Seq<u32> = Seq::empty();
                let ghost base = stack@;
                if let Some(link) = self.at(cur) {
                    let empty: Vec<u32> = Vec::new();
                    let next: &Vec<u32> = match way {
                        Way::Down => &link.lowers,
                        Way::Up => &link.uppers,
                        Way::Members => if link.pf_netdevs.len() > 0 || link.numvfs > 0 {
                            &empty
                        } else {
                            &link.slaves
                        },
                    };
                    proof {
                        list = next@;
                        assert(next@ =~= e(cur));
                    }
                    let mut i: usize = 0;
                    while i < next.len()
                        invariant
                            i <= next@.len(),
                            stack@ == base + next@.take(i as int),
                        decreases next@.len() - i,
                    {
                        stack.push(next[i]);
                        assert(next@.take(i + 1) =~= next@.take(i as int).push(next@[i as int]));
                        assert(stack@ =~= base + next@.take(i + 1));
                        i += 1;
                    }
                    assert(next@.take(next@.len() as int) =~= next@);
                } else {
                    assert(stack@ =~= base + list);
                }
                proof {
                    assert(stack@ == base + list);
                    assert(list =~= e(cur));
                    assert forall|x: u32| #[trigger] stack@.contains(x) <==> base.contains(x)
                        || list.contains(x) by {
                        if base.contains(x) {
                            let i = choose|i: int| 0 <= i < base.len() && base[i] == x;
                            assert(stack@[i] == x);
                        }
                        if list.contains(x) {
                            let i = choose|i: int| 0 <= i < list.len() && list[i] == x;
                            assert(stack@[base.len() + i] == x);
                        }
                        if stack@.contains(x) {
                            let i = choose|i: int| 0 <= i < stack@.len() && stack@[i] == x;
                            if i < base.len() {
                                assert(base[i] == x);
                            } else {
                                assert(list[i - base.len()] == x);
                            }
                        }
                    }
                    let root = choose|r: u32| roots@.contains(r) && #[trigger] reaches(e, r, cur);
                    assert forall|x: u32| #[trigger] list.contains(x) implies flooded(
                        e,
                        roots@,
                    ).contains(x) by {
                        lemma_reaches_step(e, root, cur, x);
                    }
                    let left = links.dom().difference(seen@);
                    let left0 = links.dom().difference(seen0);
                    if links.contains_key(cur) {
                        assert(left =~= left0.remove(cur));
                        assert(left0.contains(cur));
                    } else {
                        assert(left =~= left0);
                    }
                }
            } else {
                assert(seen@ =~= seen0);
            }
        }
        proof {
            assert forall|x: u32| flooded(e, roots@).contains(x) implies seen@.contains(x) by {
                let root = choose|r: u32| roots@.contains(r) && #[trigger] reaches(e, r, x);
                lemma_closed(e, seen@, root, x);
            }
            assert(seen@ =~= flooded(e, roots@));
        }
        seen
    }

    /// Everything stacked on top of `root`, `root` itself included: VLAN
    /// interfaces over a bridge, bridges over those, and so on.
    pub fn stacked_above(&self, root: u32) -> (r: KeySet<u32>)
        ensures
            r@ == flooded(edges(self@.links, Way::Up), seq![root]),
    {
        let roots = vec![root];
        assert(roots@ =~= seq![root]);
        self.flood(&roots, Way::Up)
    }

    /// Everything at or below `roots`.
    pub fn subtree_of(&self, roots: &Vec<u32>) -> (r: KeySet<u32>)
        ensures
            r@ == flooded(edges(self@.links, Way::Down), roots@),
    {
        self.flood(roots, Way::Down)
    }

    /// Does `dev` sit on top of `target`, directly or through any number of
    /// layers? True for a VLAN interface over a bridge, for a bridge built on
    /// such a VLAN interface, and so on.
    pub fn leads_to(&self, dev: u32, target: u32) -> (r: bool)
        ensures
            r == reaches(edges(self@.links, Way::Down), dev, target),
    {
        let roots = vec![dev];
        let below = self.subtree_of(&roots);
        proof {
            let e = edges(self@.links, Way::Down);
            assert(roots@[0] == dev);
            assert(roots@.contains(dev));
            assert forall|r: u32| roots@.contains(r) implies r == dev by {}
            assert(below@.contains(target) <==> reaches(e, dev, target));
        }
        below.contains(&target)
    }

    /// By name. For the few places that start from one.
    pub fn get(&self, name: &String) -> (r: Option<&Link>)
        ensures
            match r {
                Some(l) => {
                    &&& self@.names.contains_key(name@)
                    &&& self@.links.contains_key(self@.names[name@])
                    &&& l@ == self@.links[self@.names[name@]]
                    &&& l.index == self@.names[name@]
                },
                None => !self@.names.contains_key(name@),
            },
    {
        proof {
            use_type_invariant(self);
        }
        match self.by_name.get(name) {
            Some(i) => self.links.get(i),
            None => None,
        }
    }

    /// The index that goes with a name.
    pub fn index_of(&self, name: &String) -> (r: Option<u32>)
        ensures
            match r {
                Some(i) => self@.names.contains_key(name@) && i == self@.names[name@],
                None => !self@.names.contains_key(name@),
            },
    {
        match self.by_name.get(name) {
            Some(i) => Some(*i),
            None => None,
        }
    }

    /// The name that goes with an index.
    pub fn name_of(&self, index: u32) -> (r: Option<&String>)
        ensures
            match r {
                Some(n) => self@.links.contains_key(index) && n@ == self@.links[index].name,
                None => !self@.links.contains_key(index),
            },
    {
        match self.links.get(&index) {
            Some(l) => Some(&l.name),
            None => None,
        }
    }

    /// Whether an index is a bridge's.
    pub fn is_bridge(&self, index: u32) -> (r: bool)
        ensures
            r == bridge_at(self@.links, index),
    {
        match self.at(index) {
            Some(l) => l.is_bridge,
            None => false,
        }
    }

    /// The bridges, in name order.
    pub fn bridges(&self) -> (r: Vec<&Link>)
        ensures
            exists|order: Seq<u32>| #[trigger]
                lists_in_name_order(order, self@.links, true) && r@.len()
                    == order.len() && forall|i: int|
                    0 <= i < order.len() ==> (#[trigger] r@[i])@ == self@.links[order[i]],
    {
        proof {
            use_type_invariant(self);
        }
        let ghost order = self.bridge_order@;
        let mut out: Vec<&Link> = Vec::new();
        let mut i: usize = 0;
        while i < self.bridge_order.len()
            invariant
                order == self.bridge_order@,
                i <= order.len(),
                out@.len() == i,
                lists_in_name_order(order, self@.links, true),
                forall|j: int| 0 <= j < i ==> (#[trigger] out@[j])@ == self@.links[order[j]],
            decreases order.len() - i,
        {
            proof {
                assert(order.contains(order[i as int]));
            }
            if let Some(l) = self.links.get(&self.bridge_order[i]) {
                out.push(l);
            }
            i += 1;
        }
        out
    }

    /// The interface whose unicast filter an uplink really writes into - down
    /// the VLAN stack to the first interface that holds one.
    pub fn filter_carrier(&self, dev: u32) -> (r: u32)
        ensures
            r == carrier(self@.links, dev),
    {
        let ghost links = self@.links;
        let _ = self.len();
        let mut seen: KeySet<u32> = KeySet::new();
        let mut cur: u32 = dev;
        let mut going = true;
        while going
            invariant
                links == self@.links,
                links.dom().finite(),
                going ==> carrier(links, dev) == carrier_from(links, cur, seen@),
                !going ==> carrier(links, dev) == cur,
            decreases links.dom().difference(seen@).len(), if going {
                1int
            } else {
                0int
            },
        {
            let ghost seen0 = seen@;
            if seen.insert(cur) {
                let below = match self.at(cur) {
                    Some(l) => l.filter_below,
                    None => None,
                };
                match below {
                    Some(parent) => {
                        proof {
                            lemma_unseen(links, seen0, cur);
                        }
                        cur = parent;
                    },
                    None => {
                        proof {
                            if links.contains_key(cur) {
                                lemma_unseen(links, seen0, cur);
                            } else {
                                assert(links.dom().difference(seen@) =~= links.dom().difference(
                                    seen0,
                                ));
                            }
                        }
                        going = false;
                    },
                }
            } else {
                assert(seen@ =~= seen0);
                going = false;
            }
        }
        cur
    }

    /// The physical functions behind an interface - those whose virtual
    /// functions' addresses must never be registered through it. A virtual
    /// function names its function's interfaces; a physical function is its
    /// own; a bond has none itself but every member's. Empty means: no card
    /// behind this at all.
    pub fn physical_functions(&self, dev: u32) -> (r: Vec<u32>)
        ensures
            ascending(r@, functions_of(self@.links, dev)),
    {
        let ghost links = self@.links;
        let ghost e = edges(links, Way::Members);
        let roots = vec![dev];
        assert(roots@ =~= seq![dev]);
        let reached = self.flood(&roots, Way::Members);
        let list = reached.list();
        let mut found: KeySet<u32> = KeySet::new();
        let mut i: usize = 0;
        while i < list.len()
            invariant
                links == self@.links,
                i <= list@.len(),
                forall|f: u32| #[trigger]
                    found@.contains(f) <==> exists|j: int|
                        0 <= j < i && own_function(links, #[trigger] list@[j], f),
            decreases list@.len() - i,
        {
            let ghost found0 = found@;
            if let Some(l) = self.at(list[i]) {
                if l.pf_netdevs.len() > 0 {
                    let mut k: usize = 0;
                    while k < l.pf_netdevs.len()
                        invariant
                            k <= l.pf_netdevs@.len(),
                            forall|f: u32| #[trigger]
                                found@.contains(f) <==> found0.contains(f)
                                    || l.pf_netdevs@.take(k as int).contains(f),
                        decreases l.pf_netdevs@.len() - k,
                    {
                        let ghost mid = found@;
                        let _ = found.insert(l.pf_netdevs[k]);
                        proof {
                            let head = l.pf_netdevs@.take(k as int);
                            let next = l.pf_netdevs@.take(k + 1);
                            assert(next =~= head.push(l.pf_netdevs@[k as int]));
                            lemma_push_contains(head, l.pf_netdevs@[k as int]);
                        }
                        k += 1;
                    }
                    assert(l.pf_netdevs@.take(k as int) =~= l.pf_netdevs@);
                } else if l.numvfs > 0 {
                    let _ = found.insert(list[i]);
                }
            }
            proof {
                assert forall|f: u32| #[trigger]
                    found@.contains(f) <==> found0.contains(f) || own_function(
                        links,
                        list@[i as int],
                        f,
                    ) by {}
            }
            i += 1;
        }
        proof {
            lemma_listed(list@);
            assert forall|f: u32| #[trigger]
                found@.contains(f) <==> functions_of(links, dev).contains(f) by {
                if found@.contains(f) {
                    let j = choose|j: int|
                        0 <= j < list@.len() && own_function(links, #[trigger] list@[j], f);
                    assert(reached@.contains(list@[j]));
                }
                if functions_of(links, dev).contains(f) {
                    let x = choose|x: u32|
                        flooded(e, seq![dev]).contains(x) && #[trigger] own_function(links, x, f);
                    assert(reached@.contains(x));
                }
            }
        }
        let unsorted = found.list();
        proof {
            lemma_listed(unsorted@);
            assert(models(unsorted@) =~= unsorted@);
        }
        let out = sorted(copy_indices(unsorted));
        proof {
            assert forall|f: u32| out@.to_set().contains(f) <==> functions_of(
                links,
                dev,
            ).contains(f) by {
                assert(out@.contains(f) <==> unsorted@.contains(f));
                assert(unsorted@.to_set().contains(f) <==> found@.contains(f));
            }
            assert(out@.to_set() =~= functions_of(links, dev));
        }
        out
    }

    /// Follow the master chain upwards - through bonds, teams, whatever -
    /// until a bridge is reached. Returns the bridge and the interface that is
    /// actually enslaved to it, which is what the bridge's tables refer to.
    pub fn bridge_above(&self, dev: u32) -> (r: Option<(u32, u32)>)
        ensures
            r == bridge_over(self@.links, dev),
    {
        let ghost links = self@.links;
        let _ = self.len();
        let mut seen: KeySet<u32> = KeySet::new();
        let mut cur: u32 = dev;
        loop
            invariant
                links == self@.links,
                links.dom().finite(),
                bridge_over(links, dev) == bridge_from(links, cur, seen@),
            decreases links.dom().difference(seen@).len(),
        {
            let ghost seen0 = seen@;
            if !seen.insert(cur) {
                // a cycle of masters; nothing above is a bridge
                return None;
            }
            let master = match self.at(cur) {
                Some(l) => l.master,
                None => None,
            };
            match master {
                None => {
                    return None;
                },
                Some(m) => {
                    if self.is_bridge(m) {
                        return Some((m, cur));
                    }
                    proof {
                        lemma_unseen(links, seen0, cur);
                    }
                    cur = m;
                },
            }
        }
    }

    /// The interface of `bridge` under which `dev` sits; `dev` itself when it
    /// is enslaved directly. `None` when the master chain does not reach that
    /// bridge at all: a detached device taken for the port would make every
    /// peer on the cable look like a guest.
    pub fn uplink_port(&self, dev: u32, bridge: u32) -> (r: Option<u32>)
        ensures
            match r {
                Some(port) => bridge_over(self@.links, dev) == Some((bridge, port)),
                None => forall|port: u32| bridge_over(self@.links, dev) != Some((bridge, port)),
            },
    {
        match self.bridge_above(dev) {
            Some((br, port)) => if br == bridge {
                Some(port)
            } else {
                None
            },
            None => None,
        }
    }

    /// What a pair is made of: `port` is where the wire comes in, `functions`
    /// are the cards whose virtual functions' addresses stay out, `card` holds
    /// the filter the capacity is measured on.
    pub fn anatomy(&self, dev: u32, bridge: u32) -> (r: Option<Anatomy>)
        ensures
            match r {
                Some(a) => anatomy_of(self@.links, dev, bridge) == Some(a@) && ascending(
                    a.functions@,
                    functions_of(self@.links, a.card),
                ),
                None => anatomy_of(self@.links, dev, bridge) is None,
            },
    {
        match self.uplink_port(dev, bridge) {
            Some(port) => {
                let card = self.filter_carrier(dev);
                let functions = self.physical_functions(card);
                Some(Anatomy { dev, bridge, port, card, functions })
            },
            None => None,
        }
    }

    /// How far a bridge reaches.
    pub fn reach(&self, bridge: u32) -> (r: Reach)
        ensures
            r.of(self@.links, bridge),
    {
        let ghost links = self@.links;
        let up = self.stacked_above(bridge);
        let mut stacked: KeySet<u32> = KeySet::new();
        let list = up.list();
        let mut i: usize = 0;
        proof {
            lemma_listed(list@);
        }
        while i < list.len()
            invariant
                links == self@.links,
                i <= list@.len(),
                forall|x: u32| #[trigger]
                    stacked@.contains(x) <==> x != bridge && bridge_at(links, x) && exists|j: int|
                        0 <= j < i && #[trigger] list@[j] == x,
            decreases list@.len() - i,
        {
            let x = list[i];
            if x != bridge && self.is_bridge(x) {
                let _ = stacked.insert(x);
            }
            i += 1;
        }
        assert(stacked@ =~= stacked_on(links, bridge)) by {
            assert forall|x: u32| stacked@.contains(x) <==> stacked_on(links, bridge).contains(
                x,
            ) by {
                if above(links, bridge).contains(x) {
                    assert(models(list@).to_set().contains(x));
                }
            }
        }
        Reach { bridge, above: up, stacked }
    }

    /// Every address at or below `dev`. For a bond port that is the bond's own
    /// address plus every member's - all of them face the wire.
    pub fn subtree_macs(&self, dev: u32) -> (r: Vec<Mac>)
        ensures
            lists_addresses(self@.links, subtree(self@.links, dev), r@),
            r@.to_set() == macs_in(self@.links, subtree(self@.links, dev)),
    {
        let ghost links = self@.links;
        let roots = vec![dev];
        assert(roots@ =~= seq![dev]);
        let below = self.subtree_of(&roots);
        let list = below.list();
        let mut out: Vec<Mac> = Vec::new();
        let mut i: usize = 0;
        let ghost mut xs: Seq<u32> = Seq::empty();
        proof {
            lemma_listed(list@);
            assert(models(list@) =~= list@);
        }
        while i < list.len()
            invariant
                links == self@.links,
                i <= list@.len(),
                list@.no_duplicates(),
                xs.no_duplicates(),
                addresses_of(links, xs, out@),
                forall|x: u32| #[trigger]
                    xs.contains(x) <==> list@.take(i as int).contains(x) && links.contains_key(x)
                        && links[x].mac is Some,
            decreases list@.len() - i,
        {
            let x = list[i];
            let ghost xs0 = xs;
            proof {
                assert(list@.take(i + 1) =~= list@.take(i as int).push(x));
                lemma_push_contains(list@.take(i as int), x);
                assert(!list@.take(i as int).contains(x));
            }
            if let Some(l) = self.at(x) {
                if let Some(m) = l.mac {
                    out.push(m);
                    proof {
                        assert(!xs0.contains(x));
                        assert forall|j: int| 0 <= j < xs0.len() implies xs0[j] != x by {
                            assert(xs0.contains(xs0[j]));
                        }
                        xs = xs.push(x);
                        lemma_push_contains(xs0, x);
                    }
                }
            }
            i += 1;
        }
        proof {
            assert(list@.take(i as int) =~= list@);
            assert forall|m: Mac| out@.to_set().contains(m) <==> macs_in(
                links,
                subtree(links, dev),
            ).contains(m) by {
                if out@.contains(m) {
                    let j = choose|j: int| 0 <= j < out@.len() && out@[j] == m;
                    assert(xs.contains(xs[j]));
                    assert(below@.contains(xs[j]));
                }
                if macs_in(links, subtree(links, dev)).contains(m) {
                    let x = choose|x: u32| #[trigger]
                        subtree(links, dev).contains(x) && links.contains_key(x) && links[x].mac
                            == Some(m);
                    assert(models(list@).to_set().contains(x));
                    assert(xs.contains(x));
                    let j = choose|j: int| 0 <= j < xs.len() && xs[j] == x;
                    assert(out@[j] == m);
                }
            }
            assert(out@.to_set() =~= macs_in(links, subtree(links, dev)));
        }
        out
    }

    /// Every interface, in name order.
    pub(crate) fn in_name_order(&self) -> (r: Vec<u32>)
        ensures
            lists_in_name_order(r@, self@.links, false),
    {
        proof {
            use_type_invariant(self);
        }
        name_order(&self.links, false)
    }

    /// Whether an interface can be an uplink at all. A bond cannot - its
    /// members are the candidates, the bond is only their port - and neither
    /// can anything else that is stacked or enslaved.
    pub(crate) fn could_be_uplink(&self, link: &Link) -> (r: bool)
        requires
            self@.links.contains_key(link.index),
            self@.links[link.index] == link@,
        ensures
            r == may_be_uplink(self@.links, link.index),
    {
        if link.numvfs > 0 || link.pf_netdevs.len() > 0 {
            return true;
        }
        if link.filter_below.is_none() {
            return false;
        }
        let fs = self.physical_functions(self.filter_carrier(link.index));
        proof {
            fs@.unique_seq_to_set();
        }
        fs.len() > 0
    }
}

/// The interfaces, or only the bridges among them, in name order.
fn name_order(links: &KeyMap<u32, Link>, bridges_only: bool) -> (r: Vec<u32>)
    requires
        forall|x: u32| #[trigger] links@.contains_key(x) ==> links@[x].index == x,
    ensures
        lists_in_name_order(r@, link_models(links@), bridges_only),
{
    let ghost model = link_models(links@);
    let entries = links.list();
    let mut named: Vec<Named> = Vec::new();
    let mut i: usize = 0;
    while i < entries.len()
        invariant
            i <= entries@.len(),
            model == link_models(links@),
            entry_models(entries@).no_duplicates(),
            entry_map(entries@) == links@,
            forall|n: Named| #[trigger]
                named@.contains(n) <==> exists|j: int|
                    0 <= j < i && n.index == (#[trigger] entries@[j]).0 && n.name
                        == entries@[j].1.name && (bridges_only ==> entries@[j].1.is_bridge),
            named@.no_duplicates(),
        decreases entries@.len() - i,
    {
        let e = &entries[i];
        let ghost before = named@;
        if !bridges_only || e.1.is_bridge {
            let n = Named { name: e.1.name.clone(), index: e.0 };
            proof {
                lemma_push_contains(before, n);
                assert(!before.contains(n)) by {
                    if before.contains(n) {
                        let j = choose|j: int|
                            0 <= j < i && n.index == (#[trigger] entries@[j]).0 && n.name
                                == entries@[j].1.name && (bridges_only
                                ==> entries@[j].1.is_bridge);
                        assert(entry_models(entries@)[j] == entry_models(entries@)[i as int]);
                    }
                }
                assert forall|j: int| 0 <= j < before.len() implies before[j] != n by {
                    assert(before.contains(before[j]));
                }
            }
            named.push(n);
        }
        i += 1;
    }
    let ghost unsorted = named@;
    let ranked = sorted(named);
    let mut out: Vec<u32> = Vec::new();
    let mut k: usize = 0;
    while k < ranked.len()
        invariant
            k <= ranked@.len(),
            out@.len() == k,
            forall|j: int| 0 <= j < k ==> out@[j] == (#[trigger] ranked@[j]).index,
        decreases ranked@.len() - k,
    {
        out.push(ranked[k].index);
        k += 1;
    }
    proof {
        let order = out@;
        // every entry of the ranking is one of the interfaces
        assert forall|j: int| 0 <= j < ranked@.len() implies {
            &&& model.contains_key((#[trigger] ranked@[j]).index)
            &&& model[ranked@[j].index].name == ranked@[j].name@
            &&& links@[ranked@[j].index].name == ranked@[j].name
            &&& bridges_only ==> model[ranked@[j].index].is_bridge
        } by {
            assert(ranked@.contains(ranked@[j]));
            assert(unsorted.contains(ranked@[j]));
            let q = choose|q: int|
                0 <= q < entries@.len() && ranked@[j].index == (#[trigger] entries@[q]).0
                    && ranked@[j].name == entries@[q].1.name && (bridges_only
                    ==> entries@[q].1.is_bridge);
            lemma_entry(entries@, q);
        }
        assert(order.no_duplicates()) by {
            assert forall|a: int, b: int|
                0 <= a < order.len() && 0 <= b < order.len() && a != b implies order[a]
                != order[b] by {
                if order[a] == order[b] {
                    assert(ranked@[a].name == ranked@[b].name);
                    assert(ranked@[a] == ranked@[b]);
                }
            }
        }
        assert forall|x: u32| #[trigger] order.contains(x) <==> model.contains_key(x) && (
        bridges_only ==> model[x].is_bridge) by {
            if order.contains(x) {
                let j = choose|j: int| 0 <= j < order.len() && order[j] == x;
                assert(ranked@[j].index == x);
            }
            if model.contains_key(x) && (bridges_only ==> model[x].is_bridge) {
                let q = entry_models(entries@).index_of(x);
                assert(entry_models(entries@).contains(x));
                lemma_entry(entries@, q);
                let n = Named { name: entries@[q].1.name, index: x };
                assert(unsorted.contains(n));
                assert(ranked@.contains(n));
                let j = choose|j: int| 0 <= j < ranked@.len() && ranked@[j] == n;
                assert(order[j] == x);
            }
        }
        assert forall|a: int, b: int|
            #![trigger order[a], order[b]]
            0 <= a <= b < order.len() implies named_le(
            model[order[a]].name,
            order[a],
            model[order[b]].name,
            order[b],
        ) by {
            assert(ranked@[a].leq(&ranked@[b]));
        }
    }
    out
}

} // verus!
