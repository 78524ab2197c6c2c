//! The interface topology as a walk over `/sys/class/net` finds it.
//!
//! An independent second opinion on the picture in `topology`: the same
//! structural questions - which way is the wire, and which way is the rest of
//! the host - without ever looking at an interface's name. It knows nothing of
//! filters that an interface hands down to another, nor of how long a bridge
//! remembers.

use vstd::prelude::*;

use crate::graph::{flooded, reaches};
use crate::keyed::{lemma_push_contains, KeyMap, KeySet};
use crate::mac::Mac;
use crate::netlink::LinkInfo;
use crate::text::push_text;
use crate::topology::{
    bridge_at, bridge_over, copy_indices, copy_name, edges, lists_addresses, lists_in_name_order,
    macs_in, opt_text, subtree, LinkModel, TopologyModel, Way,
};
use crate::topology::assemble::{
    add_ports, assembled, dumped_links, last_with, link_list, read_links, sys_links, with_ports,
    DeviceReading,
};
use crate::topology::detect::{
    carries, label, pair_names, say_held, say_idle, say_through, says_held, says_idle, says_through,
    texts,
};
use crate::topology::walk::{sys_walked, SysReading};

verus! {

/// One interface, with its relations held as indices. The name is kept for
/// saying which interface is meant.
pub struct Link {
    pub name: String,
    pub index: u32,
    pub mac: Option<Mac>,
    /// what this interface is enslaved to - a bridge, a bond, a team
    pub master: Option<u32>,
    /// what is enslaved to, or stacked under, this interface
    pub lowers: Vec<u32>,
    pub is_bridge: bool,
    pub numvfs: u32,
    pub driver: Option<String>,
    /// the physical function, when this interface is a virtual one: the
    /// lowest-numbered of `pf_netdevs`
    pub physfn: Option<u32>,
    /// every interface of this virtual function's physical function
    pub pf_netdevs: Vec<u32>,
    /// interfaces of this interface's virtual functions, as far as they are
    /// bound on the host
    pub vf_netdevs: Vec<u32>,
    /// what has this interface as a lower - the inverse of `lowers`
    pub uppers: Vec<u32>,
    /// what is enslaved to this interface - the inverse of `master`
    pub slaves: Vec<u32>,
}

impl View for Link {
    type V = LinkModel;

    open spec fn view(&self) -> LinkModel {
        LinkModel {
            name: self.name@,
            index: self.index,
            mac: self.mac,
            master: self.master,
            lowers: self.lowers@,
            filter_below: None,
            is_bridge: self.is_bridge,
            ageing_ms: None,
            numvfs: self.numvfs,
            driver: opt_text(self.driver),
            physfn: self.physfn,
            pf_netdevs: self.pf_netdevs@,
            vf_netdevs: self.vf_netdevs@,
            uppers: self.uppers@,
            slaves: self.slaves@,
        }
    }
}

/// A link without what this reading does not know.
pub open spec fn plain(l: LinkModel) -> LinkModel {
    LinkModel { filter_below: None, ageing_ms: None, ..l }
}

/// Whether a link says nothing that this reading does not know.
pub open spec fn is_plain(l: LinkModel) -> bool {
    l.filter_below is None && l.ageing_ms is None
}

/// What a list of links says.
pub open spec fn sysfs_list(v: Seq<Link>) -> Seq<LinkModel> {
    v.map_values(|l: Link| l@)
}

/// Every interface of the host, by index and by name.
pub struct Topology {
    picture: crate::topology::Topology,
    links: KeyMap<u32, Link>,
    order: Vec<u32>,
}

impl View for Topology {
    type V = TopologyModel;

    closed spec fn view(&self) -> TopologyModel {
        self.picture@
    }
}

/// The same link, for the picture.
fn to_picture(l: &Link) -> (r: crate::topology::Link)
    ensures
        r@ == l@,
{
    crate::topology::Link {
        name: l.name.clone(),
        index: l.index,
        mac: l.mac,
        master: l.master,
        lowers: copy_indices(&l.lowers),
        filter_below: None,
        is_bridge: l.is_bridge,
        ageing_ms: None,
        numvfs: l.numvfs,
        driver: copy_name(&l.driver),
        physfn: l.physfn,
        pf_netdevs: copy_indices(&l.pf_netdevs),
        vf_netdevs: copy_indices(&l.vf_netdevs),
        uppers: copy_indices(&l.uppers),
        slaves: copy_indices(&l.slaves),
    }
}

/// The same link out of the picture, as far as this reading knows it.
fn from_picture(l: &crate::topology::Link) -> (r: Link)
    ensures
        r@ == plain(l@),
        r.index == l.index,
{
    Link {
        name: l.name.clone(),
        index: l.index,
        mac: l.mac,
        master: l.master,
        lowers: copy_indices(&l.lowers),
        is_bridge: l.is_bridge,
        numvfs: l.numvfs,
        driver: copy_name(&l.driver),
        physfn: l.physfn,
        pf_netdevs: copy_indices(&l.pf_netdevs),
        vf_netdevs: copy_indices(&l.vf_netdevs),
        uppers: copy_indices(&l.uppers),
        slaves: copy_indices(&l.slaves),
    }
}

/// A virtual function that has been chosen: its physical function, its bridge,
/// its name.
pub type Stand = (u32, u32, Seq<char>);

/// The first virtual function of `pf` that was chosen for `bridge`.
pub open spec fn first_stand(taken: Seq<Stand>, pf: u32, bridge: u32) -> Option<Seq<char>>
    decreases taken.len(),
{
    if taken.len() == 0 {
        None
    } else if taken[0].0 == pf && taken[0].1 == bridge {
        Some(taken[0].2)
    } else {
        first_stand(taken.skip(1), pf, bridge)
    }
}

/// The first of these interfaces that ends up in `bridge` itself.
pub open spec fn first_holder(links: Map<u32, LinkModel>, fs: Seq<u32>, bridge: u32) -> Option<u32>
    decreases fs.len(),
{
    if fs.len() == 0 {
        None
    } else if carries(links, fs[0], bridge) {
        Some(fs[0])
    } else {
        first_holder(links, fs.skip(1), bridge)
    }
}

/// What has been found out so far.
pub struct Found {
    pub pairs: Seq<(Seq<char>, Seq<char>)>,
    pub taken: Seq<Stand>,
    pub skipped: Seq<Seq<char>>,
}

/// What is said of a virtual function whose sister was chosen already.
pub open spec fn says_sister(
    name: Seq<char>,
    taken: Seq<char>,
    pf: Seq<char>,
    bridge: Seq<char>,
) -> Seq<char> {
    "skip "@ + name + ": "@ + taken + " of the same "@ + pf + " already carries "@ + bridge
        + " - two vports of one eSwitch cannot both claim the same addresses"@
}

/// An uplink chosen.
pub open spec fn chosen(
    links: Map<u32, LinkModel>,
    d: Found,
    x: u32,
    bridge: u32,
    port: u32,
) -> Found {
    let name = links[x].name;
    Found {
        pairs: d.pairs.push((name, label(links, bridge))),
        taken: match links[x].physfn {
            Some(pf) => d.taken.push((pf, bridge, name)),
            None => d.taken,
        },
        skipped: if port != x {
            d.skipped.push(says_through(name, label(links, bridge), label(links, port)))
        } else {
            d.skipped
        },
    }
}

/// One more interface looked at. A virtual function cannot stand in for a port
/// its own physical function already holds, nor beside a sister that was taken
/// for the same bridge a moment ago.
pub open spec fn weighed(links: Map<u32, LinkModel>, d: Found, x: u32) -> Found {
    let l = links[x];
    if l.numvfs == 0 && l.physfn is None {
        d
    } else {
        match bridge_over(links, x) {
            None => if l.numvfs > 0 {
                Found { skipped: d.skipped.push(says_idle(l.name, l.numvfs)), ..d }
            } else {
                d
            },
            Some((bridge, port)) => match l.physfn {
                None => chosen(links, d, x, bridge, port),
                Some(pf) => match first_holder(links, l.pf_netdevs, bridge) {
                    Some(h) => Found {
                        skipped: d.skipped.push(
                            says_held(l.name, label(links, h), label(links, bridge)),
                        ),
                        ..d
                    },
                    None => match first_stand(d.taken, pf, bridge) {
                        Some(t) => Found {
                            skipped: d.skipped.push(
                                says_sister(l.name, t, label(links, pf), label(links, bridge)),
                            ),
                            ..d
                        },
                        None => chosen(links, d, x, bridge, port),
                    },
                },
            },
        }
    }
}

/// All of `order` looked at, one after the other.
pub open spec fn weighed_all(links: Map<u32, LinkModel>, order: Seq<u32>) -> Found
    decreases order.len(),
{
    if order.len() == 0 {
        Found { pairs: Seq::empty(), taken: Seq::empty(), skipped: Seq::empty() }
    } else {
        weighed(links, weighed_all(links, order.drop_last()), order.last())
    }
}

spec fn stands(v: Seq<(u32, u32, String)>) -> Seq<Stand> {
    v.map_values(|c: (u32, u32, String)| (c.0, c.1, c.2@))
}

fn find_stand(taken: &Vec<(u32, u32, String)>, pf: u32, bridge: u32) -> (r: Option<String>)
    ensures
        opt_text(r) == first_stand(stands(taken@), pf, bridge),
{
    let ghost all = stands(taken@);
    let mut i: usize = 0;
    assert(all.skip(0) =~= all);
    while i < taken.len()
        invariant
            i <= taken@.len(),
            all == stands(taken@),
            first_stand(all, pf, bridge) == first_stand(all.skip(i as int), pf, bridge),
        decreases taken@.len() - i,
    {
        assert(all.skip(i as int)[0] == all[i as int]);
        assert(all.skip(i as int).skip(1) =~= all.skip(i + 1));
        if taken[i].0 == pf && taken[i].1 == bridge {
            return Some(taken[i].2.clone());
        }
        i += 1;
    }
    assert(all.skip(i as int) =~= Seq::empty());
    None
}

fn say_sister(name: &String, taken: &String, pf: &String, bridge: &String) -> (r: String)
    ensures
        r@ == says_sister(name@, taken@, pf@, bridge@),
{
    let mut s = "skip ".to_owned();
    push_text(&mut s, name);
    push_text(&mut s, ": ");
    push_text(&mut s, taken);
    push_text(&mut s, " of the same ");
    push_text(&mut s, pf);
    push_text(&mut s, " already carries ");
    push_text(&mut s, bridge);
    push_text(&mut s, " - two vports of one eSwitch cannot both claim the same addresses");
    s
}

impl Topology {
    #[verifier::type_invariant]
    spec fn inv(self) -> bool {
        &&& forall|x: u32| #[trigger]
            self.links@.contains_key(x) <==> self.picture@.links.contains_key(x)
        &&& forall|x: u32| #[trigger]
            self.links@.contains_key(x) ==> self.links@[x]@ == self.picture@.links[x]
                && self.links@[x].index == x
        &&& lists_in_name_order(self.order@, self.picture@.links, false)
    }

    /// The topology that a picture shows, as far as this reading knows it.
    fn of_picture(picture: crate::topology::Topology) -> (r: Self)
        requires
            forall|x: u32| #[trigger]
                picture@.links.contains_key(x) ==> is_plain(picture@.links[x]),
        ensures
            r@ == picture@,
    {
        let _ = picture.len();
        let order = picture.in_name_order();
        let mut links: KeyMap<u32, Link> = KeyMap::new();
        let mut i: usize = 0;
        while i < order.len()
            invariant
                i <= order@.len(),
                lists_in_name_order(order@, picture@.links, false),
                forall|x: u32| #[trigger]
                    picture@.links.contains_key(x) ==> is_plain(picture@.links[x])
                        && picture@.links[x].index == x,
                forall|x: u32| #[trigger]
                    links@.contains_key(x) <==> order@.take(i as int).contains(x),
                forall|x: u32| #[trigger]
                    links@.contains_key(x) ==> links@[x]@ == picture@.links[x] && links@[x].index
                        == x,
            decreases order@.len() - i,
        {
            let x = order[i];
            proof {
                assert(order@.take(i + 1) =~= order@.take(i as int).push(x));
                lemma_push_contains(order@.take(i as int), x);
                assert(order@.contains(x));
            }
            if let Some(l) = picture.at(x) {
                links.insert(x, from_picture(l));
            }
            i += 1;
        }
        proof {
            assert(order@.take(i as int) =~= order@);
            assert forall|x: u32| #[trigger] links@.contains_key(x) <==> picture@.links.contains_key(
                x,
            ) by {
                assert(order@.contains(x) <==> picture@.links.contains_key(x));
            }
        }
        Topology { picture, links, order }
    }

    /// Builds a topology from links whose relations are already indices, and
    /// works out the inverse relations.
    pub fn assemble(links: Vec<Link>) -> (r: Self)
        ensures
            r@ == assembled(sysfs_list(links@)),
    {
        let ghost all = sysfs_list(links@);
        let mut out: Vec<crate::topology::Link> = Vec::new();
        let mut i: usize = 0;
        while i < links.len()
            invariant
                all == sysfs_list(links@),
                i <= links@.len(),
                out@.len() == i,
                forall|j: int| 0 <= j < i ==> (#[trigger] out@[j])@ == all[j],
            decreases links@.len() - i,
        {
            out.push(to_picture(&links[i]));
            i += 1;
        }
        assert(link_list(out@) =~= all);
        proof {
            lemma_plain_assembled(all);
        }
        Self::of_picture(crate::topology::Topology::assemble(out))
    }

    /// The topology that a walk over `/sys/class/net` found.
    pub fn load(readings: &Vec<SysReading>) -> (r: Self)
        ensures
            r@ == assembled(sys_links(sys_walked(readings@))),
    {
        proof {
            lemma_plain_assembled(sys_links(sys_walked(readings@)));
        }
        Self::of_picture(crate::topology::Topology::load(readings))
    }

    /// The same picture, from one link dump and what `/sys` says of the
    /// interfaces that have a device behind them.
    pub fn from_links(infos: &Vec<LinkInfo>, devices: &Vec<DeviceReading>) -> (r: Self)
        ensures
            r@ == assembled(with_ports(plain_links(infos@, devices@))),
    {
        let read = read_links(infos, devices);
        let ghost want = plain_links(infos@, devices@);
        let mut bare: Vec<crate::topology::Link> = Vec::new();
        let mut i: usize = 0;
        while i < read.len()
            invariant
                link_list(read@) == dumped_links(infos@, devices@),
                want == plain_links(infos@, devices@),
                i <= read@.len(),
                bare@.len() == i,
                forall|j: int| 0 <= j < i ==> (#[trigger] bare@[j])@ == want[j],
            decreases read@.len() - i,
        {
            assert(link_list(read@)[i as int] == read@[i as int]@);
            bare.push(to_picture(&from_picture(&read[i])));
            i += 1;
        }
        assert(link_list(bare@) =~= want) by {
            assert(link_list(read@).len() == read@.len());
        }
        proof {
            lemma_plain_assembled(with_ports(want));
        }
        Self::of_picture(crate::topology::Topology::assemble(add_ports(&bare)))
    }

    /// Everything stacked on top of `root`, `root` itself included.
    pub fn stacked_above(&self, root: u32) -> (r: KeySet<u32>)
        ensures
            r@ == flooded(edges(self@.links, Way::Up), seq![root]),
    {
        self.picture.stacked_above(root)
    }

    /// By name. For the few places that start from one.
    pub fn get(&self, name: &String) -> (r: Option<&Link>)
        ensures
            match r {
                Some(l) => {
                    &&& self@.names.contains_key(name@)
                    &&& self@.links.contains_key(self@.names[name@])
                    &&& l@ == self@.links[self@.names[name@]]
                    &&& l.index == self@.names[name@]
                },
                None => !self@.names.contains_key(name@),
            },
    {
        proof {
            use_type_invariant(self);
        }
        match self.picture.get(name) {
            Some(l) => self.links.get(&l.index),
            None => None,
        }
    }

    /// By index, which is how everything the kernel says identifies an
    /// interface.
    pub fn at(&self, index: u32) -> (r: Option<&Link>)
        ensures
            match r {
                Some(l) => self@.links.contains_key(index) && l@ == self@.links[index] && l.index
                    == index,
                None => !self@.links.contains_key(index),
            },
    {
        proof {
            use_type_invariant(self);
        }
        self.links.get(&index)
    }

    /// The index that goes with a name.
    pub fn index_of(&self, name: &String) -> (r: Option<u32>)
        ensures
            match r {
                Some(i) => self@.names.contains_key(name@) && i == self@.names[name@],
                None => !self@.names.contains_key(name@),
            },
    {
        self.picture.index_of(name)
    }

    /// The name that goes with an index.
    pub fn name_of(&self, index: u32) -> (r: Option<&String>)
        ensures
            match r {
                Some(n) => self@.links.contains_key(index) && n@ == self@.links[index].name,
                None => !self@.links.contains_key(index),
            },
    {
        self.picture.name_of(index)
    }

    /// Whether an interface is a bridge.
    pub fn is_bridge(&self, index: u32) -> (r: bool)
        ensures
            r == bridge_at(self@.links, index),
    {
        self.picture.is_bridge(index)
    }

    /// The bridges, in name order.
    pub fn bridges(&self) -> (r: Vec<&Link>)
        ensures
            exists|order: Seq<u32>| #[trigger]
                lists_in_name_order(order, self@.links, true) && r@.len() == order.len()
                    && forall|i: int|
                    0 <= i < order.len() ==> (#[trigger] r@[i])@ == self@.links[order[i]],
    {
        let _ = self.picture.len();
        let found = self.picture.bridges();
        let ghost order = choose|order: Seq<u32>| #[trigger]
            lists_in_name_order(order, self@.links, true) && found@.len() == order.len()
                && forall|i: int|
                0 <= i < order.len() ==> (#[trigger] found@[i])@ == self@.links[order[i]];
        let mut out: Vec<&Link> = Vec::new();
        let mut i: usize = 0;
        while i < found.len()
            invariant
                i <= found@.len(),
                found@.len() == order.len(),
                lists_in_name_order(order, self@.links, true),
                forall|x: u32| #[trigger]
                    self@.links.contains_key(x) ==> self@.links[x].index == x,
                forall|j: int|
                    0 <= j < order.len() ==> (#[trigger] found@[j])@ == self@.links[order[j]],
                out@.len() == i,
                forall|j: int| 0 <= j < i ==> (#[trigger] out@[j])@ == self@.links[order[j]],
            decreases found@.len() - i,
        {
            let x = found[i].index;
            proof {
                assert(found@[i as int]@ == self@.links[order[i as int]]);
                assert(order.contains(order[i as int]));
            }
            if let Some(l) = self.at(x) {
                out.push(l);
            }
            i += 1;
        }
        out
    }

    /// Does `dev` sit on top of `target`, directly or through any number of
    /// layers?
    pub fn leads_to(&self, dev: u32, target: u32) -> (r: bool)
        ensures
            r == reaches(edges(self@.links, Way::Down), dev, target),
    {
        self.picture.leads_to(dev, target)
    }

    /// Everything at or below `roots`.
    pub fn subtree_of(&self, roots: &Vec<u32>) -> (r: KeySet<u32>)
        ensures
            r@ == flooded(edges(self@.links, Way::Down), roots@),
    {
        self.picture.subtree_of(roots)
    }

    /// Follows the master chain upwards until a bridge is reached. The bridge,
    /// and the interface that is actually enslaved to it.
    pub fn bridge_above(&self, dev: u32) -> (r: Option<(u32, u32)>)
        ensures
            r == bridge_over(self@.links, dev),
    {
        self.picture.bridge_above(dev)
    }

    /// The interface of `bridge` under which `dev` sits. `None` when the master
    /// chain does not reach that bridge at all.
    pub fn uplink_port(&self, dev: u32, bridge: u32) -> (r: Option<u32>)
        ensures
            match r {
                Some(port) => bridge_over(self@.links, dev) == Some((bridge, port)),
                None => forall|port: u32| bridge_over(self@.links, dev) != Some((bridge, port)),
            },
    {
        self.picture.uplink_port(dev, bridge)
    }

    /// Every address at or below `dev`.
    pub fn subtree_macs(&self, dev: u32) -> (r: Vec<Mac>)
        ensures
            lists_addresses(self@.links, subtree(self@.links, dev), r@),
            r@.to_set() == macs_in(self@.links, subtree(self@.links, dev)),
    {
        self.picture.subtree_macs(dev)
    }

    /// The name of an interface; nothing for an unknown one.
    fn label_of(&self, x: u32) -> (r: String)
        ensures
            r@ == label(self@.links, x),
    {
        match self.name_of(x) {
            Some(n) => n.clone(),
            None => String::new(),
        }
    }

    fn find_holder(&self, fs: &Vec<u32>, bridge: u32) -> (r: Option<u32>)
        ensures
            r == first_holder(self@.links, fs@, bridge),
    {
        let ghost links = self@.links;
        let mut i: usize = 0;
        assert(fs@.skip(0) =~= fs@);
        while i < fs.len()
            invariant
                links == self@.links,
                i <= fs@.len(),
                first_holder(links, fs@, bridge) == first_holder(
                    links,
                    fs@.skip(i as int),
                    bridge,
                ),
            decreases fs@.len() - i,
        {
            assert(fs@.skip(i as int)[0] == fs@[i as int]);
            assert(fs@.skip(i as int).skip(1) =~= fs@.skip(i + 1));
            if let Some((b, _)) = self.bridge_above(fs[i]) {
                if b == bridge {
                    return Some(fs[i]);
                }
            }
            i += 1;
        }
        assert(fs@.skip(i as int) =~= Seq::empty());
        None
    }

    /// Interfaces that carry a bridge over an eSwitch: a NIC with virtual
    /// functions, or a virtual function itself where one stands in for the
    /// physical port. Both have to end up in a bridge, possibly through a bond.
    pub fn autodetect(&self) -> (r: (Vec<(String, String)>, Vec<String>))
        ensures
            exists|order: Seq<u32>| #[trigger]
                lists_in_name_order(order, self@.links, false) && pair_names(r.0@) == weighed_all(
                    self@.links,
                    order,
                ).pairs && texts(r.1@) == weighed_all(self@.links, order).skipped,
    {
        proof {
            use_type_invariant(self);
        }
        let ghost links = self@.links;
        let mut pairs: Vec<(String, String)> = Vec::new();
        let mut taken: Vec<(u32, u32, String)> = Vec::new();
        let mut skipped: Vec<String> = Vec::new();
        let mut i: usize = 0;
        proof {
            assert(self.order@.take(0) =~= Seq::empty());
            assert(pair_names(pairs@) =~= Seq::empty());
            assert(stands(taken@) =~= Seq::empty());
            assert(texts(skipped@) =~= Seq::empty());
        }
        while i < self.order.len()
            invariant
                links == self@.links,
                i <= self.order@.len(),
                lists_in_name_order(self.order@, links, false),
                pair_names(pairs@) == weighed_all(links, self.order@.take(i as int)).pairs,
                stands(taken@) == weighed_all(links, self.order@.take(i as int)).taken,
                texts(skipped@) == weighed_all(links, self.order@.take(i as int)).skipped,
            decreases self.order@.len() - i,
        {
            let x = self.order[i];
            proof {
                let next = self.order@.take(i + 1);
                assert(next.drop_last() =~= self.order@.take(i as int));
                assert(next.last() == x);
                assert(self.order@.contains(x));
            }
            self.weigh(x, &mut pairs, &mut taken, &mut skipped, Ghost(
                weighed_all(links, self.order@.take(i as int)),
            ));
            i += 1;
        }
        assert(self.order@.take(i as int) =~= self.order@);
        (pairs, skipped)
    }

    /// Looks at one more interface.
    fn weigh(
        &self,
        x: u32,
        pairs: &mut Vec<(String, String)>,
        taken: &mut Vec<(u32, u32, String)>,
        skipped: &mut Vec<String>,
        Ghost(d): Ghost<Found>,
    )
        requires
            self@.links.contains_key(x),
            pair_names(old(pairs)@) == d.pairs,
            stands(old(taken)@) == d.taken,
            texts(old(skipped)@) == d.skipped,
        ensures
            pair_names(final(pairs)@) == weighed(self@.links, d, x).pairs,
            stands(final(taken)@) == weighed(self@.links, d, x).taken,
            texts(final(skipped)@) == weighed(self@.links, d, x).skipped,
    {
        let link = match self.at(x) {
            Some(l) => l,
            None => {
                return;
            },
        };
        if link.numvfs == 0 && link.physfn.is_none() {
            return;
        }
        let ghost pairs0 = pairs@;
        let ghost taken0 = taken@;
        let ghost skipped0 = skipped@;
        let (bridge, port) = match self.bridge_above(x) {
            Some(p) => p,
            None => {
                if link.numvfs > 0 {
                    let s = say_idle(&link.name, link.numvfs);
                    assert(texts(skipped0.push(s)) =~= texts(skipped0).push(s@));
                    skipped.push(s);
                }
                return;
            },
        };
        let bridge_name = self.label_of(bridge);
        if let Some(pf) = link.physfn {
            if let Some(h) = self.find_holder(&link.pf_netdevs, bridge) {
                let s = say_held(&link.name, &self.label_of(h), &bridge_name);
                assert(texts(skipped0.push(s)) =~= texts(skipped0).push(s@));
                skipped.push(s);
                return;
            }
            if let Some(t) = find_stand(taken, pf, bridge) {
                let s = say_sister(&link.name, &t, &self.label_of(pf), &bridge_name);
                assert(texts(skipped0.push(s)) =~= texts(skipped0).push(s@));
                skipped.push(s);
                return;
            }
            let stand = (pf, bridge, link.name.clone());
            assert(stands(taken0.push(stand)) =~= stands(taken0).push(
                (stand.0, stand.1, stand.2@),
            ));
            taken.push(stand);
        }
        if port != x {
            let s = say_through(&link.name, &bridge_name, &self.label_of(port));
            assert(texts(skipped0.push(s)) =~= texts(skipped0).push(s@));
            skipped.push(s);
        }
        let pair = (link.name.clone(), bridge_name);
        assert(pair_names(pairs0.push(pair)) =~= pair_names(pairs0).push((pair.0@, pair.1@)));
        pairs.push(pair);
    }
}

/// What a link dump and a reading of `/sys` say of every interface, as far as
/// this reading knows it.
pub open spec fn plain_links(infos: Seq<LinkInfo>, devs: Seq<DeviceReading>) -> Seq<LinkModel> {
    dumped_links(infos, devs).map_values(|l: LinkModel| plain(l))
}

/// A topology of links that say nothing more says nothing more.
proof fn lemma_plain_assembled(ls: Seq<LinkModel>)
    requires
        forall|i: int| 0 <= i < ls.len() ==> is_plain(#[trigger] ls[i]),
    ensures
        forall|x: u32| #[trigger]
            assembled(ls).links.contains_key(x) ==> is_plain(assembled(ls).links[x]),
{
    assert forall|x: u32| #[trigger] assembled(ls).links.contains_key(x) implies is_plain(
        assembled(ls).links[x],
    ) by {
        lemma_last_is_plain(ls, x);
    }
}

proof fn lemma_last_is_plain(ls: Seq<LinkModel>, x: u32)
    requires
        forall|i: int| 0 <= i < ls.len() ==> is_plain(#[trigger] ls[i]),
    ensures
        last_with(ls, x) matches Some(l) ==> is_plain(l),
    decreases ls.len(),
{
    if ls.len() > 0 {
        let front = ls.drop_last();
        assert forall|i: int| 0 <= i < front.len() implies is_plain(#[trigger] front[i]) by {
            assert(front[i] == ls[i]);
        }
        lemma_last_is_plain(front, x);
        assert(is_plain(ls[ls.len() - 1]));
    }
}

} // verus!
