//! Putting a topology together out of what the kernel says.

use vstd::prelude::*;
use vstd::relations::{sorted_by, total_ordering};
use vstd::seq_lib::lemma_sorted_unique;

use crate::graph::{
    lemma_closed, lemma_reaches_back, lemma_reaches_self, lemma_reaches_step, lemma_reaches_trans,
    reaches,
};
use crate::keyed::{lemma_push_contains, KeyMap};
use crate::netlink::LinkInfo;
use crate::order::{sorted, Ordered};
use crate::topology::{
    copy_indices, copy_name, edges, name_order, opt_text, Link, LinkModel, Topology, TopologyModel,
    Way,
};
use crate::topology::detect::texts;
use crate::topology::walk::{
    file_number, read_number, sys_models, sys_walked, walk, SysModel, SysReading,
};

verus! {

/// What the links in a list say.
pub open spec fn link_list(v: Seq<Link>) -> Seq<LinkModel> {
    v.map_values(|l: Link| l@)
}

/// The last link of a list with this index: a later one replaces an earlier.
pub open spec fn last_with(ls: Seq<LinkModel>, x: u32) -> Option<LinkModel>
    decreases ls.len(),
{
    if ls.len() == 0 {
        None
    } else if ls.last().index == x {
        Some(ls.last())
    } else {
        last_with(ls.drop_last(), x)
    }
}

/// `index`, once for every time `x` stands in `lowers`.
pub open spec fn hits(lowers: Seq<u32>, x: u32, index: u32) -> Seq<u32>
    decreases lowers.len(),
{
    if lowers.len() == 0 {
        Seq::empty()
    } else if lowers.last() == x {
        hits(lowers.drop_last(), x, index).push(index)
    } else {
        hits(lowers.drop_last(), x, index)
    }
}

/// What has `x` as a lower, in list order.
pub open spec fn uppers_in(ls: Seq<LinkModel>, x: u32) -> Seq<u32>
    decreases ls.len(),
{
    if ls.len() == 0 {
        Seq::empty()
    } else {
        uppers_in(ls.drop_last(), x) + hits(ls.last().lowers, x, ls.last().index)
    }
}

/// What has `x` as its master, in list order.
pub open spec fn slaves_in(ls: Seq<LinkModel>, x: u32) -> Seq<u32>
    decreases ls.len(),
{
    if ls.len() == 0 {
        Seq::empty()
    } else if ls.last().master == Some(x) {
        slaves_in(ls.drop_last(), x).push(ls.last().index)
    } else {
        slaves_in(ls.drop_last(), x)
    }
}

/// The index that goes with each name: a later link replaces an earlier.
pub open spec fn names_in(ls: Seq<LinkModel>) -> Map<Seq<char>, u32>
    decreases ls.len(),
{
    if ls.len() == 0 {
        Map::empty()
    } else {
        names_in(ls.drop_last()).insert(ls.last().name, ls.last().index)
    }
}

/// A link with the inverse relations that the whole list gives it.
pub open spec fn completed(ls: Seq<LinkModel>, l: LinkModel) -> LinkModel {
    LinkModel {
        uppers: l.uppers + uppers_in(ls, l.index),
        slaves: l.slaves + slaves_in(ls, l.index),
        ..l
    }
}

/// The topology that a list of links describes.
pub open spec fn assembled(ls: Seq<LinkModel>) -> TopologyModel {
    TopologyModel {
        links: Map::new(
            |x: u32| last_with(ls, x) is Some,
            |x: u32| completed(ls, last_with(ls, x)->0),
        ),
        names: names_in(ls),
    }
}

pub(crate) proof fn lemma_last_with(ls: Seq<LinkModel>, x: u32)
    ensures
        last_with(ls, x) matches Some(l) ==> l.index == x,
    decreases ls.len(),
{
    if ls.len() > 0 {
        lemma_last_with(ls.drop_last(), x);
    }
}

/// The list that is kept under a key.
pub open spec fn kept_at(m: Map<u32, Vec<u32>>, x: u32) -> Seq<u32> {
    if m.contains_key(x) {
        m[x]@
    } else {
        Seq::empty()
    }
}

/// Puts an entry at the end of the list under a key.
fn keep_at(m: &mut KeyMap<u32, Vec<u32>>, x: u32, y: u32)
    ensures
        forall|k: u32| #[trigger]
            kept_at(final(m)@, k) == if k == x {
                kept_at(old(m)@, x).push(y)
            } else {
                kept_at(old(m)@, k)
            },
{
    let mut list = match m.remove(&x) {
        Some(v) => v,
        None => Vec::new(),
    };
    list.push(y);
    m.insert(x, list);
}

/// A copy of the list under a key.
fn copy_at(m: &KeyMap<u32, Vec<u32>>, x: u32) -> (r: Vec<u32>)
    ensures
        r@ == kept_at(m@, x),
{
    match m.get(&x) {
        Some(v) => copy_indices(v),
        None => Vec::new(),
    }
}

/// What has each interface as a lower, in list order.
fn all_uppers(links: &Vec<Link>) -> (r: KeyMap<u32, Vec<u32>>)
    ensures
        forall|x: u32| #[trigger] kept_at(r@, x) == uppers_in(link_list(links@), x),
{
    let ghost ls = link_list(links@);
    let mut out: KeyMap<u32, Vec<u32>> = KeyMap::new();
    let mut i: usize = 0;
    assert(ls.take(0) =~= Seq::empty());
    while i < links.len()
        invariant
            ls == link_list(links@),
            i <= links@.len(),
            forall|x: u32| #[trigger] kept_at(out@, x) == uppers_in(ls.take(i as int), x),
        decreases links@.len() - i,
    {
        let l = &links[i];
        let ghost done = ls.take(i as int);
        let mut k: usize = 0;
        proof {
            assert(l.lowers@.take(0) =~= Seq::empty());
            assert forall|x: u32| #[trigger] kept_at(out@, x) == uppers_in(done, x) + hits(
                l.lowers@.take(0),
                x,
                l.index,
            ) by {
                assert(uppers_in(done, x) + Seq::<u32>::empty() =~= uppers_in(done, x));
            }
        }
        while k < l.lowers.len()
            invariant
                k <= l.lowers@.len(),
                forall|x: u32| #[trigger]
                    kept_at(out@, x) == uppers_in(done, x) + hits(
                        l.lowers@.take(k as int),
                        x,
                        l.index,
                    ),
            decreases l.lowers@.len() - k,
        {
            let ghost before = out@;
            proof {
                let next = l.lowers@.take(k + 1);
                assert(next.drop_last() =~= l.lowers@.take(k as int));
                assert(next.last() == l.lowers@[k as int]);
            }
            keep_at(&mut out, l.lowers[k], l.index);
            assert forall|x: u32| #[trigger] kept_at(out@, x) == uppers_in(done, x) + hits(
                l.lowers@.take(k + 1),
                x,
                l.index,
            ) by {
                let head = hits(l.lowers@.take(k as int), x, l.index);
                assert(kept_at(before, x) == uppers_in(done, x) + head);
                assert((uppers_in(done, x) + head).push(l.index) =~= uppers_in(done, x)
                    + head.push(l.index));
            }
            k += 1;
        }
        proof {
            assert(l.lowers@.take(k as int) =~= l.lowers@);
            let next = ls.take(i + 1);
            assert(next.drop_last() =~= done);
            assert(next.last() == l@);
        }
        i += 1;
    }
    assert(ls.take(i as int) =~= ls);
    out
}

/// What has each interface as its master, in list order.
fn all_slaves(links: &Vec<Link>) -> (r: KeyMap<u32, Vec<u32>>)
    ensures
        forall|x: u32| #[trigger] kept_at(r@, x) == slaves_in(link_list(links@), x),
{
    let ghost ls = link_list(links@);
    let mut out: KeyMap<u32, Vec<u32>> = KeyMap::new();
    let mut i: usize = 0;
    assert(ls.take(0) =~= Seq::empty());
    while i < links.len()
        invariant
            ls == link_list(links@),
            i <= links@.len(),
            forall|x: u32| #[trigger] kept_at(out@, x) == slaves_in(ls.take(i as int), x),
        decreases links@.len() - i,
    {
        let l = &links[i];
        let ghost before = out@;
        proof {
            let next = ls.take(i + 1);
            assert(next.drop_last() =~= ls.take(i as int));
            assert(next.last() == l@);
        }
        if let Some(m) = l.master {
            keep_at(&mut out, m, l.index);
        }
        assert forall|x: u32| #[trigger] kept_at(out@, x) == slaves_in(ls.take(i + 1), x) by {
            assert(kept_at(before, x) == slaves_in(ls.take(i as int), x));
        }
        i += 1;
    }
    assert(ls.take(i as int) =~= ls);
    out
}

/// The place of the last link with each index.
fn last_places(links: &Vec<Link>) -> (r: KeyMap<u32, usize>)
    ensures
        forall|i: int|
            0 <= i < links@.len() ==> r@.contains_key((#[trigger] links@[i]).index) && (
            r@[links@[i].index] == i <==> is_last(link_list(links@), i)),
{
    let ghost ls = link_list(links@);
    let mut out: KeyMap<u32, usize> = KeyMap::new();
    let mut i: usize = 0;
    while i < links.len()
        invariant
            ls == link_list(links@),
            i <= links@.len(),
            forall|x: u32| #[trigger]
                out@.contains_key(x) ==> out@[x] < i && ls[out@[x] as int].index == x && forall|
                    j: int,
                |
                    out@[x] < j < i ==> (#[trigger] ls[j]).index != x,
            forall|j: int| 0 <= j < i ==> out@.contains_key((#[trigger] ls[j]).index),
        decreases links@.len() - i,
    {
        assert(ls[i as int].index == links@[i as int].index);
        out.insert(links[i].index, i);
        i += 1;
    }
    assert forall|k: int| 0 <= k < links@.len() implies out@.contains_key(
        (#[trigger] links@[k]).index,
    ) && (out@[links@[k].index] == k <==> is_last(ls, k)) by {
        let x = links@[k].index;
        assert(ls[k].index == x);
        let p = out@[x] as int;
        if p < k {
            assert(ls[k].index != x);
        }
        if k < p {
            assert(ls[p].index == ls[k].index);
        }
    }
    out
}

/// One list behind another.
fn joined(a: &Vec<u32>, b: &Vec<u32>) -> (r: Vec<u32>)
    ensures
        r@ == a@ + b@,
{
    let mut out = copy_indices(a);
    let mut rest = copy_indices(b);
    out.append(&mut rest);
    out
}

/// A copy of a link with other relations.
fn relinked(l: &Link, lowers: Vec<u32>, uppers: Vec<u32>, slaves: Vec<u32>) -> (r: Link)
    ensures
        r@ == (LinkModel { lowers: lowers@, uppers: uppers@, slaves: slaves@, ..l@ }),
{
    Link {
        name: l.name.clone(),
        index: l.index,
        mac: l.mac,
        master: l.master,
        lowers,
        filter_below: l.filter_below,
        is_bridge: l.is_bridge,
        ageing_ms: l.ageing_ms,
        numvfs: l.numvfs,
        driver: copy_name(&l.driver),
        physfn: l.physfn,
        pf_netdevs: copy_indices(&l.pf_netdevs),
        vf_netdevs: copy_indices(&l.vf_netdevs),
        uppers,
        slaves,
    }
}

impl Topology {
    /// Build a topology from links whose relations are already indices, and
    /// work out the inverse relations. Every way of reading a host comes
    /// through here, so none can end up with a view the others do not have.
    pub fn assemble(links: Vec<Link>) -> (r: Self)
        ensures
            r@ == assembled(link_list(links@)),
    {
        let ghost ls = link_list(links@);
        let above = all_uppers(&links);
        let ports = all_slaves(&links);
        let mut map: KeyMap<u32, Link> = KeyMap::new();
        let mut names: KeyMap<String, u32> = KeyMap::new();
        let mut i: usize = 0;
        assert(ls.take(0) =~= Seq::empty());
        while i < links.len()
            invariant
                ls == link_list(links@),
                forall|x: u32| #[trigger] kept_at(above@, x) == uppers_in(ls, x),
                forall|x: u32| #[trigger] kept_at(ports@, x) == slaves_in(ls, x),
                i <= links@.len(),
                names@ == names_in(ls.take(i as int)),
                forall|x: u32| #[trigger]
                    map@.contains_key(x) <==> last_with(ls.take(i as int), x) is Some,
                forall|x: u32| #[trigger]
                    map@.contains_key(x) ==> map@[x]@ == completed(
                        ls,
                        last_with(ls.take(i as int), x)->0,
                    ) && map@[x].index == x,
                forall|n: Seq<char>| #[trigger]
                    names@.contains_key(n) ==> map@.contains_key(names@[n]),
            decreases links@.len() - i,
        {
            let l = &links[i];
            let lowers = copy_indices(&l.lowers);
            let uppers = joined(&l.uppers, &copy_at(&above, l.index));
            let slaves = joined(&l.slaves, &copy_at(&ports, l.index));
            let whole = relinked(l, lowers, uppers, slaves);
            proof {
                let next = ls.take(i + 1);
                assert(next.drop_last() =~= ls.take(i as int));
                assert(next.last() == l@);
            }
            names.insert(l.name.clone(), l.index);
            map.insert(l.index, whole);
            i += 1;
        }
        let order = name_order(&map, true);
        let _ = map.len();
        let r = Topology { links: map, by_name: names, bridge_order: order };
        proof {
            assert(ls.take(i as int) =~= ls);
            assert(r@.links =~= assembled(ls).links);
        }
        r
    }
}

/// The interfaces of these names, as far as they are known, in list order.
pub open spec fn resolved(names: Map<Seq<char>, u32>, list: Seq<Seq<char>>) -> Seq<u32>
    decreases list.len(),
{
    if list.len() == 0 {
        Seq::empty()
    } else if names.contains_key(list.last()) {
        resolved(names, list.drop_last()).push(names[list.last()])
    } else {
        resolved(names, list.drop_last())
    }
}

/// The interface of this name, if there is a name and it is known.
pub open spec fn resolved_one(names: Map<Seq<char>, u32>, name: Option<Seq<char>>) -> Option<u32> {
    match name {
        Some(n) => if names.contains_key(n) {
            Some(names[n])
        } else {
            None
        },
        None => None,
    }
}

/// Indices in ascending order.
pub open spec fn ascending_order(s: Seq<u32>) -> Seq<u32> {
    s.sort_by(|a: u32, b: u32| a <= b)
}

/// The first of a list.
pub open spec fn first_of(s: Seq<u32>) -> Option<u32> {
    if s.len() > 0 {
        Some(s[0])
    } else {
        None
    }
}

/// The interfaces of these names, as far as they are known, in list order.
fn resolve(names: &KeyMap<String, u32>, list: &Vec<String>) -> (r: Vec<u32>)
    ensures
        r@ == resolved(names@, texts(list@)),
{
    let ghost ts = texts(list@);
    let mut out: Vec<u32> = Vec::new();
    let mut i: usize = 0;
    assert(ts.take(0) =~= Seq::empty());
    while i < list.len()
        invariant
            ts == texts(list@),
            i <= list@.len(),
            out@ == resolved(names@, ts.take(i as int)),
        decreases list@.len() - i,
    {
        proof {
            let next = ts.take(i + 1);
            assert(next.drop_last() =~= ts.take(i as int));
            assert(next.last() == list@[i as int]@);
        }
        if let Some(x) = names.get(&list[i]) {
            out.push(*x);
        }
        i += 1;
    }
    assert(ts.take(i as int) =~= ts);
    out
}

/// The same indices in ascending order.
fn sort_indices(v: Vec<u32>) -> (r: Vec<u32>)
    ensures
        r@ == ascending_order(v@),
{
    let ghost given = v@;
    let out = sorted(v);
    proof {
        let leq = |a: u32, b: u32| a <= b;
        assert(total_ordering(leq));
        given.lemma_sort_by_ensures(leq);
        assert(sorted_by(out@, leq)) by {
            assert forall|i: int, j: int| 0 <= i < j < out@.len() implies #[trigger] leq(
                out@[i],
                out@[j],
            ) by {
                assert(out@[i].leq(&out@[j]));
            }
        }
        lemma_sorted_unique(out@, given.sort_by(leq), leq);
    }
    out
}

/// The index that goes with each name in a reading of `/sys`.
pub open spec fn sys_names(v: Seq<SysModel>) -> Map<Seq<char>, u32>
    decreases v.len(),
{
    if v.len() == 0 {
        Map::empty()
    } else {
        sys_names(v.drop_last()).insert(v.last().name, v.last().index)
    }
}

/// A reading of one interface with its relations turned into indices. What
/// names an interface that is not there is dropped.
pub open spec fn sys_link(names: Map<Seq<char>, u32>, s: SysModel) -> LinkModel {
    let pfs = ascending_order(resolved(names, s.pf_netdevs));
    LinkModel {
        name: s.name,
        index: s.index,
        mac: s.mac,
        master: resolved_one(names, s.master),
        lowers: resolved(names, s.lowers),
        filter_below: None,
        is_bridge: s.is_bridge,
        ageing_ms: None,
        numvfs: s.numvfs,
        driver: s.driver,
        physfn: first_of(pfs),
        pf_netdevs: pfs,
        vf_netdevs: resolved(names, s.vf_netdevs),
        uppers: Seq::empty(),
        slaves: Seq::empty(),
    }
}

/// The links that a reading of `/sys` describes.
pub open spec fn sys_links(v: Seq<SysModel>) -> Seq<LinkModel> {
    v.map_values(|s: SysModel| sys_link(sys_names(v), s))
}

impl Topology {
    /// The topology that a walk over `/sys/class/net` found. Relations come
    /// out of `/sys` as names and are turned into indices once every interface
    /// has been seen; anything naming an interface that is not there any more
    /// is dropped.
    pub fn load(readings: &Vec<SysReading>) -> (r: Self)
        ensures
            r@ == assembled(sys_links(sys_walked(readings@))),
    {
        let found = walk(readings);
        let ghost all = sys_models(found@);
        let mut names: KeyMap<String, u32> = KeyMap::new();
        let mut i: usize = 0;
        assert(all.take(0) =~= Seq::empty());
        while i < found.len()
            invariant
                all == sys_models(found@),
                i <= found@.len(),
                names@ == sys_names(all.take(i as int)),
            decreases found@.len() - i,
        {
            proof {
                let next = all.take(i + 1);
                assert(next.drop_last() =~= all.take(i as int));
                assert(next.last() == found@[i as int]@);
            }
            names.insert(found[i].name.clone(), found[i].index);
            i += 1;
        }
        assert(all.take(i as int) =~= all);
        let mut links: Vec<Link> = Vec::new();
        let mut k: usize = 0;
        while k < found.len()
            invariant
                all == sys_models(found@),
                k <= found@.len(),
                names@ == sys_names(all),
                link_list(links@) == sys_links(all).take(k as int),
            decreases found@.len() - k,
        {
            let s = &found[k];
            let master = match &s.master {
                Some(m) => match names.get(m) {
                    Some(x) => Some(*x),
                    None => None,
                },
                None => None,
            };
            let pf_netdevs = sort_indices(resolve(&names, &s.pf_netdevs));
            let physfn = if pf_netdevs.len() > 0 {
                Some(pf_netdevs[0])
            } else {
                None
            };
            let link = Link {
                name: s.name.clone(),
                index: s.index,
                mac: s.mac,
                master,
                lowers: resolve(&names, &s.lowers),
                filter_below: None,
                is_bridge: s.is_bridge,
                ageing_ms: None,
                numvfs: s.numvfs,
                driver: copy_name(&s.driver),
                physfn,
                pf_netdevs,
                vf_netdevs: resolve(&names, &s.vf_netdevs),
                uppers: Vec::new(),
                slaves: Vec::new(),
            };
            let ghost before = links@;
            proof {
                assert(all[k as int] == s@);
                assert(link@ == sys_link(names@, s@));
                assert(sys_links(all)[k as int] == link@);
                assert(link_list(before.push(link)) =~= link_list(before).push(link@));
                assert(sys_links(all).take(k + 1) =~= sys_links(all).take(k as int).push(link@));
            }
            links.push(link);
            k += 1;
        }
        assert(sys_links(all).take(k as int) =~= sys_links(all));
        Topology::assemble(links)
    }
}

/// What `/sys` says about the device behind an interface, file by file: what
/// could not be read is not there.
pub struct DeviceReading {
    /// the interface's name, under which its directory was read
    pub name: String,
    /// whether there is a device directory
    pub is_dir: bool,
    /// the text of `ifindex`
    pub ifindex: Option<String>,
    /// the text of `device/sriov_numvfs`
    pub sriov_numvfs: Option<String>,
    /// what `device/driver` points to
    pub driver: Option<String>,
    /// the entries of `device/physfn/net`
    pub physfn_net: Vec<String>,
    /// the entries of `device/virtfn*/net`
    pub virtfn_net: Vec<String>,
}

/// The first reading under this name.
pub open spec fn device_for(devs: Seq<DeviceReading>, name: Seq<char>) -> Option<DeviceReading>
    decreases devs.len(),
{
    if devs.len() == 0 {
        None
    } else if devs[0].name@ == name {
        Some(devs[0])
    } else {
        device_for(devs.skip(1), name)
    }
}

/// Whether the kernel names bus devices at all.
pub open spec fn names_parents(infos: Seq<LinkInfo>) -> bool {
    exists|i: int| 0 <= i < infos.len() && (#[trigger] infos[i]).parent_dev is Some
}

/// Whether a reading speaks for the interface. Where the kernel names bus
/// devices, only an interface with one has a device; where it does not, only
/// one without a kind can have one. And the directory must still answer for
/// this interface: a rename between the dump and the reading makes it
/// another's.
pub open spec fn device_counts(named: bool, l: LinkInfo, d: DeviceReading) -> bool {
    &&& if named {
        l.parent_dev is Some
    } else {
        l.kind is None && d.is_dir
    }
    &&& file_number(d.ifindex) == Some(l.index as nat)
}

/// The kinds of interface that are stacked on the one they are linked to. A
/// veth's peer and a tunnel's underlay are linked too, and are neither.
pub open spec fn stacked_kind(kind: Seq<char>) -> bool {
    ||| kind == "vlan"@
    ||| kind == "macvlan"@
    ||| kind == "macvtap"@
    ||| kind == "ipvlan"@
    ||| kind == "ipvtap"@
    ||| kind == "macsec"@
    ||| kind == "vxlan"@
}

/// What a link dump and a reading of `/sys` say of one interface, its ports
/// not yet among what lies below it.
pub open spec fn dumped_link(
    names: Map<Seq<char>, u32>,
    named: bool,
    l: LinkInfo,
    devs: Seq<DeviceReading>,
) -> LinkModel {
    let bare = LinkModel {
        name: l.name@,
        index: l.index,
        mac: l.mac,
        master: l.master,
        lowers: match (l.kind, l.link) {
            (Some(k), Some(parent)) => if stacked_kind(k@) {
                seq![parent]
            } else {
                Seq::empty()
            },
            _ => Seq::empty(),
        },
        filter_below: match (l.kind, l.link) {
            (Some(k), Some(parent)) => if k@ == "vlan"@ {
                Some(parent)
            } else {
                None
            },
            _ => None,
        },
        is_bridge: match l.kind {
            Some(k) => k@ == "bridge"@,
            None => false,
        },
        ageing_ms: match l.ageing {
            Some(c) => Some((c * 10) as u64),
            None => None,
        },
        numvfs: 0,
        driver: None,
        physfn: None,
        pf_netdevs: Seq::empty(),
        vf_netdevs: Seq::empty(),
        uppers: Seq::empty(),
        slaves: Seq::empty(),
    };
    match device_for(devs, l.name@) {
        Some(d) => if device_counts(named, l, d) {
            let numvfs = match file_number(d.sriov_numvfs) {
                Some(n) => n as u32,
                None => 0,
            };
            let pfs = ascending_order(resolved(names, texts(d.physfn_net@)));
            LinkModel {
                numvfs,
                driver: opt_text(d.driver),
                physfn: first_of(pfs),
                pf_netdevs: pfs,
                vf_netdevs: if numvfs > 0 {
                    resolved(names, texts(d.virtfn_net@))
                } else {
                    Seq::empty()
                },
                ..bare
            }
        } else {
            bare
        },
        None => bare,
    }
}

/// The index that goes with each name in a link dump.
pub open spec fn info_names(infos: Seq<LinkInfo>) -> Map<Seq<char>, u32>
    decreases infos.len(),
{
    if infos.len() == 0 {
        Map::empty()
    } else {
        info_names(infos.drop_last()).insert(infos.last().name@, infos.last().index)
    }
}

/// What a link dump and a reading of `/sys` say of every interface, its ports
/// not yet among what lies below it.
pub open spec fn dumped_links(infos: Seq<LinkInfo>, devs: Seq<DeviceReading>) -> Seq<LinkModel> {
    infos.map_values(
        |l: LinkInfo| dumped_link(info_names(infos), names_parents(infos), l, devs),
    )
}

/// Whether no later link of the list has the index of the link at `i`.
pub open spec fn is_last(ls: Seq<LinkModel>, i: int) -> bool {
    forall|j: int| i < j < ls.len() ==> (#[trigger] ls[j]).index != ls[i].index
}

/// The same list with every port among what lies below its master.
pub open spec fn with_ports(ls: Seq<LinkModel>) -> Seq<LinkModel> {
    Seq::new(
        ls.len(),
        |i: int|
            if is_last(ls, i) {
                LinkModel { lowers: ls[i].lowers + slaves_in(ls, ls[i].index), ..ls[i] }
            } else {
                ls[i]
            },
    )
}

/// Whether a kind is one of those that are stacked on what they are linked to.
fn is_stacked_kind(kind: &String) -> (r: bool)
    ensures
        r == stacked_kind(kind@),
{
    *kind == "vlan".to_owned() || *kind == "macvlan".to_owned() || *kind == "macvtap".to_owned()
        || *kind == "ipvlan".to_owned() || *kind == "ipvtap".to_owned() || *kind
        == "macsec".to_owned() || *kind == "vxlan".to_owned()
}

/// One more reading answers for its name where none before it does.
proof fn lemma_device_push(devs: Seq<DeviceReading>, d: DeviceReading, name: Seq<char>)
    ensures
        device_for(devs.push(d), name) == match device_for(devs, name) {
            Some(x) => Some(x),
            None => if d.name@ == name {
                Some(d)
            } else {
                None
            },
        },
    decreases devs.len(),
{
    if devs.len() == 0 {
        assert(devs.push(d).skip(1) =~= Seq::empty());
        assert(device_for(Seq::empty(), name) is None);
    } else {
        assert(devs.push(d)[0] == devs[0]);
        lemma_device_push(devs.skip(1), d, name);
        assert(devs.push(d).skip(1) =~= devs.skip(1).push(d));
    }
}

/// Whether these are the places of the first reading under each name.
spec fn first_places(devs: Seq<DeviceReading>, at: Map<Seq<char>, usize>) -> bool {
    forall|n: Seq<char>|
        if #[trigger] at.contains_key(n) {
            at[n] < devs.len() && device_for(devs, n) == Some(devs[at[n] as int])
        } else {
            device_for(devs, n) is None
        }
}

/// The place of the first reading under each name.
fn device_places(devs: &Vec<DeviceReading>) -> (r: KeyMap<String, usize>)
    ensures
        first_places(devs@, r@),
{
    let mut out: KeyMap<String, usize> = KeyMap::new();
    let mut i: usize = 0;
    assert(devs@.take(0) =~= Seq::empty());
    while i < devs.len()
        invariant
            i <= devs@.len(),
            first_places(devs@.take(i as int), out@),
        decreases devs@.len() - i,
    {
        let ghost before = out@;
        let ghost done = devs@.take(i as int);
        let ghost next = devs@.take(i + 1);
        let d = &devs[i];
        if !out.contains_key(&d.name) {
            out.insert(d.name.clone(), i);
        }
        proof {
            assert(next =~= done.push(*d));
            assert forall|n: Seq<char>|
                if #[trigger] out@.contains_key(n) {
                    out@[n] < next.len() && device_for(next, n) == Some(next[out@[n] as int])
                } else {
                    device_for(next, n) is None
                } by {
                lemma_device_push(done, *d, n);
                if before.contains_key(n) {
                    assert(next[before[n] as int] == done[before[n] as int]);
                }
            }
        }
        i += 1;
    }
    assert(devs@.take(i as int) =~= devs@);
    out
}

/// What a link dump and a reading of `/sys` say of one interface.
fn read_link(
    names: &KeyMap<String, u32>,
    named: bool,
    l: &LinkInfo,
    devs: &Vec<DeviceReading>,
    places: &KeyMap<String, usize>,
) -> (r: Link)
    requires
        first_places(devs@, places@),
    ensures
        r@ == dumped_link(names@, named, *l, devs@),
{
    let mut lowers: Vec<u32> = Vec::new();
    let mut filter_below: Option<u32> = None;
    let mut is_bridge = false;
    if let Some(k) = &l.kind {
        is_bridge = *k == "bridge".to_owned();
        if let Some(parent) = l.link {
            if is_stacked_kind(k) {
                lowers.push(parent);
            }
            if *k == "vlan".to_owned() {
                filter_below = Some(parent);
            }
        }
    }
    let ageing_ms = match l.ageing {
        Some(c) => Some(c as u64 * 10),
        None => None,
    };
    let mut numvfs: u32 = 0;
    let mut driver: Option<String> = None;
    let mut physfn: Option<u32> = None;
    let mut pf_netdevs: Vec<u32> = Vec::new();
    let mut vf_netdevs: Vec<u32> = Vec::new();
    if let Some(p) = places.get(&l.name) {
        let d = &devs[*p];
        let probed = if named {
            l.parent_dev.is_some()
        } else {
            l.kind.is_none() && d.is_dir
        };
        if probed && read_number(&d.ifindex) == Some(l.index) {
            numvfs = match read_number(&d.sriov_numvfs) {
                Some(n) => n,
                None => 0,
            };
            driver = copy_name(&d.driver);
            pf_netdevs = sort_indices(resolve(names, &d.physfn_net));
            if pf_netdevs.len() > 0 {
                physfn = Some(pf_netdevs[0]);
            }
            if numvfs > 0 {
                vf_netdevs = resolve(names, &d.virtfn_net);
            }
        }
    }
    let r = Link {
        name: l.name.clone(),
        index: l.index,
        mac: l.mac,
        master: l.master,
        lowers,
        filter_below,
        is_bridge,
        ageing_ms,
        numvfs,
        driver,
        physfn,
        pf_netdevs,
        vf_netdevs,
        uppers: Vec::new(),
        slaves: Vec::new(),
    };
    proof {
        let want = dumped_link(names@, named, *l, devs@);
        assert(r@.lowers =~= want.lowers);
        assert(r@.pf_netdevs =~= want.pf_netdevs);
        assert(r@.vf_netdevs =~= want.vf_netdevs);
        assert(r@.uppers =~= want.uppers);
        assert(r@.slaves =~= want.slaves);
    }
    r
}

/// What a link dump and a reading of `/sys` say of every interface, its ports
/// not yet among what lies below it.
pub(crate) fn read_links(infos: &Vec<LinkInfo>, devices: &Vec<DeviceReading>) -> (r: Vec<Link>)
    ensures
        link_list(r@) == dumped_links(infos@, devices@),
{
    let ghost all = infos@;
    let mut names: KeyMap<String, u32> = KeyMap::new();
    let mut named = false;
    let mut i: usize = 0;
    assert(all.take(0) =~= Seq::empty());
    while i < infos.len()
        invariant
            all == infos@,
            i <= all.len(),
            names@ == info_names(all.take(i as int)),
            named <==> exists|j: int| 0 <= j < i && (#[trigger] all[j]).parent_dev is Some,
        decreases all.len() - i,
    {
        proof {
            let next = all.take(i + 1);
            assert(next.drop_last() =~= all.take(i as int));
            assert(next.last() == all[i as int]);
        }
        names.insert(infos[i].name.clone(), infos[i].index);
        if infos[i].parent_dev.is_some() {
            named = true;
        }
        i += 1;
    }
    assert(all.take(i as int) =~= all);
    let ghost bare = dumped_links(all, devices@);
    let places = device_places(devices);
    let mut links: Vec<Link> = Vec::new();
    let mut k: usize = 0;
    while k < infos.len()
        invariant
            first_places(devices@, places@),
            all == infos@,
            bare == dumped_links(all, devices@),
            k <= all.len(),
            names@ == info_names(all),
            named == names_parents(all),
            link_list(links@) == bare.take(k as int),
        decreases all.len() - k,
    {
        let link = read_link(&names, named, &infos[k], devices, &places);
        let ghost before = links@;
        proof {
            assert(bare[k as int] == link@);
            assert(link_list(before.push(link)) =~= link_list(before).push(link@));
            assert(bare.take(k + 1) =~= bare.take(k as int).push(link@));
        }
        links.push(link);
        k += 1;
    }
    assert(bare.take(k as int) =~= bare);
    links
}

/// The same list with every port among what lies below its master. A master
/// relation is a lower relation seen from the other side, and every walk
/// expects both among the lowers.
pub(crate) fn add_ports(links: &Vec<Link>) -> (r: Vec<Link>)
    ensures
        link_list(r@) == with_ports(link_list(links@)),
{
    let ghost bare = link_list(links@);
    let ports = all_slaves(links);
    let lasts = last_places(links);
    let mut out: Vec<Link> = Vec::new();
    let mut n: usize = 0;
    while n < links.len()
        invariant
            bare == link_list(links@),
            forall|x: u32| #[trigger] kept_at(ports@, x) == slaves_in(bare, x),
            forall|i: int|
                0 <= i < links@.len() ==> lasts@.contains_key((#[trigger] links@[i]).index) && (
                lasts@[links@[i].index] == i <==> is_last(bare, i)),
            n <= links@.len(),
            link_list(out@) == with_ports(bare).take(n as int),
        decreases links@.len() - n,
    {
        let l = &links[n];
        let last = match lasts.get(&l.index) {
            Some(p) => *p == n,
            None => false,
        };
        assert(last == is_last(bare, n as int));
        let lowers = if last {
            joined(&l.lowers, &copy_at(&ports, l.index))
        } else {
            copy_indices(&l.lowers)
        };
        let link = relinked(l, lowers, copy_indices(&l.uppers), copy_indices(&l.slaves));
        let ghost before = out@;
        proof {
            assert(with_ports(bare)[n as int] == link@);
            assert(link_list(before.push(link)) =~= link_list(before).push(link@));
            assert(with_ports(bare).take(n + 1) =~= with_ports(bare).take(n as int).push(
                link@,
            ));
        }
        out.push(link);
        n += 1;
    }
    assert(with_ports(bare).take(n as int) =~= with_ports(bare));
    out
}

impl Topology {
    /// The topology that one link dump describes, together with what `/sys`
    /// says of the interfaces that have a device behind them: their virtual
    /// functions, and the physical function behind a virtual one, are the
    /// things the dump leaves out.
    pub fn from_links(infos: &Vec<LinkInfo>, devices: &Vec<DeviceReading>) -> (r: Self)
        ensures
            r@ == assembled(with_ports(dumped_links(infos@, devices@))),
    {
        let links = read_links(infos, devices);
        Topology::assemble(add_ports(&links))
    }
}

/// Whether a list of links gives each index once and no inverse relations of
/// its own, as a dump does.
pub open spec fn plain_list(ls: Seq<LinkModel>) -> bool {
    &&& forall|i: int, j: int|
        #![trigger ls[i], ls[j]]
        0 <= i < j < ls.len() ==> ls[i].index != ls[j].index
    &&& forall|i: int|
        0 <= i < ls.len() ==> (#[trigger] ls[i]).uppers.len() == 0 && ls[i].slaves.len() == 0
}

pub(crate) proof fn lemma_last_of_plain(ls: Seq<LinkModel>, i: int)
    requires
        plain_list(ls),
        0 <= i < ls.len(),
    ensures
        last_with(ls, ls[i].index) == Some(ls[i]),
    decreases ls.len(),
{
    if i < ls.len() - 1 {
        let front = ls.drop_last();
        assert forall|a: int, b: int|
            #![trigger front[a], front[b]]
            0 <= a < b < front.len() implies front[a].index != front[b].index by {
            assert(front[a] == ls[a] && front[b] == ls[b]);
        }
        assert forall|a: int| 0 <= a < front.len() implies (#[trigger] front[a]).uppers.len() == 0
            && front[a].slaves.len() == 0 by {
            assert(front[a] == ls[a]);
        }
        lemma_last_of_plain(front, i);
    }
}

pub(crate) proof fn lemma_last_is_listed(ls: Seq<LinkModel>, x: u32)
    requires
        last_with(ls, x) is Some,
    ensures
        exists|i: int| 0 <= i < ls.len() && last_with(ls, x) == Some(#[trigger] ls[i]),
    decreases ls.len(),
{
    if ls.last().index == x {
        assert(last_with(ls, x) == Some(ls[ls.len() - 1]));
    } else {
        lemma_last_is_listed(ls.drop_last(), x);
        let i = choose|i: int|
            0 <= i < ls.drop_last().len() && last_with(ls.drop_last(), x) == Some(
                #[trigger] ls.drop_last()[i],
            );
        assert(last_with(ls, x) == Some(ls[i]));
    }
}

proof fn lemma_hits(lowers: Seq<u32>, x: u32, index: u32)
    ensures
        forall|y: u32| #[trigger]
            hits(lowers, x, index).contains(y) <==> y == index && lowers.contains(x),
    decreases lowers.len(),
{
    if lowers.len() > 0 {
        let front = lowers.drop_last();
        lemma_hits(front, x, index);
        assert(lowers =~= front.push(lowers.last()));
        lemma_push_contains(front, lowers.last());
        lemma_push_contains(hits(front, x, index), index);
    }
}

proof fn lemma_uppers_in(ls: Seq<LinkModel>, x: u32)
    ensures
        forall|y: u32| #[trigger]
            uppers_in(ls, x).contains(y) <==> exists|i: int|
                0 <= i < ls.len() && (#[trigger] ls[i]).index == y && ls[i].lowers.contains(x),
    decreases ls.len(),
{
    if ls.len() > 0 {
        let front = ls.drop_last();
        lemma_uppers_in(front, x);
        lemma_hits(ls.last().lowers, x, ls.last().index);
        let a = uppers_in(front, x);
        let b = hits(ls.last().lowers, x, ls.last().index);
        assert forall|y: u32| #[trigger] uppers_in(ls, x).contains(y) <==> exists|i: int|
            0 <= i < ls.len() && (#[trigger] ls[i]).index == y && ls[i].lowers.contains(x) by {
            if uppers_in(ls, x).contains(y) {
                let k = choose|k: int| 0 <= k < (a + b).len() && (a + b)[k] == y;
                if k < a.len() {
                    assert(a[k] == y);
                    assert(a.contains(y));
                    let i = choose|i: int|
                        0 <= i < front.len() && (#[trigger] front[i]).index == y
                            && front[i].lowers.contains(x);
                    assert(ls[i] == front[i]);
                } else {
                    assert(b[k - a.len()] == y);
                    assert(b.contains(y));
                    assert(ls[ls.len() - 1].index == y);
                }
            }
            if exists|i: int|
                0 <= i < ls.len() && (#[trigger] ls[i]).index == y && ls[i].lowers.contains(x) {
                let i = choose|i: int|
                    0 <= i < ls.len() && (#[trigger] ls[i]).index == y && ls[i].lowers.contains(x);
                if i < front.len() {
                    assert(front[i] == ls[i]);
                    assert(a.contains(y));
                    let k = choose|k: int| 0 <= k < a.len() && a[k] == y;
                    assert((a + b)[k] == y);
                } else {
                    assert(b.contains(y));
                    let k = choose|k: int| 0 <= k < b.len() && b[k] == y;
                    assert((a + b)[a.len() + k] == y);
                }
            }
        }
    }
}

/// What lies on top is the inverse of what lies below: between two interfaces
/// the host has, one is among the other's uppers exactly when the other is
/// among its lowers.
pub proof fn uppers_invert_lowers(ls: Seq<LinkModel>, x: u32, y: u32)
    requires
        plain_list(ls),
        assembled(ls).links.contains_key(x),
    ensures
        assembled(ls).links[x].uppers.contains(y) <==> assembled(ls).links.contains_key(y)
            && assembled(ls).links[y].lowers.contains(x),
{
    let t = assembled(ls).links;
    lemma_last_is_listed(ls, x);
    lemma_last_with(ls, x);
    lemma_uppers_in(ls, x);
    assert(t[x].uppers =~= uppers_in(ls, x));
    if t[x].uppers.contains(y) {
        let i = choose|i: int|
            0 <= i < ls.len() && (#[trigger] ls[i]).index == y && ls[i].lowers.contains(x);
        lemma_last_of_plain(ls, i);
    }
    if t.contains_key(y) && t[y].lowers.contains(x) {
        lemma_last_is_listed(ls, y);
        lemma_last_with(ls, y);
        let i = choose|i: int| 0 <= i < ls.len() && last_with(ls, y) == Some(#[trigger] ls[i]);
        assert(ls[i].index == y && ls[i].lowers.contains(x));
    }
}

/// Walking up from an interface finds exactly the interfaces that lead down to
/// it: between two interfaces the host has, `b` is stacked above `a` exactly
/// when `b` leads to `a`.
pub proof fn stacked_above_inverts_leads_to(ls: Seq<LinkModel>, a: u32, b: u32)
    requires
        plain_list(ls),
        assembled(ls).links.contains_key(a),
        assembled(ls).links.contains_key(b),
    ensures
        reaches(edges(assembled(ls).links, Way::Up), a, b) <==> reaches(
            edges(assembled(ls).links, Way::Down),
            b,
            a,
        ),
{
    let t = assembled(ls).links;
    let up = edges(t, Way::Up);
    let down = edges(t, Way::Down);
    assert forall|x: u32, y: u32| #[trigger] up(x).contains(y) implies down(y).contains(x) by {
        uppers_invert_lowers(ls, x, y);
    }
    if reaches(up, a, b) {
        lemma_reaches_back(up, down, a, b);
    }
    if reaches(down, b, a) {
        let s = Set::new(|x: u32| t.contains_key(x) ==> reaches(up, x, b));
        lemma_reaches_self(up, b);
        assert forall|x: u32, y: u32|
            s.contains(x) && #[trigger] down(x).contains(y) implies s.contains(y) by {
            if t.contains_key(y) {
                uppers_invert_lowers(ls, y, x);
                lemma_reaches_self(up, y);
                lemma_reaches_step(up, y, y, x);
                lemma_reaches_trans(up, y, x, b);
            }
        }
        lemma_closed(down, s, b, a);
    }
}

} // verus!
