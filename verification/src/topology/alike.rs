//! The two ways of reading a host see the same host: a walk over `/sys` and a
//! link dump agree on everything that both of them show.

use vstd::prelude::*;
use vstd::relations::total_ordering;
use vstd::seq_lib::{group_to_multiset_ensures, lemma_sorted_unique};

use crate::keyed::lemma_push_contains;
use crate::netlink::LinkInfo;
use crate::topology::{opt_text, LinkModel, TopologyModel};
use crate::topology::assemble::{
    ascending_order, assembled, device_counts, device_for, dumped_link, dumped_links, info_names,
    is_last, last_with, lemma_last_is_listed, lemma_last_of_plain, lemma_last_with, names_in,
    names_parents, plain_list, resolved, resolved_one, slaves_in, stacked_kind, sys_link, sys_links,
    sys_names, with_ports, DeviceReading,
};
use crate::topology::detect::texts;
use crate::topology::walk::{
    file_mac, file_number, lowers_among, sys_read, sys_walked, SysModel, SysReading,
};

verus! {

/// What an interface is stacked on, by a link dump.
pub open spec fn parent_of(l: LinkInfo) -> Option<u32> {
    match (l.kind, l.link) {
        (Some(k), Some(parent)) => if stacked_kind(k@) {
            Some(parent)
        } else {
            None
        },
        _ => None,
    }
}

/// Whether an interface lies directly below another: it is a port of it, or the
/// other is stacked on it.
pub open spec fn lies_below(b: LinkInfo, l: LinkInfo) -> bool {
    b.master == Some(l.index) || parent_of(l) == Some(b.index)
}

/// Whether a device directory was read alike both times, whatever the order in
/// which it was listed.
pub open spec fn device_alike(
    r: SysReading,
    l: LinkInfo,
    infos: Seq<LinkInfo>,
    devs: Seq<DeviceReading>,
) -> bool {
    match device_for(devs, l.name@) {
        Some(d) => if device_counts(names_parents(infos), l, d) {
            &&& r.has_device
            &&& file_number(r.sriov_numvfs) == file_number(d.sriov_numvfs)
            &&& opt_text(r.driver) == opt_text(d.driver)
            &&& texts(r.physfn_net@).to_multiset() == texts(d.physfn_net@).to_multiset()
            &&& texts(r.virtfn_net@).to_multiset() == texts(d.virtfn_net@).to_multiset()
        } else {
            !r.has_device
        },
        None => !r.has_device,
    }
}

/// Whether a directory under `/sys/class/net` and an entry of a link dump speak
/// of the same interface, each in its own way.
pub open spec fn read_alike(
    r: SysReading,
    l: LinkInfo,
    infos: Seq<LinkInfo>,
    devs: Seq<DeviceReading>,
) -> bool {
    &&& r.name@ == l.name@
    &&& file_number(r.ifindex) == Some(l.index as nat)
    &&& file_mac(r.address) == l.mac
    &&& resolved_one(info_names(infos), opt_text(r.master)) == l.master
    &&& r.is_bridge == (l.kind matches Some(k) && k@ == "bridge"@)
    &&& lowers_among(texts(r.entries@)).no_duplicates()
    &&& names_below(lowers_among(texts(r.entries@)), infos, l)
    &&& device_alike(r, l, infos, devs)
}

/// Whether a walk over `/sys/class/net` and a link dump were taken of one host
/// that did not change in between: every name and every index is there once,
/// and every interface that the one shows the other shows too. What an
/// interface is stacked on is one of them, and not a port of it.
pub open spec fn one_host(
    v: Seq<SysReading>,
    infos: Seq<LinkInfo>,
    devs: Seq<DeviceReading>,
) -> bool {
    &&& forall|i: int, j: int|
        #![trigger infos[i], infos[j]]
        0 <= i < j < infos.len() ==> infos[i].index != infos[j].index && infos[i].name@
            != infos[j].name@
    &&& forall|i: int, j: int|
        #![trigger v[i], v[j]]
        0 <= i < j < v.len() ==> v[i].name@ != v[j].name@
    &&& forall|i: int|
        #![trigger v[i]]
        0 <= i < v.len() && file_number(v[i].ifindex) is Some ==> exists|j: int|
            0 <= j < infos.len() && read_alike(v[i], #[trigger] infos[j], infos, devs)
    &&& forall|j: int|
        #![trigger infos[j]]
        0 <= j < infos.len() ==> exists|i: int|
            0 <= i < v.len() && read_alike(#[trigger] v[i], infos[j], infos, devs)
    &&& forall|j: int|
        #![trigger infos[j]]
        0 <= j < infos.len() && parent_of(infos[j]) is Some ==> exists|k: int|
            0 <= k < infos.len() && Some((#[trigger] infos[k]).index) == parent_of(infos[j])
                && infos[k].master != Some(infos[j].index)
}

/// Whether two pictures show the same interface, but for the order of what they
/// found in a directory.
pub open spec fn same_interface(a: LinkModel, b: LinkModel) -> bool {
    &&& a.name == b.name
    &&& a.index == b.index
    &&& a.mac == b.mac
    &&& a.master == b.master
    &&& a.is_bridge == b.is_bridge
    &&& a.numvfs == b.numvfs
    &&& a.driver == b.driver
    &&& a.physfn == b.physfn
    &&& a.pf_netdevs == b.pf_netdevs
    &&& ascending_order(a.lowers) == ascending_order(b.lowers)
    &&& ascending_order(a.vf_netdevs) == ascending_order(b.vf_netdevs)
}

/// Whether two pictures show the same host.
pub open spec fn same_host(a: TopologyModel, b: TopologyModel) -> bool {
    &&& a.names == b.names
    &&& a.links.dom() == b.links.dom()
    &&& forall|x: u32| #[trigger] a.links.contains_key(x) ==> same_interface(a.links[x], b.links[x])
}

proof fn lemma_sorted_same(a: Seq<u32>, b: Seq<u32>)
    requires
        a.to_multiset() == b.to_multiset(),
    ensures
        ascending_order(a) == ascending_order(b),
{
    let leq = |x: u32, y: u32| x <= y;
    assert(total_ordering(leq));
    a.lemma_sort_by_ensures(leq);
    b.lemma_sort_by_ensures(leq);
    lemma_sorted_unique(a.sort_by(leq), b.sort_by(leq), leq);
}

/// Two lists without repetitions that hold the same hold it equally often.
proof fn lemma_same_elements(a: Seq<u32>, b: Seq<u32>)
    requires
        a.no_duplicates(),
        b.no_duplicates(),
        forall|x: u32| #[trigger] a.contains(x) <==> b.contains(x),
    ensures
        a.to_multiset() == b.to_multiset(),
{
    broadcast use group_to_multiset_ensures;

    a.lemma_multiset_has_no_duplicates();
    b.lemma_multiset_has_no_duplicates();
    assert forall|x: u32| a.to_multiset().count(x) == b.to_multiset().count(x) by {
        assert(a.contains(x) <==> b.contains(x));
    }
    assert(a.to_multiset() =~= b.to_multiset());
}

/// Whether no two names stand for the same interface.
pub open spec fn injective(names: Map<Seq<char>, u32>) -> bool {
    forall|m: Seq<char>, n: Seq<char>|
        #![trigger names[m], names[n]]
        names.contains_key(m) && names.contains_key(n) && names[m] == names[n] ==> m == n
}

proof fn lemma_resolved_has(names: Map<Seq<char>, u32>, list: Seq<Seq<char>>, x: u32)
    ensures
        resolved(names, list).contains(x) <==> exists|n: Seq<char>| #[trigger]
            list.contains(n) && names.contains_key(n) && names[n] == x,
    decreases list.len(),
{
    if list.len() > 0 {
        let front = list.drop_last();
        lemma_resolved_has(names, front, x);
        assert(list =~= front.push(list.last()));
        lemma_push_contains(front, list.last());
        let head = resolved(names, front);
        if names.contains_key(list.last()) {
            lemma_push_contains(head, names[list.last()]);
        }
        if resolved(names, list).contains(x) {
            if head.contains(x) {
                let n = choose|n: Seq<char>| #[trigger]
                    front.contains(n) && names.contains_key(n) && names[n] == x;
                assert(list.contains(n));
            } else {
                assert(list.contains(list.last()));
            }
        }
        if exists|n: Seq<char>| #[trigger]
            list.contains(n) && names.contains_key(n) && names[n] == x {
            let n = choose|n: Seq<char>| #[trigger]
                list.contains(n) && names.contains_key(n) && names[n] == x;
            if n != list.last() {
                assert(front.contains(n));
            }
        }
    }
}

proof fn lemma_resolved_once(names: Map<Seq<char>, u32>, list: Seq<Seq<char>>)
    requires
        injective(names),
        list.no_duplicates(),
    ensures
        resolved(names, list).no_duplicates(),
    decreases list.len(),
{
    if list.len() > 0 {
        let front = list.drop_last();
        let head = resolved(names, front);
        lemma_resolved_once(names, front);
        let last = list.last();
        if names.contains_key(last) {
            lemma_resolved_has(names, front, names[last]);
            if head.contains(names[last]) {
                let n = choose|n: Seq<char>| #[trigger]
                    front.contains(n) && names.contains_key(n) && names[n] == names[last];
                assert(n == last);
                let i = choose|i: int| 0 <= i < front.len() && front[i] == n;
                assert(list[i] == list[list.len() - 1]);
            }
            let all = head.push(names[last]);
            assert forall|i: int, j: int| 0 <= i < j < all.len() implies all[i] != all[j] by {
                if j == head.len() {
                    assert(head.contains(head[i]));
                }
            }
        }
    }
}

proof fn lemma_resolved_count(
    names: Map<Seq<char>, u32>,
    list: Seq<Seq<char>>,
    n: Seq<char>,
)
    requires
        injective(names),
        names.contains_key(n),
    ensures
        resolved(names, list).to_multiset().count(names[n]) == list.to_multiset().count(n),
    decreases list.len(),
{
    broadcast use {group_to_multiset_ensures, vstd::multiset::group_multiset_axioms};

    if list.len() > 0 {
        let front = list.drop_last();
        let last = list.last();
        let head = resolved(names, front);
        lemma_resolved_count(names, front, n);
        assert(list =~= front.push(last));
        assert(list.to_multiset() =~= front.to_multiset().insert(last));
        if names.contains_key(last) {
            assert(head.push(names[last]).to_multiset() =~= head.to_multiset().insert(names[last]));
            if last != n {
                assert(names[last] != names[n]);
            }
        }
    } else {
        assert(list =~= Seq::empty());
    }
}

/// The same names in another order stand for the same interfaces.
proof fn lemma_resolved_same(
    names: Map<Seq<char>, u32>,
    a: Seq<Seq<char>>,
    b: Seq<Seq<char>>,
)
    requires
        injective(names),
        a.to_multiset() == b.to_multiset(),
    ensures
        resolved(names, a).to_multiset() == resolved(names, b).to_multiset(),
{
    broadcast use group_to_multiset_ensures;

    let (ra, rb) = (resolved(names, a), resolved(names, b));
    assert forall|x: u32| ra.to_multiset().count(x) == rb.to_multiset().count(x) by {
        if exists|n: Seq<char>| #[trigger] names.contains_key(n) && names[n] == x {
            let n = choose|n: Seq<char>| #[trigger] names.contains_key(n) && names[n] == x;
            lemma_resolved_count(names, a, n);
            lemma_resolved_count(names, b, n);
        } else {
            lemma_resolved_has(names, a, x);
            lemma_resolved_has(names, b, x);
            assert(!ra.contains(x));
            assert(!rb.contains(x));
        }
    }
    assert(ra.to_multiset() =~= rb.to_multiset());
}

/// Where a link that a walk found comes from.
proof fn lemma_walked_from(v: Seq<SysReading>, k: int) -> (i: int)
    requires
        0 <= k < sys_walked(v).len(),
    ensures
        0 <= i < v.len(),
        sys_read(v[i]) == Some(sys_walked(v)[k]),
    decreases v.len(),
{
    let front = v.drop_last();
    if k < sys_walked(front).len() {
        let i = lemma_walked_from(front, k);
        assert(front[i] == v[i]);
        i
    } else {
        v.len() - 1
    }
}

/// What can be read is found.
proof fn lemma_walked_has(v: Seq<SysReading>, i: int) -> (k: int)
    requires
        0 <= i < v.len(),
        sys_read(v[i]) is Some,
    ensures
        0 <= k < sys_walked(v).len(),
        sys_read(v[i]) == Some(sys_walked(v)[k]),
    decreases v.len(),
{
    let front = v.drop_last();
    if i < v.len() - 1 {
        assert(front[i] == v[i]);
        let k = lemma_walked_has(front, i);
        k
    } else {
        sys_walked(front).len() as int
    }
}

proof fn lemma_walked_once(v: Seq<SysReading>)
    requires
        forall|i: int, j: int|
            #![trigger v[i], v[j]]
            0 <= i < j < v.len() ==> v[i].name@ != v[j].name@,
    ensures
        forall|i: int, j: int|
            #![trigger sys_walked(v)[i], sys_walked(v)[j]]
            0 <= i < j < sys_walked(v).len() ==> sys_walked(v)[i].name != sys_walked(v)[j].name,
    decreases v.len(),
{
    if v.len() > 0 {
        let front = v.drop_last();
        assert forall|i: int, j: int|
            #![trigger front[i], front[j]]
            0 <= i < j < front.len() implies front[i].name@ != front[j].name@ by {
            assert(front[i] == v[i] && front[j] == v[j]);
        }
        lemma_walked_once(front);
        let head = sys_walked(front);
        let all = sys_walked(v);
        assert forall|i: int, j: int|
            #![trigger all[i], all[j]]
            0 <= i < j < all.len() implies all[i].name != all[j].name by {
            assert(all[i] == head[i]);
            if j < head.len() {
                assert(all[j] == head[j]);
            } else {
                let x = lemma_walked_from(front, i);
                assert(front[x] == v[x]);
                assert(v[x].name@ != v[v.len() - 1].name@);
            }
        }
    }
}

/// The names of a walk, where each is there once.
proof fn lemma_sys_names(w: Seq<SysModel>, n: Seq<char>)
    requires
        forall|i: int, j: int|
            #![trigger w[i], w[j]]
            0 <= i < j < w.len() ==> w[i].name != w[j].name,
    ensures
        sys_names(w).contains_key(n) <==> exists|k: int|
            0 <= k < w.len() && (#[trigger] w[k]).name == n,
        forall|k: int|
            0 <= k < w.len() && (#[trigger] w[k]).name == n ==> sys_names(w)[n] == w[k].index,
    decreases w.len(),
{
    if w.len() > 0 {
        let front = w.drop_last();
        assert forall|i: int, j: int|
            #![trigger front[i], front[j]]
            0 <= i < j < front.len() implies front[i].name != front[j].name by {
            assert(front[i] == w[i] && front[j] == w[j]);
        }
        lemma_sys_names(front, n);
        let end = w.len() - 1;
        assert(w[end] == w.last());
        assert forall|k: int| 0 <= k < w.len() && (#[trigger] w[k]).name == n implies sys_names(
            w,
        )[n] == w[k].index by {
            if k < end {
                assert(front[k] == w[k]);
                assert(w[k].name != w[end].name);
            }
        }
        if sys_names(w).contains_key(n) && w.last().name != n {
            let k = choose|k: int| 0 <= k < front.len() && (#[trigger] front[k]).name == n;
            assert(w[k].name == n);
        }
        if exists|k: int| 0 <= k < w.len() && (#[trigger] w[k]).name == n {
            let k = choose|k: int| 0 <= k < w.len() && (#[trigger] w[k]).name == n;
            if k < end {
                assert(front[k].name == n);
            }
        }
    }
}

/// The names of a dump, where each is there once.
proof fn lemma_info_names(infos: Seq<LinkInfo>, n: Seq<char>)
    requires
        forall|i: int, j: int|
            #![trigger infos[i], infos[j]]
            0 <= i < j < infos.len() ==> infos[i].name@ != infos[j].name@,
    ensures
        info_names(infos).contains_key(n) <==> exists|k: int|
            0 <= k < infos.len() && (#[trigger] infos[k]).name@ == n,
        forall|k: int|
            0 <= k < infos.len() && (#[trigger] infos[k]).name@ == n ==> info_names(infos)[n]
                == infos[k].index,
    decreases infos.len(),
{
    if infos.len() > 0 {
        let front = infos.drop_last();
        assert forall|i: int, j: int|
            #![trigger front[i], front[j]]
            0 <= i < j < front.len() implies front[i].name@ != front[j].name@ by {
            assert(front[i] == infos[i] && front[j] == infos[j]);
        }
        lemma_info_names(front, n);
        let end = infos.len() - 1;
        assert(infos[end] == infos.last());
        assert forall|k: int|
            0 <= k < infos.len() && (#[trigger] infos[k]).name@ == n implies info_names(infos)[n]
            == infos[k].index by {
            if k < end {
                assert(front[k] == infos[k]);
                assert(infos[k].name@ != infos[end].name@);
            }
        }
        if info_names(infos).contains_key(n) && infos.last().name@ != n {
            let k = choose|k: int| 0 <= k < front.len() && (#[trigger] front[k]).name@ == n;
            assert(infos[k].name@ == n);
        }
        if exists|k: int| 0 <= k < infos.len() && (#[trigger] infos[k]).name@ == n {
            let k = choose|k: int| 0 <= k < infos.len() && (#[trigger] infos[k]).name@ == n;
            if k < end {
                assert(front[k].name@ == n);
            }
        }
    }
}

/// The ports of an interface in a list that gives each index once.
proof fn lemma_slaves(ls: Seq<LinkModel>, x: u32)
    requires
        forall|i: int, j: int|
            #![trigger ls[i], ls[j]]
            0 <= i < j < ls.len() ==> ls[i].index != ls[j].index,
    ensures
        slaves_in(ls, x).no_duplicates(),
        forall|y: u32| #[trigger]
            slaves_in(ls, x).contains(y) <==> exists|k: int|
                0 <= k < ls.len() && (#[trigger] ls[k]).index == y && ls[k].master == Some(x),
    decreases ls.len(),
{
    if ls.len() > 0 {
        let front = ls.drop_last();
        let head = slaves_in(front, x);
        let last = ls.last();
        let end = ls.len() - 1;
        assert(ls[end] == last);
        assert forall|i: int, j: int|
            #![trigger front[i], front[j]]
            0 <= i < j < front.len() implies front[i].index != front[j].index by {
            assert(front[i] == ls[i] && front[j] == ls[j]);
        }
        lemma_slaves(front, x);
        lemma_push_contains(head, last.index);
        if head.contains(last.index) {
            let k = choose|k: int|
                0 <= k < front.len() && (#[trigger] front[k]).index == last.index
                    && front[k].master == Some(x);
            assert(ls[k].index == ls[end].index);
        }
        let all = slaves_in(ls, x);
        assert forall|i: int, j: int| 0 <= i < j < all.len() implies all[i] != all[j] by {
            if j == head.len() {
                assert(head.contains(head[i]));
            }
        }
        assert forall|y: u32| #[trigger]
            all.contains(y) <==> exists|k: int|
                0 <= k < ls.len() && (#[trigger] ls[k]).index == y && ls[k].master == Some(x) by {
            if head.contains(y) {
                let k = choose|k: int|
                    0 <= k < front.len() && (#[trigger] front[k]).index == y && front[k].master
                        == Some(x);
                assert(ls[k].index == y);
            }
            if exists|k: int|
                0 <= k < ls.len() && (#[trigger] ls[k]).index == y && ls[k].master == Some(x) {
                let k = choose|k: int|
                    0 <= k < ls.len() && (#[trigger] ls[k]).index == y && ls[k].master == Some(x);
                if k < end {
                    assert(front[k].index == y);
                }
            }
        }
    }
}

proof fn lemma_names_alike(v: Seq<SysReading>, infos: Seq<LinkInfo>, devs: Seq<DeviceReading>)
    requires
        one_host(v, infos, devs),
    ensures
        sys_names(sys_walked(v)) == info_names(infos),
        injective(info_names(infos)),
{
    let w = sys_walked(v);
    let (a, b) = (sys_names(w), info_names(infos));
    lemma_walked_once(v);
    assert forall|n: Seq<char>| #[trigger] a.contains_key(n) <==> b.contains_key(n) by {
        lemma_sys_names(w, n);
        lemma_info_names(infos, n);
        if a.contains_key(n) {
            let k = choose|k: int| 0 <= k < w.len() && (#[trigger] w[k]).name == n;
            let i = lemma_walked_from(v, k);
            let j = choose|j: int|
                0 <= j < infos.len() && read_alike(v[i], #[trigger] infos[j], infos, devs);
            assert(infos[j].name@ == n);
        }
        if b.contains_key(n) {
            let j = choose|j: int| 0 <= j < infos.len() && (#[trigger] infos[j]).name@ == n;
            let i = choose|i: int|
                0 <= i < v.len() && read_alike(#[trigger] v[i], infos[j], infos, devs);
            let k = lemma_walked_has(v, i);
            assert(w[k].name == n);
        }
    }
    assert forall|n: Seq<char>| #[trigger] a.contains_key(n) implies a[n] == b[n] by {
        lemma_sys_names(w, n);
        lemma_info_names(infos, n);
        let k = choose|k: int| 0 <= k < w.len() && (#[trigger] w[k]).name == n;
        let i = lemma_walked_from(v, k);
        let j = choose|j: int|
            0 <= j < infos.len() && read_alike(v[i], #[trigger] infos[j], infos, devs);
        assert(infos[j].name@ == n);
    }
    assert(a =~= b);
    assert forall|m: Seq<char>, n: Seq<char>|
        #![trigger b[m], b[n]]
        b.contains_key(m) && b.contains_key(n) && b[m] == b[n] implies m == n by {
        lemma_info_names(infos, m);
        lemma_info_names(infos, n);
        let i = choose|i: int| 0 <= i < infos.len() && (#[trigger] infos[i]).name@ == m;
        let j = choose|j: int| 0 <= j < infos.len() && (#[trigger] infos[j]).name@ == n;
        assert(infos[i].index == infos[j].index);
        if i < j {
            assert(infos[i].index != infos[j].index);
        }
        if j < i {
            assert(infos[j].index != infos[i].index);
        }
    }
}

/// What lies below an interface, by a dump: what it is stacked on, and its ports.
pub open spec fn below_in(ls: Seq<LinkModel>, l: LinkInfo) -> Seq<u32> {
    match parent_of(l) {
        Some(p) => seq![p] + slaves_in(ls, l.index),
        None => slaves_in(ls, l.index),
    }
}

/// Whether the directory entries name exactly what lies below an interface.
pub open spec fn names_below(list: Seq<Seq<char>>, infos: Seq<LinkInfo>, l: LinkInfo) -> bool {
    forall|n: Seq<char>| #[trigger]
        list.contains(n) <==> exists|k: int|
            0 <= k < infos.len() && (#[trigger] infos[k]).name@ == n && lies_below(infos[k], l)
}

/// Whether a list of links was made of a dump that gives every name and every
/// index once.
pub open spec fn dumped_from(infos: Seq<LinkInfo>, ls: Seq<LinkModel>) -> bool {
    &&& ls.len() == infos.len()
    &&& forall|k: int|
        0 <= k < ls.len() ==> (#[trigger] ls[k]).index == infos[k].index && ls[k].master
            == infos[k].master
    &&& forall|i: int, j: int|
        #![trigger infos[i], infos[j]]
        0 <= i < j < infos.len() ==> infos[i].index != infos[j].index && infos[i].name@
            != infos[j].name@
}

/// Whether what an interface is stacked on is at `k`, and not a port of it.
pub open spec fn stands_on(infos: Seq<LinkInfo>, l: LinkInfo, k: int) -> bool {
    &&& 0 <= k < infos.len()
    &&& Some(infos[k].index) == parent_of(l)
    &&& infos[k].master != Some(l.index)
}

proof fn lemma_ports(infos: Seq<LinkInfo>, ls: Seq<LinkModel>, x: u32)
    requires
        dumped_from(infos, ls),
    ensures
        slaves_in(ls, x).no_duplicates(),
        forall|y: u32| #[trigger]
            slaves_in(ls, x).contains(y) <==> exists|k: int|
                0 <= k < infos.len() && (#[trigger] infos[k]).index == y && infos[k].master == Some(
                    x,
                ),
{
    assert forall|p: int, q: int|
        #![trigger ls[p], ls[q]]
        0 <= p < q < ls.len() implies ls[p].index != ls[q].index by {
        assert(infos[p].index != infos[q].index);
    }
    lemma_slaves(ls, x);
    assert forall|y: u32| #[trigger]
        slaves_in(ls, x).contains(y) <==> exists|k: int|
            0 <= k < infos.len() && (#[trigger] infos[k]).index == y && infos[k].master == Some(
                x,
            ) by {
        if slaves_in(ls, x).contains(y) {
            let k = choose|k: int|
                0 <= k < ls.len() && (#[trigger] ls[k]).index == y && ls[k].master == Some(x);
            assert(infos[k].index == y);
        }
        if exists|k: int|
            0 <= k < infos.len() && (#[trigger] infos[k]).index == y && infos[k].master == Some(x) {
            let k = choose|k: int|
                0 <= k < infos.len() && (#[trigger] infos[k]).index == y && infos[k].master == Some(
                    x,
                );
            assert(ls[k].index == y);
        }
    }
}

proof fn lemma_below_once(infos: Seq<LinkInfo>, ls: Seq<LinkModel>, l: LinkInfo, k: int)
    requires
        dumped_from(infos, ls),
        parent_of(l) is Some ==> stands_on(infos, l, k),
    ensures
        below_in(ls, l).no_duplicates(),
{
    let ports = slaves_in(ls, l.index);
    lemma_ports(infos, ls, l.index);
    if let Some(p) = parent_of(l) {
        if ports.contains(p) {
            let q = choose|q: int|
                0 <= q < infos.len() && (#[trigger] infos[q]).index == p && infos[q].master == Some(
                    l.index,
                );
            if q < k {
                assert(infos[q].index != infos[k].index);
            }
            if k < q {
                assert(infos[k].index != infos[q].index);
            }
        }
        let b = seq![p] + ports;
        assert forall|i: int, j: int| 0 <= i < j < b.len() implies b[i] != b[j] by {
            assert(b[j] == ports[j - 1]);
            assert(ports.contains(b[j]));
        }
    }
}

proof fn lemma_below_same(
    infos: Seq<LinkInfo>,
    ls: Seq<LinkModel>,
    l: LinkInfo,
    k: int,
    list: Seq<Seq<char>>,
    x: u32,
)
    requires
        dumped_from(infos, ls),
        parent_of(l) is Some ==> stands_on(infos, l, k),
        names_below(list, infos, l),
    ensures
        resolved(info_names(infos), list).contains(x) <==> below_in(ls, l).contains(x),
{
    let names = info_names(infos);
    let a = resolved(names, list);
    let ports = slaves_in(ls, l.index);
    let own = match parent_of(l) {
        Some(p) => seq![p],
        None => Seq::empty(),
    };
    let b = below_in(ls, l);
    assert(b =~= own + ports);
    lemma_ports(infos, ls, l.index);
    lemma_resolved_has(names, list, x);
    lemma_joined(own, ports, x);
    if a.contains(x) {
        let n = choose|n: Seq<char>| #[trigger]
            list.contains(n) && names.contains_key(n) && names[n] == x;
        let q = choose|q: int|
            0 <= q < infos.len() && (#[trigger] infos[q]).name@ == n && lies_below(infos[q], l);
        lemma_info_names(infos, n);
        assert(infos[q].index == x);
        if infos[q].master == Some(l.index) {
            assert(ports.contains(x));
        } else {
            assert(own[0] == x);
        }
    }
    if ports.contains(x) {
        let q = choose|q: int|
            0 <= q < infos.len() && (#[trigger] infos[q]).index == x && infos[q].master == Some(
                l.index,
            );
        lemma_info_names(infos, infos[q].name@);
        assert(lies_below(infos[q], l));
        assert(list.contains(infos[q].name@));
    } else if own.contains(x) {
        lemma_info_names(infos, infos[k].name@);
        assert(lies_below(infos[k], l));
        assert(list.contains(infos[k].name@));
    }
}

/// What lies below an interface, both ways.
proof fn lemma_lowers_alike(
    infos: Seq<LinkInfo>,
    ls: Seq<LinkModel>,
    l: LinkInfo,
    k: int,
    list: Seq<Seq<char>>,
)
    requires
        dumped_from(infos, ls),
        parent_of(l) is Some ==> stands_on(infos, l, k),
        names_below(list, infos, l),
        list.no_duplicates(),
        injective(info_names(infos)),
    ensures
        resolved(info_names(infos), list).to_multiset() == below_in(ls, l).to_multiset(),
{
    let a = resolved(info_names(infos), list);
    let b = below_in(ls, l);
    lemma_resolved_once(info_names(infos), list);
    lemma_below_once(infos, ls, l, k);
    assert forall|x: u32| #[trigger] a.contains(x) <==> b.contains(x) by {
        lemma_below_same(infos, ls, l, k, list, x);
    }
    lemma_same_elements(a, b);
}

proof fn lemma_joined(a: Seq<u32>, b: Seq<u32>, x: u32)
    ensures
        (a + b).contains(x) <==> a.contains(x) || b.contains(x),
{
    let c = a + b;
    if a.contains(x) {
        let i = choose|i: int| 0 <= i < a.len() && a[i] == x;
        assert(c[i] == x);
    }
    if b.contains(x) {
        let i = choose|i: int| 0 <= i < b.len() && b[i] == x;
        assert(c[i + a.len()] == x);
    }
    if c.contains(x) {
        let i = choose|i: int| 0 <= i < c.len() && c[i] == x;
        if i < a.len() {
            assert(a[i] == x);
        } else {
            assert(b[i - a.len()] == x);
        }
    }
}

/// One device, both ways.
proof fn lemma_device_alike(
    infos: Seq<LinkInfo>,
    devs: Seq<DeviceReading>,
    r: SysReading,
    l: LinkInfo,
)
    requires
        injective(info_names(infos)),
        file_number(r.ifindex) is Some,
        device_alike(r, l, infos, devs),
    ensures
        ({
            let a = sys_link(info_names(infos), sys_read(r)->0);
            let b = dumped_link(info_names(infos), names_parents(infos), l, devs);
            &&& a.numvfs == b.numvfs
            &&& a.driver == b.driver
            &&& a.physfn == b.physfn
            &&& a.pf_netdevs == b.pf_netdevs
            &&& ascending_order(a.vf_netdevs) == ascending_order(b.vf_netdevs)
        }),
{
    let names = info_names(infos);
    let s = sys_read(r)->0;
    let a = sys_link(names, s);
    let b = dumped_link(names, names_parents(infos), l, devs);
    match device_for(devs, l.name@) {
        Some(d) => if device_counts(names_parents(infos), l, d) {
            lemma_resolved_same(names, texts(r.physfn_net@), texts(d.physfn_net@));
            lemma_sorted_same(
                resolved(names, texts(r.physfn_net@)),
                resolved(names, texts(d.physfn_net@)),
            );
            lemma_resolved_same(names, texts(r.virtfn_net@), texts(d.virtfn_net@));
            if s.numvfs > 0 {
                lemma_sorted_same(a.vf_netdevs, b.vf_netdevs);
            } else {
                assert(a.vf_netdevs =~= b.vf_netdevs);
            }
        } else {
            lemma_no_device(names, s, a);
        },
        None => {
            lemma_no_device(names, s, a);
        },
    }
}

/// One interface, both ways.
proof fn lemma_interface_alike(
    infos: Seq<LinkInfo>,
    devs: Seq<DeviceReading>,
    r: SysReading,
    j: int,
    k: int,
)
    requires
        dumped_from(infos, dumped_links(infos, devs)),
        injective(info_names(infos)),
        0 <= j < infos.len(),
        parent_of(infos[j]) is Some ==> stands_on(infos, infos[j], k),
        read_alike(r, infos[j], infos, devs),
    ensures
        same_interface(
            sys_link(info_names(infos), sys_read(r)->0),
            with_ports(dumped_links(infos, devs))[j],
        ),
{
    let names = info_names(infos);
    let ls = dumped_links(infos, devs);
    let l = infos[j];
    let a = sys_link(names, sys_read(r)->0);
    let b = with_ports(ls)[j];
    assert(is_last(ls, j)) by {
        assert forall|q: int| j < q < ls.len() implies (#[trigger] ls[q]).index != ls[j].index by {
            assert(infos[j].index != infos[q].index);
        }
    }
    assert(ls[j] == dumped_link(names, names_parents(infos), l, devs));
    lemma_lowers_alike(infos, ls, l, k, lowers_among(texts(r.entries@)));
    assert(b.lowers =~= below_in(ls, l));
    lemma_sorted_same(a.lowers, b.lowers);
    lemma_device_alike(infos, devs, r, l);
}

proof fn lemma_no_device(names: Map<Seq<char>, u32>, s: SysModel, a: LinkModel)
    requires
        a == sys_link(names, s),
        s.pf_netdevs.len() == 0,
        s.vf_netdevs.len() == 0,
    ensures
        a.pf_netdevs == Seq::<u32>::empty(),
        a.vf_netdevs == Seq::<u32>::empty(),
{
    let leq = |x: u32, y: u32| x <= y;
    let none = resolved(names, s.pf_netdevs);
    assert(total_ordering(leq));
    none.lemma_sort_by_ensures(leq);
    broadcast use group_to_multiset_ensures;

    assert(a.pf_netdevs.len() == none.len()) by {
        assert(none.sort_by(leq).to_multiset().len() == none.to_multiset().len());
    }
    assert(a.pf_netdevs =~= Seq::<u32>::empty());
    assert(a.vf_netdevs =~= Seq::<u32>::empty());
}

proof fn lemma_names_listed(w: Seq<SysModel>, names: Map<Seq<char>, u32>)
    ensures
        names_in(w.map_values(|s: SysModel| sys_link(names, s))) == sys_names(w),
    decreases w.len(),
{
    let f = |s: SysModel| sys_link(names, s);
    if w.len() > 0 {
        lemma_names_listed(w.drop_last(), names);
        assert(w.map_values(f).drop_last() =~= w.drop_last().map_values(f));
    }
}

proof fn lemma_names_dumped(infos: Seq<LinkInfo>, lb: Seq<LinkModel>)
    requires
        lb.len() == infos.len(),
        forall|i: int|
            0 <= i < infos.len() ==> (#[trigger] lb[i]).name == infos[i].name@ && lb[i].index
                == infos[i].index,
    ensures
        names_in(lb) == info_names(infos),
    decreases infos.len(),
{
    if infos.len() > 0 {
        let front = lb.drop_last();
        assert forall|i: int| 0 <= i < infos.len() - 1 implies (#[trigger] front[i]).name
            == infos.drop_last()[i].name@ && front[i].index == infos.drop_last()[i].index by {
            assert(front[i] == lb[i]);
        }
        lemma_names_dumped(infos.drop_last(), front);
        assert(lb[infos.len() - 1] == lb.last());
    }
}

proof fn lemma_dump_plain(infos: Seq<LinkInfo>, devs: Seq<DeviceReading>)
    requires
        dumped_from(infos, dumped_links(infos, devs)),
    ensures
        plain_list(with_ports(dumped_links(infos, devs))),
{
    let lb = with_ports(dumped_links(infos, devs));
    assert forall|p: int, q: int|
        #![trigger lb[p], lb[q]]
        0 <= p < q < lb.len() implies lb[p].index != lb[q].index by {
        assert(infos[p].index != infos[q].index);
    }
}

/// The entry of the dump that a directory goes with.
proof fn lemma_entry_of(
    v: Seq<SysReading>,
    infos: Seq<LinkInfo>,
    devs: Seq<DeviceReading>,
    k: int,
) -> (r: (int, int))
    requires
        one_host(v, infos, devs),
        0 <= k < sys_walked(v).len(),
    ensures
        0 <= r.0 < v.len(),
        0 <= r.1 < infos.len(),
        sys_read(v[r.0]) == Some(sys_walked(v)[k]),
        read_alike(v[r.0], infos[r.1], infos, devs),
{
    let i = lemma_walked_from(v, k);
    let j = choose|j: int|
        0 <= j < infos.len() && read_alike(v[i], #[trigger] infos[j], infos, devs);
    (i, j)
}

/// The directory that an entry of the dump goes with.
proof fn lemma_directory_of(
    v: Seq<SysReading>,
    infos: Seq<LinkInfo>,
    devs: Seq<DeviceReading>,
    j: int,
) -> (k: int)
    requires
        one_host(v, infos, devs),
        0 <= j < infos.len(),
    ensures
        0 <= k < sys_walked(v).len(),
        sys_walked(v)[k].index == infos[j].index,
{
    let i = choose|i: int| 0 <= i < v.len() && read_alike(#[trigger] v[i], infos[j], infos, devs);
    lemma_walked_has(v, i)
}

proof fn lemma_walk_plain(v: Seq<SysReading>, infos: Seq<LinkInfo>, devs: Seq<DeviceReading>)
    requires
        one_host(v, infos, devs),
    ensures
        plain_list(sys_links(sys_walked(v))),
{
    let w = sys_walked(v);
    let la = sys_links(w);
    lemma_walked_once(v);
    assert forall|p: int, q: int|
        #![trigger la[p], la[q]]
        0 <= p < q < la.len() implies la[p].index != la[q].index by {
        assert(w[p].name != w[q].name);
        let (ip, jp) = lemma_entry_of(v, infos, devs, p);
        let (iq, jq) = lemma_entry_of(v, infos, devs, q);
        assert(w[p].name == infos[jp].name@ && w[p].index == infos[jp].index);
        assert(w[q].name == infos[jq].name@ && w[q].index == infos[jq].index);
        if jp < jq {
            assert(infos[jp].index != infos[jq].index);
        }
        if jq < jp {
            assert(infos[jq].index != infos[jp].index);
        }
    }
}

/// Both readings know the same interfaces.
proof fn lemma_known_alike(
    v: Seq<SysReading>,
    infos: Seq<LinkInfo>,
    devs: Seq<DeviceReading>,
    x: u32,
)
    requires
        one_host(v, infos, devs),
        plain_list(sys_links(sys_walked(v))),
        plain_list(with_ports(dumped_links(infos, devs))),
    ensures
        last_with(sys_links(sys_walked(v)), x) is Some <==> last_with(
            with_ports(dumped_links(infos, devs)),
            x,
        ) is Some,
{
    let la = sys_links(sys_walked(v));
    let lb = with_ports(dumped_links(infos, devs));
    if last_with(la, x) is Some {
        lemma_last_is_listed(la, x);
        let k = choose|k: int| 0 <= k < la.len() && last_with(la, x) == Some(#[trigger] la[k]);
        lemma_last_with(la, x);
        let (i, j) = lemma_entry_of(v, infos, devs, k);
        assert(lb[j].index == infos[j].index);
        lemma_last_of_plain(lb, j);
    }
    if last_with(lb, x) is Some {
        lemma_last_is_listed(lb, x);
        let j = choose|j: int| 0 <= j < lb.len() && last_with(lb, x) == Some(#[trigger] lb[j]);
        lemma_last_with(lb, x);
        assert(infos[j].index == x);
        let k = lemma_directory_of(v, infos, devs, j);
        assert(la[k].index == x);
        lemma_last_of_plain(la, k);
    }
}

/// Both readings say the same of an interface.
proof fn lemma_said_alike(
    v: Seq<SysReading>,
    infos: Seq<LinkInfo>,
    devs: Seq<DeviceReading>,
    x: u32,
)
    requires
        one_host(v, infos, devs),
        dumped_from(infos, dumped_links(infos, devs)),
        plain_list(with_ports(dumped_links(infos, devs))),
        sys_names(sys_walked(v)) == info_names(infos),
        injective(info_names(infos)),
        last_with(sys_links(sys_walked(v)), x) is Some,
    ensures
        last_with(with_ports(dumped_links(infos, devs)), x) is Some,
        same_interface(
            last_with(sys_links(sys_walked(v)), x)->0,
            last_with(with_ports(dumped_links(infos, devs)), x)->0,
        ),
{
    let w = sys_walked(v);
    let la = sys_links(w);
    let lb = with_ports(dumped_links(infos, devs));
    lemma_last_is_listed(la, x);
    let k = choose|k: int| 0 <= k < la.len() && last_with(la, x) == Some(#[trigger] la[k]);
    lemma_last_with(la, x);
    let (i, j) = lemma_entry_of(v, infos, devs, k);
    let q = if parent_of(infos[j]) is Some {
        choose|q: int|
            0 <= q < infos.len() && Some((#[trigger] infos[q]).index) == parent_of(infos[j])
                && infos[q].master != Some(infos[j].index)
    } else {
        0
    };
    lemma_interface_alike(infos, devs, v[i], j, q);
    assert(la[k] == sys_link(info_names(infos), w[k]));
    assert(lb[j].index == infos[j].index);
    lemma_last_of_plain(lb, j);
}

/// A walk over `/sys/class/net` and a link dump of one host that did not change
/// in between show the same host: the same interfaces under the same names, and
/// of each the same address, master, driver, virtual functions and relations.
pub proof fn both_readings_show_the_same_host(
    v: Seq<SysReading>,
    infos: Seq<LinkInfo>,
    devs: Seq<DeviceReading>,
)
    requires
        one_host(v, infos, devs),
    ensures
        same_host(
            assembled(sys_links(sys_walked(v))),
            assembled(with_ports(dumped_links(infos, devs))),
        ),
{
    let w = sys_walked(v);
    let la = sys_links(w);
    let ls = dumped_links(infos, devs);
    let lb = with_ports(ls);
    let (a, b) = (assembled(la), assembled(lb));
    lemma_names_alike(v, infos, devs);
    assert(dumped_from(infos, ls));
    lemma_dump_plain(infos, devs);
    lemma_walk_plain(v, infos, devs);
    assert forall|x: u32|
        #![trigger a.links.contains_key(x)]
        #![trigger b.links.contains_key(x)]
        a.links.contains_key(x) <==> b.links.contains_key(x) by {
        lemma_known_alike(v, infos, devs, x);
    }
    assert(a.links.dom() =~= b.links.dom());
    assert forall|x: u32| #[trigger] a.links.contains_key(x) implies same_interface(
        a.links[x],
        b.links[x],
    ) by {
        lemma_said_alike(v, infos, devs, x);
    }
    lemma_names_listed(w, info_names(infos));
    lemma_names_dumped(infos, lb);
}

} // verus!
