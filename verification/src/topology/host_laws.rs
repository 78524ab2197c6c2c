//! What the picture of a host takes from a link dump.

use vstd::prelude::*;

use crate::keyed::lemma_push_contains;
use crate::netlink::LinkInfo;
use crate::text::{number_up_to, trim};
use crate::topology::{LinkModel, TopologyModel};
use crate::topology::assemble::{
    ascending_order, assembled, completed, device_for, dumped_link, dumped_links, first_of,
    info_names, is_last, last_with, names_in, names_parents, resolved, slaves_in, stacked_kind,
    with_ports, DeviceReading,
};
use crate::topology::detect::texts;

verus! {

/// Whether a dump gives every interface an index and a name of its own.
pub open spec fn told_apart(infos: Seq<LinkInfo>) -> bool {
    forall|i: int, j: int|
        #![trigger infos[i], infos[j]]
        0 <= i < j < infos.len() ==> infos[i].index != infos[j].index && infos[i].name@
            != infos[j].name@
}

/// Whether the dump shows `y` enslaved to `x`.
pub open spec fn enslaved(infos: Seq<LinkInfo>, x: u32, y: u32) -> bool {
    exists|j: int|
        0 <= j < infos.len() && (#[trigger] infos[j]).index == y && infos[j].master == Some(x)
}

/// Whether an interface is of one of the kinds that are stacked on the interface
/// they are linked to.
pub open spec fn is_stacked(l: LinkInfo) -> bool {
    l.kind matches Some(k) && (k@ == "vlan"@ || k@ == "macvlan"@ || k@ == "macvtap"@ || k@
        == "ipvlan"@ || k@ == "ipvtap"@ || k@ == "macsec"@ || k@ == "vxlan"@)
}

proof fn lemma_last_with(ls: Seq<LinkModel>, x: u32)
    ensures
        last_with(ls, x) is Some <==> exists|i: int| 0 <= i < ls.len() && (#[trigger] ls[i]).index
            == x,
        last_with(ls, x) matches Some(l) ==> exists|i: int|
            0 <= i < ls.len() && #[trigger] ls[i] == l && l.index == x && is_last(ls, i),
    decreases ls.len(),
{
    if ls.len() > 0 {
        let n = ls.len() - 1;
        assert(ls[n] == ls.last());
        if ls.last().index == x {
            assert(is_last(ls, n));
        } else {
            let head = ls.drop_last();
            lemma_last_with(head, x);
            if let Some(l) = last_with(head, x) {
                let i = choose|i: int|
                    0 <= i < head.len() && #[trigger] head[i] == l && l.index == x && is_last(
                        head,
                        i,
                    );
                assert(ls[i] == l);
                assert forall|j: int| i < j < ls.len() implies (#[trigger] ls[j]).index
                    != ls[i].index by {
                    if j < n {
                        assert(head[j] == ls[j]);
                    }
                }
            }
            if exists|i: int| 0 <= i < ls.len() && (#[trigger] ls[i]).index == x {
                let i = choose|i: int| 0 <= i < ls.len() && (#[trigger] ls[i]).index == x;
                assert(head[i] == ls[i]);
            }
        }
    }
}

proof fn lemma_slaves_in(ls: Seq<LinkModel>, x: u32, y: u32)
    ensures
        slaves_in(ls, x).contains(y) <==> exists|j: int|
            0 <= j < ls.len() && (#[trigger] ls[j]).index == y && ls[j].master == Some(x),
    decreases ls.len(),
{
    if ls.len() > 0 {
        let head = ls.drop_last();
        let n = ls.len() - 1;
        lemma_slaves_in(head, x, y);
        lemma_push_contains(slaves_in(head, x), ls.last().index);
        assert(ls[n] == ls.last());
        assert forall|j: int| 0 <= j < n implies #[trigger] head[j] == ls[j] by {}
        if exists|j: int|
            0 <= j < head.len() && (#[trigger] head[j]).index == y && head[j].master == Some(x) {
            let j = choose|j: int|
                0 <= j < head.len() && (#[trigger] head[j]).index == y && head[j].master == Some(x);
            assert(ls[j].index == y);
        }
        if exists|j: int|
            0 <= j < ls.len() && (#[trigger] ls[j]).index == y && ls[j].master == Some(x) {
            let j = choose|j: int|
                0 <= j < ls.len() && (#[trigger] ls[j]).index == y && ls[j].master == Some(x);
            if j < n {
                assert(head[j].index == y);
            }
        }
    } else {
        assert(!slaves_in(ls, x).contains(y));
    }
}

proof fn lemma_names_in(ls: Seq<LinkModel>, i: int)
    requires
        0 <= i < ls.len(),
        forall|j: int| i < j < ls.len() ==> (#[trigger] ls[j]).name != ls[i].name,
    ensures
        names_in(ls).contains_key(ls[i].name),
        names_in(ls)[ls[i].name] == ls[i].index,
    decreases ls.len(),
{
    let n = ls.len() - 1;
    if i < n {
        let head = ls.drop_last();
        assert forall|j: int| i < j < head.len() implies (#[trigger] head[j]).name
            != head[i].name by {
            assert(ls[j].name != ls[i].name);
        }
        lemma_names_in(head, i);
        assert(ls[n].name != ls[i].name);
    }
}

proof fn lemma_named_in(ls: Seq<LinkModel>, name: Seq<char>)
    ensures
        names_in(ls).contains_key(name) ==> exists|i: int|
            0 <= i < ls.len() && (#[trigger] ls[i]).name == name,
    decreases ls.len(),
{
    if ls.len() > 0 {
        lemma_named_in(ls.drop_last(), name);
        if names_in(ls.drop_last()).contains_key(name) {
            let i = choose|i: int|
                0 <= i < ls.drop_last().len() && (#[trigger] ls.drop_last()[i]).name == name;
            assert(ls[i].name == name);
        } else if names_in(ls).contains_key(name) {
            assert(ls[ls.len() - 1].name == name);
        }
    }
}

/// The host as a link dump and a reading of its devices show it.
pub open spec fn host_of(infos: Seq<LinkInfo>, devs: Seq<DeviceReading>) -> TopologyModel {
    assembled(with_ports(dumped_links(infos, devs)))
}

/// Every interface of a dump is in the picture under its index, and nothing else
/// is: with its own name, address and master, a bridge where the dump says so,
/// its ageing time in milliseconds, and handing its filter entries down to the
/// interface it is linked to exactly where it is a VLAN. It is built on that
/// interface where its kind is stacked, and on whatever is enslaved to it; and
/// its members are what is enslaved to it.
pub proof fn the_picture_shows_the_dump(
    infos: Seq<LinkInfo>,
    devs: Seq<DeviceReading>,
    i: int,
    y: u32,
)
    requires
        told_apart(infos),
        0 <= i < infos.len(),
    ensures
        ({
            let t = host_of(infos, devs);
            let l = infos[i];
            let x = t.links[l.index];
            &&& t.links.contains_key(l.index)
            &&& t.links.contains_key(y) <==> exists|j: int|
                0 <= j < infos.len() && (#[trigger] infos[j]).index == y
            &&& t.names.contains_key(l.name@) && t.names[l.name@] == l.index
            &&& x.name == l.name@
            &&& x.index == l.index
            &&& x.mac == l.mac
            &&& x.master == l.master
            &&& x.is_bridge <==> (l.kind matches Some(k) && k@ == "bridge"@)
            &&& match l.ageing {
                Some(c) => x.ageing_ms == Some((c * 10) as u64),
                None => x.ageing_ms is None,
            }
            &&& x.filter_below == Some(y) <==> l.link == Some(y) && (l.kind matches Some(k) && k@
                == "vlan"@)
            &&& x.lowers.contains(y) <==> (l.link == Some(y) && is_stacked(l)) || enslaved(
                infos,
                l.index,
                y,
            )
            &&& x.slaves.contains(y) <==> enslaved(infos, l.index, y)
        }),
{
    let bare = dumped_links(infos, devs);
    let ls = with_ports(bare);
    let t = host_of(infos, devs);
    let l = infos[i];
    assert forall|j: int| 0 <= j < infos.len() implies {
        &&& (#[trigger] bare[j]).index == infos[j].index
        &&& bare[j].name == infos[j].name@
        &&& bare[j].mac == infos[j].mac
        &&& bare[j].master == infos[j].master
        &&& bare[j].slaves.len() == 0
        &&& ls[j].index == infos[j].index
        &&& ls[j].name == infos[j].name@
        &&& ls[j].master == infos[j].master
        &&& ls[j].slaves.len() == 0
    } by {
        assert(bare[j] == dumped_link(info_names(infos), names_parents(infos), infos[j], devs));
    }
    assert(bare[i] == dumped_link(info_names(infos), names_parents(infos), l, devs));
    assert(is_last(bare, i)) by {
        assert forall|j: int| i < j < bare.len() implies (#[trigger] bare[j]).index
            != bare[i].index by {
            assert(infos[i].index != infos[j].index);
        }
    }
    lemma_last_with(ls, l.index);
    assert(ls[i].index == l.index);
    let q = choose|q: int|
        0 <= q < ls.len() && #[trigger] ls[q] == last_with(ls, l.index)->0 && ls[q].index
            == l.index && is_last(ls, q);
    assert(infos[q].index == l.index);
    assert(q == i);
    lemma_last_with(ls, y);
    assert(t.links.contains_key(y) <==> exists|j: int|
        0 <= j < infos.len() && (#[trigger] infos[j]).index == y) by {
        if last_with(ls, y) is Some {
            let j = choose|j: int| 0 <= j < ls.len() && (#[trigger] ls[j]).index == y;
            assert(infos[j].index == y);
        }
        if exists|j: int| 0 <= j < infos.len() && (#[trigger] infos[j]).index == y {
            let j = choose|j: int| 0 <= j < infos.len() && (#[trigger] infos[j]).index == y;
            assert(ls[j].index == y);
        }
    }
    lemma_names_in(ls, i);
    lemma_slaves_in(bare, l.index, y);
    lemma_slaves_in(ls, l.index, y);
    let own = bare[i].lowers;
    let extra = slaves_in(bare, l.index);
    assert(ls[i].lowers == own + extra);
    lemma_sum_contains(own, extra, y);
    assert(own.contains(y) <==> l.link == Some(y) && is_stacked(l)) by {
        if let (Some(k), Some(parent)) = (l.kind, l.link) {
            if stacked_kind(k@) {
                assert(own == seq![parent]);
                assert(own[0] == parent);
            }
        }
    }
    assert(enslaved(infos, l.index, y) <==> slaves_in(bare, l.index).contains(y)) by {
        if enslaved(infos, l.index, y) {
            let j = choose|j: int|
                0 <= j < infos.len() && (#[trigger] infos[j]).index == y && infos[j].master == Some(
                    l.index,
                );
            assert(bare[j].index == y);
        }
        if slaves_in(bare, l.index).contains(y) {
            let j = choose|j: int|
                0 <= j < bare.len() && (#[trigger] bare[j]).index == y && bare[j].master == Some(
                    l.index,
                );
            assert(infos[j].index == y);
        }
    }
    assert(enslaved(infos, l.index, y) <==> slaves_in(ls, l.index).contains(y)) by {
        if enslaved(infos, l.index, y) {
            let j = choose|j: int|
                0 <= j < infos.len() && (#[trigger] infos[j]).index == y && infos[j].master == Some(
                    l.index,
                );
            assert(ls[j].index == y);
        }
        if slaves_in(ls, l.index).contains(y) {
            let j = choose|j: int|
                0 <= j < ls.len() && (#[trigger] ls[j]).index == y && ls[j].master == Some(l.index);
            assert(infos[j].index == y);
        }
    }
    lemma_sum_contains(ls[i].slaves, slaves_in(ls, l.index), y);
    assert(t.links[l.index] == completed(ls, ls[i]));
}

proof fn lemma_sum_contains(a: Seq<u32>, b: Seq<u32>, y: u32)
    ensures
        (a + b).contains(y) <==> a.contains(y) || b.contains(y),
{
    let s = a + b;
    if a.contains(y) {
        let k = choose|k: int| 0 <= k < a.len() && a[k] == y;
        assert(s[k] == y);
    }
    if b.contains(y) {
        let k = choose|k: int| 0 <= k < b.len() && b[k] == y;
        assert(s[a.len() + k] == y);
    }
    if s.contains(y) {
        let k = choose|k: int| 0 <= k < s.len() && s[k] == y;
        if k < a.len() {
            assert(a[k] == y);
        } else {
            assert(b[k - a.len()] == y);
        }
    }
}

/// Nobody goes by a name that the dump does not give.
pub proof fn names_come_from_the_dump(
    infos: Seq<LinkInfo>,
    devs: Seq<DeviceReading>,
    name: Seq<char>,
)
    requires
        host_of(infos, devs).names.contains_key(name),
    ensures
        exists|i: int| 0 <= i < infos.len() && (#[trigger] infos[i]).name@ == name,
{
    let bare = dumped_links(infos, devs);
    let ls = with_ports(bare);
    lemma_named_in(ls, name);
    let i = choose|i: int| 0 <= i < ls.len() && (#[trigger] ls[i]).name == name;
    assert(bare[i] == dumped_link(info_names(infos), names_parents(infos), infos[i], devs));
    assert(infos[i].name@ == name);
}

/// Whether the dump gives one of these names to the interface `y`.
pub open spec fn one_is_named(infos: Seq<LinkInfo>, names: Seq<Seq<char>>, y: u32) -> bool {
    exists|j: int, k: int|
        #![trigger infos[j], names[k]]
        0 <= j < infos.len() && 0 <= k < names.len() && infos[j].index == y && infos[j].name@
            == names[k]
}

proof fn lemma_info_names(infos: Seq<LinkInfo>, name: Seq<char>)
    requires
        told_apart(infos),
    ensures
        info_names(infos).contains_key(name) <==> exists|j: int|
            0 <= j < infos.len() && (#[trigger] infos[j]).name@ == name,
        forall|j: int|
            0 <= j < infos.len() && (#[trigger] infos[j]).name@ == name ==> info_names(infos)[name]
                == infos[j].index,
    decreases infos.len(),
{
    if infos.len() > 0 {
        let head = infos.drop_last();
        let n = infos.len() - 1;
        assert(told_apart(head)) by {
            assert forall|i: int, j: int|
                #![trigger head[i], head[j]]
                0 <= i < j < head.len() implies head[i].index != head[j].index && head[i].name@
                != head[j].name@ by {
                assert(infos[i].index != infos[j].index);
            }
        }
        lemma_info_names(head, name);
        assert(infos[n] == infos.last());
        assert forall|j: int| 0 <= j < n implies #[trigger] head[j] == infos[j] by {}
        if exists|j: int| 0 <= j < head.len() && (#[trigger] head[j]).name@ == name {
            let j = choose|j: int| 0 <= j < head.len() && (#[trigger] head[j]).name@ == name;
            assert(infos[j].name@ == name);
        }
        assert forall|j: int|
            0 <= j < infos.len() && (#[trigger] infos[j]).name@ == name implies info_names(
            infos,
        )[name] == infos[j].index by {
            if j < n {
                assert(head[j].name@ == name);
                assert(infos[j].name@ != infos[n].name@);
            }
        }
        if exists|j: int| 0 <= j < infos.len() && (#[trigger] infos[j]).name@ == name {
            let j = choose|j: int| 0 <= j < infos.len() && (#[trigger] infos[j]).name@ == name;
            if j < n {
                assert(head[j].name@ == name);
            }
        }
    }
}

proof fn lemma_resolved(infos: Seq<LinkInfo>, list: Seq<Seq<char>>, y: u32)
    requires
        told_apart(infos),
    ensures
        resolved(info_names(infos), list).contains(y) <==> one_is_named(infos, list, y),
    decreases list.len(),
{
    let names = info_names(infos);
    if list.len() > 0 {
        let head = list.drop_last();
        let n = list.len() - 1;
        let last = list.last();
        assert(list[n] == last);
        lemma_resolved(infos, head, y);
        lemma_info_names(infos, last);
        lemma_push_contains(resolved(names, head), names[last]);
        if one_is_named(infos, head, y) {
            let (j, k) = choose|j: int, k: int|
                #![trigger infos[j], head[k]]
                0 <= j < infos.len() && 0 <= k < head.len() && infos[j].index == y
                    && infos[j].name@ == head[k];
            assert(list[k] == head[k]);
            assert(infos[j].index == y);
        }
        if names.contains_key(last) && names[last] == y {
            let j = choose|j: int| 0 <= j < infos.len() && (#[trigger] infos[j]).name@ == last;
            assert(infos[j].index == y && infos[j].name@ == list[n]);
        }
        if one_is_named(infos, list, y) {
            let (j, k) = choose|j: int, k: int|
                #![trigger infos[j], list[k]]
                0 <= j < infos.len() && 0 <= k < list.len() && infos[j].index == y
                    && infos[j].name@ == list[k];
            if k < n {
                assert(head[k] == list[k]);
                assert(infos[j].index == y && infos[j].name@ == head[k]);
                assert(one_is_named(infos, head, y));
            } else {
                assert(infos[j].name@ == last);
            }
        }
    } else {
        assert(!resolved(names, list).contains(y));
    }
}

proof fn lemma_ascending_order(s: Seq<u32>, y: u32)
    ensures
        ascending_order(s).contains(y) <==> s.contains(y),
        ascending_order(s).contains(y) ==> (first_of(ascending_order(s)) matches Some(f) && f <= y),
        first_of(ascending_order(s)) matches Some(f) ==> s.contains(f),
{
    broadcast use vstd::seq_lib::group_to_multiset_ensures;

    let leq = |a: u32, b: u32| a <= b;
    assert(vstd::relations::total_ordering(leq));
    let w = s.sort_by(leq);
    s.lemma_sort_by_ensures(leq);
    assert(w.contains(y) <==> w.to_multiset().count(y) > 0);
    assert(s.contains(y) <==> s.to_multiset().count(y) > 0);
    if w.contains(y) {
        let k = choose|k: int| 0 <= k < w.len() && w[k] == y;
        if k > 0 {
            assert(leq(w[0], w[k]));
        }
    }
    if w.len() > 0 {
        let f = w[0];
        assert(w.contains(f));
        assert(w.contains(f) <==> w.to_multiset().count(f) > 0);
        assert(s.contains(f) <==> s.to_multiset().count(f) > 0);
    }
}

proof fn lemma_device_for(devs: Seq<DeviceReading>, k: int)
    requires
        0 <= k < devs.len(),
        forall|j: int| 0 <= j < k ==> (#[trigger] devs[j]).name@ != devs[k].name@,
    ensures
        device_for(devs, devs[k].name@) == Some(devs[k]),
    decreases devs.len(),
{
    if k > 0 {
        let rest = devs.skip(1);
        assert(devs[0].name@ != devs[k].name@);
        assert forall|j: int| 0 <= j < k - 1 implies (#[trigger] rest[j]).name@
            != rest[k - 1].name@ by {
            assert(rest[j] == devs[j + 1]);
        }
        assert(rest[k - 1] == devs[k]);
        lemma_device_for(rest, k - 1);
    }
}

/// The number that a small file holds.
pub open spec fn number_held(text: Option<String>) -> Option<nat> {
    match text {
        Some(t) => number_up_to(trim(t@), u32::MAX as nat),
        None => None,
    }
}

/// What an interface takes from its device's directory, the first one read under
/// its name, as long as that directory still answers for it and there can be a
/// device at all: how many virtual functions it hands out, its driver, the
/// interfaces of its physical function - the lowest-numbered stands for them -
/// and, where it hands any out, those of its virtual functions. Otherwise it
/// takes nothing.
pub proof fn a_device_is_believed_where_it_answers(
    infos: Seq<LinkInfo>,
    devs: Seq<DeviceReading>,
    i: int,
    k: int,
    y: u32,
)
    requires
        told_apart(infos),
        0 <= i < infos.len(),
        0 <= k < devs.len(),
        devs[k].name@ == infos[i].name@,
        forall|j: int| 0 <= j < k ==> (#[trigger] devs[j]).name@ != devs[k].name@,
    ensures
        ({
            let l = infos[i];
            let d = devs[k];
            let x = host_of(infos, devs).links[l.index];
            let answers = number_held(d.ifindex) == Some(l.index as nat) && if exists|j: int|
                0 <= j < infos.len() && (#[trigger] infos[j]).parent_dev is Some {
                l.parent_dev is Some
            } else {
                l.kind is None && d.is_dir
            };
            &&& answers ==> {
                &&& match number_held(d.sriov_numvfs) {
                    Some(n) => x.numvfs == n,
                    None => x.numvfs == 0,
                }
                &&& x.driver == match d.driver {
                    Some(s) => Some(s@),
                    None => None,
                }
                &&& x.pf_netdevs.contains(y) <==> one_is_named(infos, texts(d.physfn_net@), y)
                &&& x.pf_netdevs.contains(y) ==> (x.physfn matches Some(f) && f <= y)
                &&& x.physfn matches Some(f) ==> one_is_named(infos, texts(d.physfn_net@), f)
                &&& x.vf_netdevs.contains(y) <==> x.numvfs > 0 && one_is_named(
                    infos,
                    texts(d.virtfn_net@),
                    y,
                )
            }
            &&& !answers ==> x.numvfs == 0 && x.driver is None && x.physfn is None
                && x.pf_netdevs.len() == 0 && x.vf_netdevs.len() == 0
        }),
{
    let bare = dumped_links(infos, devs);
    let ls = with_ports(bare);
    let l = infos[i];
    let d = devs[k];
    let names = info_names(infos);
    the_picture_shows_the_dump(infos, devs, i, y);
    lemma_device_for(devs, k);
    assert(bare[i] == dumped_link(names, names_parents(infos), l, devs));
    lemma_last_with(ls, l.index);
    assert forall|j: int| 0 <= j < infos.len() implies (#[trigger] ls[j]).index
        == infos[j].index by {
        assert(bare[j] == dumped_link(names, names_parents(infos), infos[j], devs));
    }
    assert(ls[i].index == l.index);
    let q = choose|q: int|
        0 <= q < ls.len() && #[trigger] ls[q] == last_with(ls, l.index)->0 && ls[q].index
            == l.index && is_last(ls, q);
    assert(infos[q].index == l.index);
    assert(q == i);
    lemma_resolved(infos, texts(d.physfn_net@), y);
    lemma_resolved(infos, texts(d.virtfn_net@), y);
    let pfs = resolved(names, texts(d.physfn_net@));
    lemma_ascending_order(pfs, y);
    if let Some(f) = first_of(ascending_order(pfs)) {
        lemma_resolved(infos, texts(d.physfn_net@), f);
    }
}

} // verus!
