//! Reading `/sys/class/net`: what its files say of one interface.

use vstd::prelude::*;

use crate::mac::{mac_of, spelling_is_unique, spells, Mac};
use crate::text::{chars_of, number_up_to, parse_u32, slice_of, string_of, trim, trimmed};
use crate::topology::{copy_name, opt_text};
use crate::topology::detect::texts;

verus! {

/// One directory under `/sys/class/net`, file by file: what could not be read
/// is not there.
pub struct SysReading {
    /// the directory's name
    pub name: String,
    /// the text of `ifindex`
    pub ifindex: Option<String>,
    /// the text of `address`
    pub address: Option<String>,
    /// what `master` points to
    pub master: Option<String>,
    /// whether there is a `bridge` directory
    pub is_bridge: bool,
    /// the names of everything in the directory
    pub entries: Vec<String>,
    /// whether there is a `device` directory
    pub has_device: bool,
    /// the text of `device/sriov_numvfs`
    pub sriov_numvfs: Option<String>,
    /// what `device/driver` points to
    pub driver: Option<String>,
    /// the entries of `device/physfn/net`
    pub physfn_net: Vec<String>,
    /// the entries of `device/virtfn*/net`
    pub virtfn_net: Vec<String>,
}

/// One interface as `/sys/class/net` describes it: its relations are names.
pub struct SysLink {
    pub name: String,
    pub index: u32,
    pub mac: Option<Mac>,
    pub is_bridge: bool,
    pub numvfs: u32,
    pub driver: Option<String>,
    pub master: Option<String>,
    pub lowers: Vec<String>,
    pub pf_netdevs: Vec<String>,
    pub vf_netdevs: Vec<String>,
}

/// What a `SysLink` says.
pub struct SysModel {
    pub name: Seq<char>,
    pub index: u32,
    pub mac: Option<Mac>,
    pub is_bridge: bool,
    pub numvfs: u32,
    pub driver: Option<Seq<char>>,
    pub master: Option<Seq<char>>,
    pub lowers: Seq<Seq<char>>,
    pub pf_netdevs: Seq<Seq<char>>,
    pub vf_netdevs: Seq<Seq<char>>,
}

impl View for SysLink {
    type V = SysModel;

    open spec fn view(&self) -> SysModel {
        SysModel {
            name: self.name@,
            index: self.index,
            mac: self.mac,
            is_bridge: self.is_bridge,
            numvfs: self.numvfs,
            driver: opt_text(self.driver),
            master: opt_text(self.master),
            lowers: texts(self.lowers@),
            pf_netdevs: texts(self.pf_netdevs@),
            vf_netdevs: texts(self.vf_netdevs@),
        }
    }
}

/// The number a small file holds, if it holds one.
pub open spec fn file_number(text: Option<String>) -> Option<nat> {
    match text {
        Some(t) => number_up_to(trim(t@), u32::MAX as nat),
        None => None,
    }
}

/// The number a small file holds, if it holds one.
pub(crate) fn read_number(text: &Option<String>) -> (r: Option<u32>)
    ensures
        match file_number(*text) {
            Some(n) => r == Some(n as u32),
            None => r is None,
        },
{
    match text {
        Some(t) => parse_u32(&trimmed(&chars_of(t))),
        None => None,
    }
}

/// The address that a small file spells, if it spells one.
pub open spec fn file_mac(text: Option<String>) -> Option<Mac> {
    match text {
        Some(t) => if exists|m: Mac| spells(trim(t@), m) {
            Some(choose|m: Mac| spells(trim(t@), m))
        } else {
            None
        },
        None => None,
    }
}

fn read_mac(text: &Option<String>) -> (r: Option<Mac>)
    ensures
        r == file_mac(*text),
{
    match text {
        Some(t) => {
            let r = mac_of(&trimmed(&chars_of(t)));
            proof {
                if let Some(m) = r {
                    spelling_is_unique(trim(t@), m, choose|x: Mac| spells(trim(t@), x));
                }
            }
            r
        },
        None => None,
    }
}

/// How the link to something an interface is built on begins.
pub open spec fn lower_prefix() -> Seq<char> {
    "lower_"@
}

/// Whether a text begins with another one.
pub open spec fn begins(t: Seq<char>, head: Seq<char>) -> bool {
    head.len() <= t.len() && t.take(head.len() as int) == head
}

/// What the entries of a directory say an interface is built on.
pub open spec fn lowers_among(entries: Seq<Seq<char>>) -> Seq<Seq<char>>
    decreases entries.len(),
{
    if entries.len() == 0 {
        Seq::empty()
    } else if begins(entries.last(), lower_prefix()) {
        lowers_among(entries.drop_last()).push(entries.last().skip(lower_prefix().len() as int))
    } else {
        lowers_among(entries.drop_last())
    }
}

/// Whether a text begins with another one.
fn starts(t: &Vec<char>, head: &Vec<char>) -> (r: bool)
    ensures
        r == begins(t@, head@),
{
    if t.len() < head.len() {
        return false;
    }
    let mut i: usize = 0;
    while i < head.len()
        invariant
            i <= head@.len() <= t@.len(),
            forall|j: int| 0 <= j < i ==> t@[j] == head@[j],
        decreases head@.len() - i,
    {
        if t[i] != head[i] {
            assert(t@.take(head@.len() as int)[i as int] != head@[i as int]);
            return false;
        }
        i += 1;
    }
    assert(t@.take(head@.len() as int) =~= head@);
    true
}

/// Whether an entry of a device directory stands for one of its virtual
/// functions.
pub fn is_virtual_function(entry: &String) -> (r: bool)
    ensures
        r == begins(entry@, "virtfn"@),
{
    starts(&chars_of(entry), &chars_of("virtfn"))
}

fn read_lowers(entries: &Vec<String>) -> (r: Vec<String>)
    ensures
        texts(r@) == lowers_among(texts(entries@)),
{
    let ghost all = texts(entries@);
    let head = chars_of("lower_");
    let mut out: Vec<String> = Vec::new();
    let mut i: usize = 0;
    assert(all.take(0) =~= Seq::empty());
    assert(texts(out@) =~= Seq::empty());
    while i < entries.len()
        invariant
            all == texts(entries@),
            head@ == lower_prefix(),
            i <= entries@.len(),
            texts(out@) == lowers_among(all.take(i as int)),
        decreases entries@.len() - i,
    {
        let e = chars_of(&entries[i]);
        proof {
            let next = all.take(i + 1);
            assert(next.drop_last() =~= all.take(i as int));
            assert(next.last() == e@);
        }
        if starts(&e, &head) {
            let rest = string_of(&slice_of(&e, head.len(), e.len()));
            let ghost before = out@;
            assert(rest@ =~= e@.skip(head@.len() as int));
            assert(texts(before.push(rest)) =~= texts(before).push(rest@));
            out.push(rest);
        }
        i += 1;
    }
    assert(all.take(i as int) =~= all);
    out
}

/// What a directory says of its interface; nothing where it does not say which
/// interface that is. Only a device has a driver, and only one that hands out
/// virtual functions has them walked.
pub open spec fn sys_read(r: SysReading) -> Option<SysModel> {
    match file_number(r.ifindex) {
        Some(n) => {
            let numvfs = match file_number(r.sriov_numvfs) {
                Some(v) => if r.has_device {
                    v as u32
                } else {
                    0
                },
                None => 0,
            };
            Some(
                SysModel {
                    name: r.name@,
                    index: n as u32,
                    mac: file_mac(r.address),
                    is_bridge: r.is_bridge,
                    numvfs,
                    driver: if r.has_device {
                        opt_text(r.driver)
                    } else {
                        None
                    },
                    master: opt_text(r.master),
                    lowers: lowers_among(texts(r.entries@)),
                    pf_netdevs: if r.has_device {
                        texts(r.physfn_net@)
                    } else {
                        Seq::empty()
                    },
                    vf_netdevs: if numvfs > 0 {
                        texts(r.virtfn_net@)
                    } else {
                        Seq::empty()
                    },
                },
            )
        },
        None => None,
    }
}

fn copy_names(v: &Vec<String>) -> (r: Vec<String>)
    ensures
        texts(r@) == texts(v@),
{
    let mut out: Vec<String> = Vec::new();
    let mut i: usize = 0;
    while i < v.len()
        invariant
            i <= v@.len(),
            out@.len() == i,
            forall|j: int| 0 <= j < i ==> (#[trigger] out@[j])@ == v@[j]@,
        decreases v@.len() - i,
    {
        out.push(v[i].clone());
        i += 1;
    }
    assert(texts(out@) =~= texts(v@));
    out
}

fn no_names() -> (r: Vec<String>)
    ensures
        texts(r@) == Seq::<Seq<char>>::empty(),
{
    let r: Vec<String> = Vec::new();
    assert(texts(r@) =~= Seq::empty());
    r
}

fn read_sys(r: &SysReading) -> (x: Option<SysLink>)
    ensures
        match x {
            Some(l) => sys_read(*r) == Some(l@),
            None => sys_read(*r) is None,
        },
{
    let index: u32 = match read_number(&r.ifindex) {
        Some(n) => n,
        None => return None,
    };
    let numvfs: u32 = match read_number(&r.sriov_numvfs) {
        Some(v) => if r.has_device {
            v
        } else {
            0
        },
        None => 0,
    };
    Some(
        SysLink {
            name: r.name.clone(),
            index,
            mac: read_mac(&r.address),
            is_bridge: r.is_bridge,
            numvfs,
            driver: if r.has_device {
                copy_name(&r.driver)
            } else {
                None
            },
            master: copy_name(&r.master),
            lowers: read_lowers(&r.entries),
            pf_netdevs: if r.has_device {
                copy_names(&r.physfn_net)
            } else {
                no_names()
            },
            vf_netdevs: if numvfs > 0 {
                copy_names(&r.virtfn_net)
            } else {
                no_names()
            },
        },
    )
}

/// What a walk over `/sys/class/net` found, in its order.
pub open spec fn sys_walked(v: Seq<SysReading>) -> Seq<SysModel>
    decreases v.len(),
{
    if v.len() == 0 {
        Seq::empty()
    } else {
        match sys_read(v.last()) {
            Some(m) => sys_walked(v.drop_last()).push(m),
            None => sys_walked(v.drop_last()),
        }
    }
}

/// What the links in a list say.
pub open spec fn sys_models(v: Seq<SysLink>) -> Seq<SysModel> {
    v.map_values(|l: SysLink| l@)
}

/// What a walk over `/sys/class/net` found, in its order.
pub(crate) fn walk(readings: &Vec<SysReading>) -> (r: Vec<SysLink>)
    ensures
        sys_models(r@) == sys_walked(readings@),
{
    let ghost all = readings@;
    let mut out: Vec<SysLink> = Vec::new();
    let mut i: usize = 0;
    assert(all.take(0) =~= Seq::empty());
    assert(sys_models(out@) =~= Seq::empty());
    while i < readings.len()
        invariant
            all == readings@,
            i <= all.len(),
            sys_models(out@) == sys_walked(all.take(i as int)),
        decreases all.len() - i,
    {
        proof {
            let next = all.take(i + 1);
            assert(next.drop_last() =~= all.take(i as int));
            assert(next.last() == all[i as int]);
        }
        if let Some(l) = read_sys(&readings[i]) {
            let ghost before = out@;
            assert(sys_models(before.push(l)) =~= sys_models(before).push(l@));
            out.push(l);
        }
        i += 1;
    }
    assert(all.take(i as int) =~= all);
    out
}

} // verus!
