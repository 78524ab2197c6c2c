//! The picture of a host, and what can be read out of it.

use sriov_mac_sync::netlink::LinkInfo;
use sriov_mac_sync::topology::assemble::DeviceReading;
use sriov_mac_sync::topology::walk::SysReading;
use sriov_mac_sync::topology::{Link, Topology};

fn mac(last: u8) -> [u8; 6] {
    [0x00, 0x11, 0x22, 0x33, 0x44, last]
}

/// Builds a topology from names: indices once it is built.
struct Builder {
    links: Vec<Link>,
    names: Vec<Names>,
}

#[derive(Default)]
struct Names {
    master: Option<String>,
    lowers: Vec<String>,
    physfn: Option<String>,
    pf_netdevs: Vec<String>,
    vf_netdevs: Vec<String>,
    filter_below: Option<String>,
}

fn blank(name: &str, index: u32, mac: Option<[u8; 6]>) -> Link {
    Link {
        name: name.to_string(),
        index,
        mac,
        master: None,
        lowers: Vec::new(),
        filter_below: None,
        is_bridge: false,
        ageing_ms: None,
        numvfs: 0,
        driver: None,
        physfn: None,
        pf_netdevs: Vec::new(),
        vf_netdevs: Vec::new(),
        uppers: Vec::new(),
        slaves: Vec::new(),
    }
}

impl Builder {
    fn new() -> Self {
        Builder { links: Vec::new(), names: Vec::new() }
    }

    fn add(mut self, name: &str, index: u32, mac: Option<[u8; 6]>) -> Self {
        self.links.push(blank(name, index, mac));
        self.names.push(Names::default());
        self
    }

    fn last(&mut self) -> &mut Link {
        self.links.last_mut().expect("add a link first")
    }

    fn last_names(&mut self) -> &mut Names {
        self.names.last_mut().expect("add a link first")
    }

    fn bridge(mut self) -> Self {
        self.last().is_bridge = true;
        self.last().ageing_ms = Some(300_000);
        self
    }

    fn master(mut self, m: &str) -> Self {
        self.last_names().master = Some(m.to_string());
        self
    }

    fn lower(mut self, l: &str) -> Self {
        self.last_names().lowers.push(l.to_string());
        self
    }

    fn vfs(mut self, n: u32) -> Self {
        self.last().numvfs = n;
        self
    }

    fn physfn(mut self, pf: &str) -> Self {
        self.last_names().physfn = Some(pf.to_string());
        self
    }

    fn pf_netdevs(mut self, pfs: &[&str]) -> Self {
        self.last_names().pf_netdevs = pfs.iter().map(|p| p.to_string()).collect();
        self
    }

    /// A VLAN interface on `parent`: stacked, and writing into the filter below.
    fn vlan_on(mut self, parent: &str) -> Self {
        self.last_names().lowers.push(parent.to_string());
        self.last_names().filter_below = Some(parent.to_string());
        self
    }

    /// A virtual function's netdev still bound on the host.
    fn vf_netdev(mut self, vf: &str) -> Self {
        self.last_names().vf_netdevs.push(vf.to_string());
        self
    }

    fn build(self) -> Topology {
        let known: Vec<(String, u32)> =
            self.links.iter().map(|l| (l.name.clone(), l.index)).collect();
        let idx = |n: &String| known.iter().rev().find(|(k, _)| k == n).map(|(_, i)| *i);
        let links: Vec<Link> = self
            .links
            .into_iter()
            .zip(self.names)
            .map(|(mut l, n)| {
                l.master = n.master.as_ref().and_then(&idx);
                l.lowers = n.lowers.iter().filter_map(&idx).collect();
                l.filter_below = n.filter_below.as_ref().and_then(&idx);
                let pf_names: Vec<String> = if n.pf_netdevs.is_empty() {
                    n.physfn.iter().cloned().collect()
                } else {
                    n.pf_netdevs.clone()
                };
                l.pf_netdevs = pf_names.iter().filter_map(&idx).collect();
                l.pf_netdevs.sort_unstable();
                if let Some(&first) = l.pf_netdevs.first() {
                    l.physfn = Some(first);
                }
                l.vf_netdevs = n.vf_netdevs.iter().filter_map(&idx).collect();
                l
            })
            .collect();
        Topology::assemble(links)
    }
}

fn index(t: &Topology, name: &str) -> Option<u32> {
    t.index_of(&name.to_string())
}

fn leads(t: &Topology, dev: &str, target: &str) -> bool {
    let (Some(d), Some(g)) = (index(t, dev), index(t, target)) else {
        return false;
    };
    t.leads_to(d, g)
}

fn above(t: &Topology, dev: &str) -> Option<(String, String)> {
    let (br, port) = t.bridge_above(index(t, dev)?)?;
    Some((t.name_of(br)?.to_string(), t.name_of(port)?.to_string()))
}

fn port_of(t: &Topology, dev: &str, bridge: &str) -> Option<String> {
    let d = index(t, dev).expect("no such device");
    let b = index(t, bridge).unwrap_or(0);
    t.uplink_port(d, b).and_then(|p| t.name_of(p)).map(|n| n.to_string())
}

fn below(t: &Topology, dev: &str) -> Vec<[u8; 6]> {
    t.subtree_macs(index(t, dev).expect("no such device"))
}

/// A bridge with two NICs, a VLAN interface on top of it and a second
/// bridge on top of that - the shape a Proxmox SDN host has.
fn stacked() -> Topology {
    Builder::new()
        .add("nic1", 2, Some(mac(1)))
        .master("vmbr1")
        .vfs(1)
        .add("nic2", 3, Some(mac(2)))
        .master("vmbr1")
        .add("vmbr1", 10, Some(mac(1)))
        .bridge()
        .lower("nic1")
        .lower("nic2")
        .add("vmbr1.44", 11, Some(mac(1)))
        .master("IOT")
        .lower("vmbr1")
        .add("IOT", 12, Some(mac(1)))
        .bridge()
        .lower("vmbr1.44")
        .lower("veth0")
        .add("veth0", 13, Some(mac(0x13)))
        .master("IOT")
        .build()
}

#[test]
fn topology_leads_to_follows_stacking_upwards() {
    let t = stacked();
    assert!(
        leads(&t, "vmbr1.44", "vmbr1"),
        "a VLAN interface on the bridge"
    );
    assert!(leads(&t, "IOT", "vmbr1"), "a bridge on that VLAN interface");
    assert!(leads(&t, "vmbr1", "vmbr1"), "itself");
    assert!(!leads(&t, "nic2", "vmbr1"), "a port is below, not above");
    assert!(!leads(&t, "veth0", "vmbr1"), "a guest port is below too");
}

#[test]
fn topology_a_port_enslaved_directly_is_its_own_uplink() {
    let t = stacked();
    assert_eq!(above(&t, "nic1"), Some(("vmbr1".into(), "nic1".into())));
    assert_eq!(port_of(&t, "nic1", "vmbr1").as_deref(), Some("nic1"));
}

#[test]
fn topology_a_bond_is_followed_to_the_bridge_above_it() {
    let t = Builder::new()
        .add("nic1", 2, Some(mac(1)))
        .master("bond0")
        .vfs(2)
        .add("nic1b", 3, Some(mac(2)))
        .master("bond0")
        .add("bond0", 4, Some(mac(1)))
        .master("br0")
        .lower("nic1")
        .lower("nic1b")
        .add("br0", 10, Some(mac(1)))
        .bridge()
        .lower("bond0")
        .build();
    assert_eq!(above(&t, "nic1"), Some(("br0".into(), "bond0".into())));
    assert_eq!(
        port_of(&t, "nic1", "br0").as_deref(),
        Some("bond0"),
        "the bond is the port"
    );

    // every member faces the wire, so every member's address is the host's
    let mut macs = below(&t, "bond0");
    macs.sort();
    assert_eq!(macs, vec![mac(1), mac(1), mac(2)]);
}

#[test]
fn topology_uplink_port_refuses_a_bridge_the_device_is_not_under() {
    let t = stacked();
    // It used to answer `dev` here, and a pass took that for the wire
    // port - whereupon nothing was wire and the cable's peers were
    // registered. The honest answer is that there is no port.
    assert_eq!(port_of(&t, "nic1", "IOT"), None);
}

#[test]
fn topology_autodetect_wants_vfs_and_a_bridge() {
    let t = Builder::new()
        .add("withvfs", 2, Some(mac(1)))
        .master("br0")
        .vfs(1)
        .add("novfs", 3, Some(mac(2)))
        .master("br0")
        .add("loose", 4, Some(mac(3)))
        .vfs(4)
        .add("br0", 10, Some(mac(1)))
        .bridge()
        .lower("withvfs")
        .lower("novfs")
        .build();
    let (pairs, skipped) = t.autodetect();
    assert_eq!(pairs, vec![("withvfs".to_string(), "br0".to_string())]);
    assert!(
        skipped.iter().any(|s| s.contains("loose")),
        "a NIC with VFs but no bridge is reported, not silently dropped"
    );
}

#[test]
fn topology_autodetect_takes_a_vf_that_carries_the_bridge() {
    let t = Builder::new()
        .add("nic1", 2, Some(mac(1)))
        .vfs(2)
        .add("nic1v0", 3, Some(mac(2)))
        .physfn("nic1")
        .add("nic1v1", 4, Some(mac(3)))
        .physfn("nic1")
        .master("br0")
        .add("br0", 10, Some(mac(3)))
        .bridge()
        .lower("nic1v1")
        .build();
    let (pairs, skipped) = t.autodetect();
    assert_eq!(pairs, vec![("nic1v1".to_string(), "br0".to_string())]);
    assert!(
        !skipped.iter().any(|s| s.contains("nic1v0")),
        "a VF sitting idle belongs to a guest and is not a finding"
    );
    assert!(
        skipped.iter().any(|s| s.contains("skip nic1:")),
        "the PF itself has VFs and no bridge, which is worth saying"
    );
}

#[test]
fn topology_autodetect_leaves_a_vf_alone_when_its_pf_holds_the_bridge() {
    let t = Builder::new()
        .add("nic1", 2, Some(mac(1)))
        .vfs(2)
        .master("br0")
        .add("nic1v0", 3, Some(mac(2)))
        .physfn("nic1")
        .master("br0")
        .add("br0", 10, Some(mac(1)))
        .bridge()
        .lower("nic1")
        .lower("nic1v0")
        .build();
    let (pairs, skipped) = t.autodetect();
    assert_eq!(pairs, vec![("nic1".to_string(), "br0".to_string())]);
    assert!(
        skipped
            .iter()
            .any(|s| s.contains("nic1v0") && s.contains("already carries")),
        "two vports must not claim the same addresses"
    );
}

/// The same rule on a card whose four ports share one PCI function, where
/// `physfn` names an arbitrary one of them. The port holding the bridge
/// is deliberately the last, so a check that asks only the first is
/// answered "no conflict" and takes the VF - the failure this guards.
#[test]
fn topology_autodetect_asks_every_port_of_a_shared_function() {
    let t = Builder::new()
        .add("pf0", 2, Some(mac(1)))
        .vfs(4)
        .add("pf1", 3, Some(mac(2)))
        .vfs(4)
        .add("pf2", 4, Some(mac(3)))
        .vfs(4)
        .add("pf3", 5, Some(mac(4)))
        .vfs(4)
        .master("br0")
        .add("pf3v0", 6, Some(mac(5)))
        .pf_netdevs(&["pf0", "pf1", "pf2", "pf3"])
        .master("br0")
        .add("br0", 10, Some(mac(4)))
        .bridge()
        .lower("pf3")
        .lower("pf3v0")
        .build();
    let (pairs, skipped) = t.autodetect();
    assert_eq!(
        pairs,
        vec![("pf3".to_string(), "br0".to_string())],
        "the physical function keeps the bridge"
    );
    assert!(
        skipped
            .iter()
            .any(|s| s.contains("pf3v0") && s.contains("already carries")),
        "the VF must be declined: a netdev of its own function - the \
         fourth, not the first - already carries that bridge"
    );
}

/// Which interface really holds a filter. A VLAN interface has none of
/// its own - the kernel keeps its entries on the interface below - while
/// a bond has one per member and carries its own. Both relations arrive
/// as `lowers`, so telling them apart is the whole point.
#[test]
fn a_vlan_shares_the_filter_below_it_but_a_bond_does_not() {
    let t = Builder::new()
        .add("nic1", 2, Some(mac(1)))
        .vfs(1)
        .add("nic1.100", 20, Some(mac(1)))
        .master("br100")
        .vlan_on("nic1")
        .add("nic1.200", 21, Some(mac(1)))
        .master("br200")
        .vlan_on("nic1")
        .add("br100", 30, Some(mac(1)))
        .bridge()
        .lower("nic1.100")
        .add("br200", 31, Some(mac(1)))
        .bridge()
        .lower("nic1.200")
        .add("nic2", 3, Some(mac(2)))
        .master("bond0")
        .add("bond0", 4, Some(mac(2)))
        .lower("nic2")
        .build();
    let idx = |n: &str| index(&t, n).unwrap();
    assert_eq!(
        t.filter_carrier(idx("nic1.100")),
        idx("nic1"),
        "a VLAN interface writes into the filter of the interface below"
    );
    assert_eq!(
        t.filter_carrier(idx("nic1.200")),
        idx("nic1"),
        "both VLANs of one function share one filter"
    );
    assert_eq!(
        t.filter_carrier(idx("nic1")),
        idx("nic1"),
        "an unstacked interface carries its own"
    );
    assert_eq!(
        t.filter_carrier(idx("bond0")),
        idx("bond0"),
        "a bond is not stacked on its member: each member has a filter, \
         and the kernel spreads the entries over them"
    );
}

/// A virtual function that reaches its bridge through a VLAN interface.
/// The VLAN interface is what sits in the bridge, so that is the uplink;
/// without this the host has to be configured by hand and loses the
/// orphan sweep with it.
#[test]
fn autodetect_finds_an_uplink_that_hangs_in_through_a_vlan() {
    let t = Builder::new()
        .add("nic1", 2, Some(mac(1)))
        .vfs(2)
        .add("nic1.100", 20, Some(mac(1)))
        .master("br100")
        .vlan_on("nic1")
        .add("nic1.200", 21, Some(mac(1)))
        .master("br200")
        .vlan_on("nic1")
        .add("br100", 30, Some(mac(1)))
        .bridge()
        .lower("nic1.100")
        .add("br200", 31, Some(mac(1)))
        .bridge()
        .lower("nic1.200")
        .build();
    let (pairs, _) = t.autodetect();
    assert_eq!(
        pairs,
        vec![
            ("nic1.100".to_string(), "br100".to_string()),
            ("nic1.200".to_string(), "br200".to_string())
        ],
        "both VLAN interfaces are uplinks in their own right"
    );
}

/// 1a: a tunnel stacked on a VF is not a VLAN. Its guests never reach
/// the underlay, so it neither shares the VF's filter nor is an uplink.
#[test]
fn a_tunnel_over_a_vf_is_neither_carrier_nor_uplink() {
    let t = Builder::new()
        .add("nic1", 2, Some(mac(1)))
        .vfs(1)
        .vf_netdev("nic1v0")
        .add("nic1v0", 3, Some(mac(3)))
        .physfn("nic1")
        .pf_netdevs(&["nic1"])
        .add("vx0", 20, Some(mac(20)))
        .master("br0")
        .lower("nic1v0")
        .add("br0", 30, Some(mac(30)))
        .bridge()
        .lower("vx0")
        .build();
    let idx = |n: &str| index(&t, n).unwrap();
    assert_eq!(
        t.filter_carrier(idx("vx0")),
        idx("vx0"),
        "a tunnel holds no filter below"
    );
    let (pairs, _) = t.autodetect();
    assert!(pairs.is_empty(), "a tunnel is no uplink, got {pairs:?}");
}

/// 1b: the sister rule judges by the card, not by the interface in the
/// bridge. A VLAN of a VF must decline a bridge its PF already carries -
/// asked of the VLAN interface, whose netdev list is empty, the rule
/// let it through.
#[test]
fn a_vlan_uplink_declines_a_bridge_its_pf_carries() {
    // The PF sorts AFTER the VLAN interface on purpose: the "already
    // taken" rule must not be what catches this, only the PF rule can.
    let t = Builder::new()
        .add("pf9", 2, Some(mac(1)))
        .master("br0")
        .vfs(1)
        .vf_netdev("pf9v0")
        .add("pf9v0", 3, Some(mac(3)))
        .physfn("pf9")
        .pf_netdevs(&["pf9"])
        .add("pf9v0.7", 20, Some(mac(3)))
        .master("br0")
        .vlan_on("pf9v0")
        .add("br0", 30, Some(mac(30)))
        .bridge()
        .lower("pf9")
        .lower("pf9v0.7")
        .build();
    let (pairs, skipped) = t.autodetect();
    assert_eq!(pairs, vec![("pf9".to_string(), "br0".to_string())]);
    assert!(
        skipped
            .iter()
            .any(|s| s.starts_with("skip pf9v0.7: pf9 already carries")),
        "{skipped:?}"
    );
}

/// 1c: a bond has no card of its own but every member's. Named as an
/// uplink by hand, its exclusion set has to reach the sister VFs of
/// each member's function - the worst failure direction this program
/// has ran through the bond, which answered with an empty list.
#[test]
fn a_bond_answers_with_its_members_functions() {
    let t = Builder::new()
        .add("nic1", 2, Some(mac(1)))
        .vfs(2)
        .vf_netdev("nic1v0")
        .add("nic2", 4, Some(mac(2)))
        .vfs(2)
        .vf_netdev("nic2v0")
        .add("nic1v0", 3, Some(mac(3)))
        .master("bond0")
        .physfn("nic1")
        .pf_netdevs(&["nic1"])
        .add("nic2v0", 5, Some(mac(5)))
        .master("bond0")
        .physfn("nic2")
        .pf_netdevs(&["nic2"])
        .add("bond0", 10, Some(mac(3)))
        .master("br0")
        .lower("nic1v0")
        .lower("nic2v0")
        .add("br0", 30, Some(mac(30)))
        .bridge()
        .lower("bond0")
        .build();
    let idx = |n: &str| index(&t, n).unwrap();
    assert_eq!(
        t.physical_functions(idx("bond0")),
        vec![idx("nic1"), idx("nic2")]
    );
    let anat = t.anatomy(idx("bond0"), idx("br0")).unwrap();
    assert_eq!(anat.functions, vec![idx("nic1"), idx("nic2")]);
    assert_eq!(anat.port, idx("bond0"));
}

/// 1d: a VLAN on a bond of VFs. The bond is nobody's card, but there are
/// cards below it, and the VLAN interface is what sits in the bridge.
#[test]
fn autodetect_finds_a_vlan_on_a_bond_of_vfs() {
    let t = Builder::new()
        .add("nic1", 2, Some(mac(1)))
        .vfs(2)
        .vf_netdev("nic1v0")
        .add("nic2", 4, Some(mac(2)))
        .vfs(2)
        .vf_netdev("nic2v0")
        .add("nic1v0", 3, Some(mac(3)))
        .master("bond0")
        .physfn("nic1")
        .pf_netdevs(&["nic1"])
        .add("nic2v0", 5, Some(mac(5)))
        .master("bond0")
        .physfn("nic2")
        .pf_netdevs(&["nic2"])
        .add("bond0", 10, Some(mac(3)))
        .lower("nic1v0")
        .lower("nic2v0")
        .add("bond0.100", 11, Some(mac(3)))
        .master("br100")
        .vlan_on("bond0")
        .add("br100", 30, Some(mac(30)))
        .bridge()
        .lower("bond0.100")
        .build();
    let (pairs, _) = t.autodetect();
    assert_eq!(pairs, vec![("bond0.100".to_string(), "br100".to_string())]);
    let idx = |n: &str| index(&t, n).unwrap();
    let anat = t.anatomy(idx("bond0.100"), idx("br100")).unwrap();
    assert_eq!(
        anat.card,
        idx("bond0"),
        "the filter is the bond's, spread over its members"
    );
    assert_eq!(anat.functions, vec![idx("nic1"), idx("nic2")]);
}

/// 1e: a bond straight in the bridge is still carried by its member
/// VFs, one pair each - the bond itself must not become a third
/// candidate that outranks them by name.
#[test]
fn a_bond_in_a_bridge_is_carried_by_its_members_not_itself() {
    let t = Builder::new()
        .add("nic1", 2, Some(mac(1)))
        .vfs(2)
        .vf_netdev("nic1v0")
        .add("nic2", 4, Some(mac(2)))
        .vfs(2)
        .vf_netdev("nic2v0")
        .add("nic1v0", 3, Some(mac(3)))
        .master("bond0")
        .physfn("nic1")
        .pf_netdevs(&["nic1"])
        .add("nic2v0", 5, Some(mac(5)))
        .master("bond0")
        .physfn("nic2")
        .pf_netdevs(&["nic2"])
        .add("bond0", 10, Some(mac(3)))
        .master("br0")
        .lower("nic1v0")
        .lower("nic2v0")
        .add("br0", 30, Some(mac(30)))
        .bridge()
        .lower("bond0")
        .build();
    let (pairs, _) = t.autodetect();
    assert_eq!(
        pairs,
        vec![
            ("nic1v0".to_string(), "br0".to_string()),
            ("nic2v0".to_string(), "br0".to_string())
        ]
    );
}

#[test]
fn topology_autodetect_reports_the_bond_it_went_through() {
    let t = Builder::new()
        .add("nic1", 2, Some(mac(1)))
        .master("bond0")
        .vfs(1)
        .add("bond0", 4, Some(mac(1)))
        .master("br0")
        .lower("nic1")
        .add("br0", 10, Some(mac(1)))
        .bridge()
        .lower("bond0")
        .build();
    let (pairs, notes) = t.autodetect();
    assert_eq!(pairs, vec![("nic1".to_string(), "br0".to_string())]);
    assert!(notes.iter().any(|s| s.contains("bond0")));
}

#[test]
fn topology_stacking_cycles_do_not_hang() {
    let t = Builder::new()
        .add("a", 1, None)
        .lower("b")
        .add("b", 2, None)
        .lower("a")
        .build();
    assert!(!leads(&t, "a", "zz"));
    assert_eq!(below(&t, "a").len(), 0);
}

/// The kernel counts the ageing time in clock_t - hundredths of a
/// second - and everything above works in milliseconds. The factor is
/// the whole of the conversion, and getting it wrong by ten dates every
/// deletion thirty seconds or fifty minutes into the past instead of
/// five minutes. Both harnesses build their bridges at the default,
/// where the dating provably cannot move a stamp, so nothing else here
/// would notice.
/// Of the stacked kinds only a VLAN writes into the filter below it -
/// a tunnel's guests never reach the underlay. Decided where the kind
/// is still known: on the way in.
#[test]
fn only_a_vlan_shares_the_filter_below_it() {
    let link = |index, name: &str, kind: &str| LinkInfo {
        index,
        name: name.into(),
        mac: None,
        master: None,
        link: Some(2),
        kind: Some(kind.into()),
        parent_dev: None,
        ageing: None,
    };
    let topo = Topology::from_links(&vec![
        LinkInfo {
            index: 2,
            name: "nic1".into(),
            mac: None,
            master: None,
            link: None,
            kind: None,
            parent_dev: None,
            ageing: None,
        },
        link(20, "nic1.100", "vlan"),
        link(21, "vx0", "vxlan"),
        link(22, "mv0", "macvlan"),
    ], &Vec::new());
    assert_eq!(
        topo.at(20).unwrap().filter_below,
        Some(2),
        "a VLAN shares the filter"
    );
    assert_eq!(topo.at(21).unwrap().filter_below, None, "a tunnel does not");
    assert_eq!(
        topo.at(22).unwrap().filter_below,
        None,
        "macvlan is unmeasured, so no"
    );
    assert_eq!(topo.filter_carrier(20), 2);
    assert_eq!(topo.filter_carrier(21), 21);
}

#[test]
fn the_ageing_time_arrives_in_milliseconds() {
    let topo = Topology::from_links(&vec![LinkInfo {
        index: 10,
        name: "vmbr1".into(),
        mac: None,
        master: None,
        link: None,
        kind: Some("bridge".into()),
        parent_dev: None,
        ageing: Some(30_000),
    }], &Vec::new());
    assert_eq!(
        topo.at(10).and_then(|l| l.ageing_ms),
        Some(300_000),
        "30000 clock_t is five minutes, the kernel's default"
    );
    let none = Topology::from_links(&vec![LinkInfo {
        index: 10,
        name: "vmbr1".into(),
        mac: None,
        master: None,
        link: None,
        kind: Some("bridge".into()),
        parent_dev: None,
        ageing: None,
    }], &Vec::new());
    assert_eq!(none.at(10).and_then(|l| l.ageing_ms), None);
}

#[test]
fn every_candidate_is_taken_or_declined_and_an_idle_function_is_no_finding() {
    let t = Builder::new()
        .add("pf0", 2, Some(mac(1)))
        .vfs(2)
        .master("br0")
        .add("pf0v0", 3, Some(mac(2)))
        .pf_netdevs(&["pf0"])
        .master("br0")
        .add("pf0v1", 4, Some(mac(3)))
        .pf_netdevs(&["pf0"])
        .add("pf1", 5, Some(mac(4)))
        .vfs(1)
        .add("veth0", 6, Some(mac(5)))
        .master("br0")
        .add("br0", 10, Some(mac(1)))
        .bridge()
        .lower("pf0")
        .lower("pf0v0")
        .lower("veth0")
        .build();
    let (pairs, skipped) = t.autodetect();
    let taken = |name: &str| pairs.iter().filter(|(dev, _)| dev == name).count();
    let told = |name: &str| skipped.iter().any(|l| l.starts_with(&format!("skip {name}: ")));
    assert_eq!((taken("pf0"), told("pf0")), (1, false), "takes the bridge");
    assert_eq!((taken("pf0v0"), told("pf0v0")), (0, true), "its function has it");
    assert_eq!((taken("pf0v1"), told("pf0v1")), (0, false), "idle, no finding");
    assert_eq!((taken("pf1"), told("pf1")), (0, true), "functions and no bridge");
    assert_eq!((taken("veth0"), told("veth0")), (0, false), "no candidate");
}

/// One host, read twice: as directories and as a dump.
#[test]
fn directories_and_a_dump_of_one_host_agree() {
    let some = |s: &str| Some(s.to_string());
    let reading = |name: &str, index: u32, last: u8, entries: &[&str]| SysReading {
        name: name.to_string(),
        ifindex: Some(format!("{index}\n")),
        address: Some(format!("00:11:22:33:44:{last:02x}\n")),
        master: None,
        is_bridge: false,
        entries: entries.iter().map(|e| e.to_string()).collect(),
        has_device: false,
        sriov_numvfs: None,
        driver: None,
        physfn_net: Vec::new(),
        virtfn_net: Vec::new(),
    };
    let mut br = reading("br0", 10, 9, &["bridge", "lower_pf0.7", "lower_pf0v0", "address"]);
    br.is_bridge = true;
    let mut pf = reading("pf0", 2, 1, &["device"]);
    pf.has_device = true;
    pf.sriov_numvfs = some("2\n");
    pf.driver = some("mlx5_core");
    pf.virtfn_net = vec!["pf0v1".to_string(), "pf0v0".to_string()];
    let mut v0 = reading("pf0v0", 3, 2, &[]);
    v0.master = some("br0");
    v0.has_device = true;
    v0.physfn_net = vec!["pf0".to_string()];
    let mut v1 = reading("pf0v1", 4, 3, &[]);
    v1.has_device = true;
    v1.physfn_net = vec!["pf0".to_string()];
    let mut vlan = reading("pf0.7", 7, 1, &["lower_pf0"]);
    vlan.master = some("br0");
    let mut stray = reading("bonding_masters", 0, 0, &[]);
    stray.ifindex = None;
    let by_walk = Topology::load(&vec![vlan, stray, v1, br, pf, v0]);

    let info = |index: u32, name: &str, last: u8| LinkInfo {
        index,
        name: name.to_string(),
        mac: Some(mac(last)),
        master: None,
        link: None,
        kind: None,
        parent_dev: None,
        ageing: None,
    };
    let device = |name: &str, index: u32| DeviceReading {
        name: name.to_string(),
        is_dir: true,
        ifindex: Some(format!("{index}\n")),
        sriov_numvfs: None,
        driver: None,
        physfn_net: Vec::new(),
        virtfn_net: Vec::new(),
    };
    let mut infos = vec![
        info(2, "pf0", 1),
        info(3, "pf0v0", 2),
        info(4, "pf0v1", 3),
        info(7, "pf0.7", 1),
        info(10, "br0", 9),
    ];
    infos[0].parent_dev = some("0000:01:00.0");
    infos[1].parent_dev = some("0000:01:00.1");
    infos[1].master = Some(10);
    infos[2].parent_dev = some("0000:01:00.2");
    infos[3].kind = some("vlan");
    infos[3].link = Some(2);
    infos[3].master = Some(10);
    infos[4].kind = some("bridge");
    let mut d0 = device("pf0", 2);
    d0.sriov_numvfs = some("2\n");
    d0.driver = some("mlx5_core");
    d0.virtfn_net = vec!["pf0v0".to_string(), "pf0v1".to_string()];
    let mut d1 = device("pf0v0", 3);
    d1.physfn_net = vec!["pf0".to_string()];
    let mut d2 = device("pf0v1", 4);
    d2.physfn_net = vec!["pf0".to_string()];
    let by_dump = Topology::from_links(&infos, &vec![d0, d1, d2]);

    let sorted = |v: &Vec<u32>| {
        let mut v = v.clone();
        v.sort();
        v
    };
    for i in [2, 3, 4, 7, 10] {
        let a = by_walk.at(i).expect("the walk knows it");
        let b = by_dump.at(i).expect("the dump knows it");
        assert_eq!(a.name, b.name);
        assert_eq!(a.mac, b.mac, "{}", a.name);
        assert_eq!(a.master, b.master, "{}", a.name);
        assert_eq!(a.is_bridge, b.is_bridge, "{}", a.name);
        assert_eq!(a.numvfs, b.numvfs, "{}", a.name);
        assert_eq!(a.driver, b.driver, "{}", a.name);
        assert_eq!(a.physfn, b.physfn, "{}", a.name);
        assert_eq!(a.pf_netdevs, b.pf_netdevs, "{}", a.name);
        assert_eq!(sorted(&a.lowers), sorted(&b.lowers), "{}", a.name);
        assert_eq!(sorted(&a.vf_netdevs), sorted(&b.vf_netdevs), "{}", a.name);
    }
    assert_eq!(by_walk.at(2).unwrap().vf_netdevs, vec![4, 3]);
    assert_eq!(sorted(&by_walk.at(10).unwrap().lowers), vec![3, 7]);
}
