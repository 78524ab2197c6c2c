//! The picture as a walk over `/sys/class/net` finds it.

use sriov_mac_sync::sysfs::{Link, Topology};

fn mac(last: u8) -> [u8; 6] {
    [0x00, 0x11, 0x22, 0x33, 0x44, last]
}

/// Builds a topology from names: indices once it is built.
struct Builder {
    links: Vec<Link>,
    names: Vec<Names>,
}

#[derive(Default)]
struct Names {
    master: Option<String>,
    lowers: Vec<String>,
    physfn: Option<String>,
    pf_netdevs: Vec<String>,
}

fn blank(name: &str, index: u32, mac: Option<[u8; 6]>) -> Link {
    Link {
        name: name.to_string(),
        index,
        mac,
        master: None,
        lowers: Vec::new(),
        is_bridge: false,
        numvfs: 0,
        driver: None,
        physfn: None,
        pf_netdevs: Vec::new(),
        vf_netdevs: Vec::new(),
        uppers: Vec::new(),
        slaves: Vec::new(),
    }
}

impl Builder {
    fn new() -> Self {
        Builder { links: Vec::new(), names: Vec::new() }
    }

    fn add(mut self, name: &str, index: u32, mac: Option<[u8; 6]>) -> Self {
        self.links.push(blank(name, index, mac));
        self.names.push(Names::default());
        self
    }

    fn last(&mut self) -> &mut Link {
        self.links.last_mut().expect("add a link first")
    }

    fn last_names(&mut self) -> &mut Names {
        self.names.last_mut().expect("add a link first")
    }

    fn bridge(mut self) -> Self {
        self.last().is_bridge = true;
        self
    }

    fn master(mut self, m: &str) -> Self {
        self.last_names().master = Some(m.to_string());
        self
    }

    fn lower(mut self, l: &str) -> Self {
        self.last_names().lowers.push(l.to_string());
        self
    }

    fn vfs(mut self, n: u32) -> Self {
        self.last().numvfs = n;
        self
    }

    fn physfn(mut self, pf: &str) -> Self {
        self.last_names().physfn = Some(pf.to_string());
        self
    }

    fn pf_netdevs(mut self, pfs: &[&str]) -> Self {
        self.last_names().pf_netdevs = pfs.iter().map(|p| p.to_string()).collect();
        self
    }

    fn build(self) -> Topology {
        let known: Vec<(String, u32)> =
            self.links.iter().map(|l| (l.name.clone(), l.index)).collect();
        let idx = |n: &String| known.iter().rev().find(|(k, _)| k == n).map(|(_, i)| *i);
        let links: Vec<Link> = self
            .links
            .into_iter()
            .zip(self.names)
            .map(|(mut l, n)| {
                l.master = n.master.as_ref().and_then(&idx);
                l.lowers = n.lowers.iter().filter_map(&idx).collect();
                let pf_names: Vec<String> = if n.pf_netdevs.is_empty() {
                    n.physfn.iter().cloned().collect()
                } else {
                    n.pf_netdevs.clone()
                };
                l.pf_netdevs = pf_names.iter().filter_map(&idx).collect();
                l.pf_netdevs.sort_unstable();
                if let Some(&first) = l.pf_netdevs.first() {
                    l.physfn = Some(first);
                }
                l
            })
            .collect();
        Topology::assemble(links)
    }
}

fn index(t: &Topology, name: &str) -> Option<u32> {
    t.index_of(&name.to_string())
}

fn leads(t: &Topology, dev: &str, target: &str) -> bool {
    let (Some(d), Some(g)) = (index(t, dev), index(t, target)) else {
        return false;
    };
    t.leads_to(d, g)
}

fn above(t: &Topology, dev: &str) -> Option<(String, String)> {
    let (br, port) = t.bridge_above(index(t, dev)?)?;
    Some((t.name_of(br)?.to_string(), t.name_of(port)?.to_string()))
}

fn port_of(t: &Topology, dev: &str, bridge: &str) -> Option<String> {
    let d = index(t, dev).expect("no such device");
    let b = index(t, bridge).unwrap_or(0);
    t.uplink_port(d, b).and_then(|p| t.name_of(p)).map(|n| n.to_string())
}

fn below(t: &Topology, dev: &str) -> Vec<[u8; 6]> {
    t.subtree_macs(index(t, dev).expect("no such device"))
}

/// A bridge with two NICs, a VLAN interface on top of it and a second
/// bridge on top of that - the shape a Proxmox SDN host has.
fn stacked() -> Topology {
    Builder::new()
        .add("nic1", 2, Some(mac(1)))
        .master("vmbr1")
        .vfs(1)
        .add("nic2", 3, Some(mac(2)))
        .master("vmbr1")
        .add("vmbr1", 10, Some(mac(1)))
        .bridge()
        .lower("nic1")
        .lower("nic2")
        .add("vmbr1.44", 11, Some(mac(1)))
        .master("IOT")
        .lower("vmbr1")
        .add("IOT", 12, Some(mac(1)))
        .bridge()
        .lower("vmbr1.44")
        .lower("veth0")
        .add("veth0", 13, Some(mac(0x13)))
        .master("IOT")
        .build()
}

#[test]
fn sysfs_leads_to_follows_stacking_upwards() {
    let t = stacked();
    assert!(
        leads(&t, "vmbr1.44", "vmbr1"),
        "a VLAN interface on the bridge"
    );
    assert!(leads(&t, "IOT", "vmbr1"), "a bridge on that VLAN interface");
    assert!(leads(&t, "vmbr1", "vmbr1"), "itself");
    assert!(!leads(&t, "nic2", "vmbr1"), "a port is below, not above");
    assert!(!leads(&t, "veth0", "vmbr1"), "a guest port is below too");
}

#[test]
fn sysfs_a_port_enslaved_directly_is_its_own_uplink() {
    let t = stacked();
    assert_eq!(above(&t, "nic1"), Some(("vmbr1".into(), "nic1".into())));
    assert_eq!(port_of(&t, "nic1", "vmbr1").as_deref(), Some("nic1"));
}

#[test]
fn sysfs_a_bond_is_followed_to_the_bridge_above_it() {
    let t = Builder::new()
        .add("nic1", 2, Some(mac(1)))
        .master("bond0")
        .vfs(2)
        .add("nic1b", 3, Some(mac(2)))
        .master("bond0")
        .add("bond0", 4, Some(mac(1)))
        .master("br0")
        .lower("nic1")
        .lower("nic1b")
        .add("br0", 10, Some(mac(1)))
        .bridge()
        .lower("bond0")
        .build();
    assert_eq!(above(&t, "nic1"), Some(("br0".into(), "bond0".into())));
    assert_eq!(
        port_of(&t, "nic1", "br0").as_deref(),
        Some("bond0"),
        "the bond is the port"
    );

    // every member faces the wire, so every member's address is the host's
    let mut macs = below(&t, "bond0");
    macs.sort();
    assert_eq!(macs, vec![mac(1), mac(1), mac(2)]);
}

#[test]
fn sysfs_uplink_port_refuses_a_bridge_the_device_is_not_under() {
    let t = stacked();
    // It used to answer `dev` here, and a pass took that for the wire
    // port - whereupon nothing was wire and the cable's peers were
    // registered. The honest answer is that there is no port.
    assert_eq!(port_of(&t, "nic1", "IOT"), None);
}

#[test]
fn sysfs_autodetect_wants_vfs_and_a_bridge() {
    let t = Builder::new()
        .add("withvfs", 2, Some(mac(1)))
        .master("br0")
        .vfs(1)
        .add("novfs", 3, Some(mac(2)))
        .master("br0")
        .add("loose", 4, Some(mac(3)))
        .vfs(4)
        .add("br0", 10, Some(mac(1)))
        .bridge()
        .lower("withvfs")
        .lower("novfs")
        .build();
    let (pairs, skipped) = t.autodetect();
    assert_eq!(pairs, vec![("withvfs".to_string(), "br0".to_string())]);
    assert!(
        skipped.iter().any(|s| s.contains("loose")),
        "a NIC with VFs but no bridge is reported, not silently dropped"
    );
}

#[test]
fn sysfs_autodetect_takes_a_vf_that_carries_the_bridge() {
    let t = Builder::new()
        .add("nic1", 2, Some(mac(1)))
        .vfs(2)
        .add("nic1v0", 3, Some(mac(2)))
        .physfn("nic1")
        .add("nic1v1", 4, Some(mac(3)))
        .physfn("nic1")
        .master("br0")
        .add("br0", 10, Some(mac(3)))
        .bridge()
        .lower("nic1v1")
        .build();
    let (pairs, skipped) = t.autodetect();
    assert_eq!(pairs, vec![("nic1v1".to_string(), "br0".to_string())]);
    assert!(
        !skipped.iter().any(|s| s.contains("nic1v0")),
        "a VF sitting idle belongs to a guest and is not a finding"
    );
    assert!(
        skipped.iter().any(|s| s.contains("skip nic1:")),
        "the PF itself has VFs and no bridge, which is worth saying"
    );
}

#[test]
fn sysfs_autodetect_leaves_a_vf_alone_when_its_pf_holds_the_bridge() {
    let t = Builder::new()
        .add("nic1", 2, Some(mac(1)))
        .vfs(2)
        .master("br0")
        .add("nic1v0", 3, Some(mac(2)))
        .physfn("nic1")
        .master("br0")
        .add("br0", 10, Some(mac(1)))
        .bridge()
        .lower("nic1")
        .lower("nic1v0")
        .build();
    let (pairs, skipped) = t.autodetect();
    assert_eq!(pairs, vec![("nic1".to_string(), "br0".to_string())]);
    assert!(
        skipped
            .iter()
            .any(|s| s.contains("nic1v0") && s.contains("already carries")),
        "two vports must not claim the same addresses"
    );
}

/// The same rule on a card whose four ports share one PCI function, where
/// `physfn` names an arbitrary one of them. The port holding the bridge
/// is deliberately the last, so a check that asks only the first is
/// answered "no conflict" and takes the VF - the failure this guards.
#[test]
fn sysfs_autodetect_asks_every_port_of_a_shared_function() {
    let t = Builder::new()
        .add("pf0", 2, Some(mac(1)))
        .vfs(4)
        .add("pf1", 3, Some(mac(2)))
        .vfs(4)
        .add("pf2", 4, Some(mac(3)))
        .vfs(4)
        .add("pf3", 5, Some(mac(4)))
        .vfs(4)
        .master("br0")
        .add("pf3v0", 6, Some(mac(5)))
        .pf_netdevs(&["pf0", "pf1", "pf2", "pf3"])
        .master("br0")
        .add("br0", 10, Some(mac(4)))
        .bridge()
        .lower("pf3")
        .lower("pf3v0")
        .build();
    let (pairs, skipped) = t.autodetect();
    assert_eq!(
        pairs,
        vec![("pf3".to_string(), "br0".to_string())],
        "the physical function keeps the bridge"
    );
    assert!(
        skipped
            .iter()
            .any(|s| s.contains("pf3v0") && s.contains("already carries")),
        "the VF must be declined: a netdev of its own function - the \
         fourth, not the first - already carries that bridge"
    );
}

#[test]
fn sysfs_autodetect_reports_the_bond_it_went_through() {
    let t = Builder::new()
        .add("nic1", 2, Some(mac(1)))
        .master("bond0")
        .vfs(1)
        .add("bond0", 4, Some(mac(1)))
        .master("br0")
        .lower("nic1")
        .add("br0", 10, Some(mac(1)))
        .bridge()
        .lower("bond0")
        .build();
    let (pairs, notes) = t.autodetect();
    assert_eq!(pairs, vec![("nic1".to_string(), "br0".to_string())]);
    assert!(notes.iter().any(|s| s.contains("bond0")));
}

#[test]
fn sysfs_stacking_cycles_do_not_hang() {
    let t = Builder::new()
        .add("a", 1, None)
        .lower("b")
        .add("b", 2, None)
        .lower("a")
        .build();
    assert!(!leads(&t, "a", "zz"));
    assert_eq!(below(&t, "a").len(), 0);
}
