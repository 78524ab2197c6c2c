//! The small values: addresses, numbers, texts, names, stamps and readings.

use sriov_mac_sync::mac::{format_mac, is_registerable, parse_mac};
use sriov_mac_sync::netlink::{EEXIST, ENOENT};
use sriov_mac_sync::order::sorted;
use sriov_mac_sync::sync::millis::count_micros;
use sriov_mac_sync::sync::place::{
    boot_millis, lock_file, narrowed_mode, path_in, temporary_file,
};
use sriov_mac_sync::sync::reconcile::next_stamp;
use sriov_mac_sync::sync::record::finished_bytes;
use sriov_mac_sync::sync::timings::Timings;
use sriov_mac_sync::sync::types::Urgency;
use sriov_mac_sync::text::{chars_of, parse_u32, parse_u64, split_lines, split_words, string_of};
use sriov_mac_sync::topology::walk::{is_virtual_function, SysReading};
use sriov_mac_sync::{sysfs, topology};

fn text(s: &str) -> String {
    s.to_string()
}

#[test]
fn an_address_is_written_and_read_back() {
    let mac = [0x02, 0xd9, 0xa0, 0x0f, 0x00, 0xff];
    assert_eq!(format_mac(&mac), "02:d9:a0:0f:00:ff");
    assert_eq!(parse_mac("02:d9:a0:0f:00:ff"), Some(mac));
    assert_eq!(parse_mac("02:D9:A0:0F:00:FF"), Some(mac));
}

#[test]
fn what_spells_no_address_is_refused() {
    for s in [
        "",
        "02:d9:a0:0f:00",
        "02:d9:a0:0f:00:f",
        "02:d9:a0:0f:00:ff:00",
        "02-d9-a0-0f-00-ff",
        "02:d9:a0:0f:00:fg",
        " 02:d9:a0:0f:00:ff",
    ] {
        assert_eq!(parse_mac(s), None, "{s:?}");
    }
}

#[test]
fn only_a_unicast_address_can_stand_in_a_filter() {
    assert!(is_registerable(&[0x02, 0, 0, 0, 0, 1]));
    assert!(!is_registerable(&[0x01, 0, 0x5e, 0, 0, 1]));
    assert!(!is_registerable(&[0xff; 6]));
    assert!(!is_registerable(&[0; 6]));
}

#[test]
fn numbers_are_read_as_far_as_they_fit() {
    let number = |s: &str| parse_u32(&chars_of(s));
    assert_eq!(number("0"), Some(0));
    assert_eq!(number("+42"), Some(42));
    assert_eq!(number("007"), Some(7));
    assert_eq!(number("4294967295"), Some(u32::MAX));
    assert_eq!(number("4294967296"), None);
    for s in ["", "+", "-1", " 1", "1 ", "0x1"] {
        assert_eq!(number(s), None, "{s:?}");
    }
    assert_eq!(parse_u64(&chars_of("18446744073709551615")), Some(u64::MAX));
    assert_eq!(parse_u64(&chars_of("18446744073709551616")), None);
}

#[test]
fn a_text_is_cut_into_lines_and_words() {
    let lines = |s: &str| -> Vec<String> {
        split_lines(&chars_of(s)).iter().map(string_of).collect()
    };
    assert_eq!(lines("a\nb\r\n\nc"), vec!["a", "b", "", "c"]);
    assert_eq!(lines("a\n"), vec!["a"]);
    assert!(lines("").is_empty());
    let words: Vec<String> =
        split_words(&chars_of("  one\ttwo  three ")).iter().map(string_of).collect();
    assert_eq!(words, vec!["one", "two", "three"]);
}

#[test]
fn a_report_says_what_each_phase_cost() {
    let timings = Timings {
        topology: 1_234_567,
        fdb: 499,
        vf_macs: 999_500,
        orphans: 0,
        pairs: 12_345_678_900,
        total: 1_000_000,
        links: 7,
        fdb_entries: 12,
        vf_addresses: 3,
        vf_carried: true,
        added: 2,
        removed: 1,
        failures: vec![text("nic1: x"), text("nic2: y")],
    };
    assert_eq!(
        timings.report(),
        "  pass total 1.000 ms\n\
        \x20   pairs     12345.679 ms  +2 -1\n\
        \x20   topology    1.235 ms  7 links\n\
        \x20   vf macs     0.999 ms  3 addresses (carried over)\n\
        \x20   fdb dump    0.000 ms  12 entries\n\
        \x20   orphans     0.000 ms\n\
        \x20   failure: nic1: x\n\
        \x20   failure: nic2: y\n"
    );
    let empty = Timings::default();
    assert_eq!((empty.total, empty.links, empty.failures.len()), (0, 0, 0));
    assert!(empty.report().contains(" 0 addresses\n"));
}

#[test]
fn the_expensive_phase_is_reported_first() {
    let ms = 1_000_000;
    let timings = Timings {
        orphans: 9 * ms,
        topology: ms,
        fdb: ms,
        vf_macs: ms,
        pairs: ms,
        total: 13 * ms,
        ..Default::default()
    };
    assert_eq!(
        timings.report(),
        "  pass total 13.000 ms\n\
        \x20   orphans     9.000 ms\n\
        \x20   topology    1.000 ms  0 links\n\
        \x20   fdb dump    1.000 ms  0 entries\n\
        \x20   vf macs     1.000 ms  0 addresses\n\
        \x20   pairs       1.000 ms  +0 -0\n"
    );
}

#[test]
fn urgencies_are_ordered() {
    assert!(Urgency::Nothing < Urgency::WhenConvenient);
    assert!(Urgency::WhenConvenient < Urgency::Now);
}

#[test]
fn two_passes_never_share_a_stamp() {
    assert_eq!(next_stamp(10, 25), 25);
    assert_eq!(next_stamp(25, 25), 26);
    assert_eq!(next_stamp(26, 25), 27);
    assert_eq!(next_stamp(u64::MAX, 25), u64::MAX);
}

#[test]
fn only_a_directory_that_others_may_write_is_narrowed() {
    assert_eq!(narrowed_mode(0o777), Some(0o700));
    assert_eq!(narrowed_mode(0o770), Some(0o700));
    assert_eq!(narrowed_mode(0o702), Some(0o700));
    assert_eq!(narrowed_mode(0o755), None);
    assert_eq!(narrowed_mode(0o700), None);
}

#[test]
fn two_processes_share_no_temporary_file() {
    let note = text("nic1.owned");
    assert_eq!(temporary_file(&note, 41), ".nic1.owned.41.tmp");
    assert_ne!(temporary_file(&note, 41), temporary_file(&note, 42));
    assert_eq!(temporary_file(&text(".nic1.owned.ports"), 7), "..nic1.owned.ports.7.tmp");
    assert_eq!(lock_file(&text("nic1")), ".nic1.owned.lock");
}

#[test]
fn a_clock_is_read_in_milliseconds() {
    assert_eq!(boot_millis(12, 345_678_901), 12_345);
    assert_eq!(boot_millis(0, 999_999), 0);
    assert_eq!(boot_millis(-1, 5_000_000), 5);
    assert_eq!(boot_millis(3, -5_000_000), 3_000);
    assert_eq!(boot_millis(i64::MAX, 0), u64::MAX);
}

#[test]
fn the_error_numbers_are_the_systems() {
    assert_eq!(ENOENT, libc::ENOENT);
    assert_eq!(EEXIST, libc::EEXIST);
}

fn reading(name: &str, ifindex: &str) -> SysReading {
    SysReading {
        name: text(name),
        ifindex: Some(text(ifindex)),
        address: None,
        master: None,
        is_bridge: false,
        entries: Vec::new(),
        has_device: false,
        sriov_numvfs: None,
        driver: None,
        physfn_net: Vec::new(),
        virtfn_net: Vec::new(),
    }
}

/// A card with one virtual function bound here, both in a bridge's world.
fn readings() -> Vec<SysReading> {
    vec![
        SysReading {
            address: Some(text("00:11:22:33:44:01\n")),
            master: Some(text("br0")),
            entries: vec![text("lower_gone"), text("statistics")],
            has_device: true,
            sriov_numvfs: Some(text("1\n")),
            driver: Some(text("mlx5_core")),
            virtfn_net: vec![text("vf0"), text("gone")],
            ..reading("nic1", "2\n")
        },
        SysReading {
            address: Some(text("nonsense")),
            has_device: true,
            physfn_net: vec![text("nic1")],
            sriov_numvfs: Some(text("x")),
            virtfn_net: vec![text("nic1")],
            ..reading("vf0", "3")
        },
        SysReading {
            is_bridge: true,
            entries: vec![text("lower_nic1"), text("bridge")],
            driver: Some(text("none")),
            sriov_numvfs: Some(text("4")),
            ..reading("br0", "10")
        },
        reading("torn", "not a number"),
    ]
}

#[test]
fn a_walk_over_the_interfaces_is_put_together() {
    let t = topology::Topology::load(&readings());
    let nic1 = t.get(&text("nic1")).unwrap();
    assert_eq!(nic1.mac, Some([0x00, 0x11, 0x22, 0x33, 0x44, 0x01]));
    assert_eq!((nic1.index, nic1.master, nic1.numvfs), (2, Some(10), 1));
    assert_eq!(nic1.driver, Some(text("mlx5_core")));
    assert_eq!(nic1.vf_netdevs, vec![3]);
    assert!(nic1.lowers.is_empty());
    let vf = t.get(&text("vf0")).unwrap();
    assert_eq!((vf.mac, vf.physfn, vf.numvfs), (None, Some(2), 0));
    assert!(vf.vf_netdevs.is_empty());
    let br = t.get(&text("br0")).unwrap();
    assert_eq!((br.is_bridge, br.numvfs, br.driver.clone()), (true, 0, None));
    assert_eq!((br.lowers.clone(), br.slaves.clone()), (vec![2], vec![2]));
    assert_eq!(nic1.uppers, vec![10]);
    assert!(t.get(&text("torn")).is_none());
    assert_eq!(t.bridge_above(2), Some((10, 2)));

    let u = sysfs::Topology::load(&readings());
    assert_eq!(u.get(&text("nic1")).unwrap().vf_netdevs, vec![3]);
    assert_eq!(u.bridge_above(2), Some((10, 2)));
    assert!(u.get(&text("torn")).is_none());
}

#[test]
fn a_virtual_function_is_told_by_its_entry() {
    assert!(is_virtual_function(&text("virtfn0")));
    assert!(!is_virtual_function(&text("virt")));
    assert!(!is_virtual_function(&text("physfn")));
}

#[test]
fn only_what_a_newline_ends_is_finished() {
    assert_eq!(finished_bytes(&Vec::new()), 0);
    assert_eq!(finished_bytes(&b"02:00".to_vec()), 0);
    assert_eq!(finished_bytes(&b"a\nb\n".to_vec()), 4);
    assert_eq!(finished_bytes(&b"a\nb\n02:0".to_vec()), 4);
}

#[test]
fn milliseconds_print_as_their_double_does() {
    let same = |n: u64| {
        let us = count_micros(n);
        let want = format!("{:.3}", std::time::Duration::from_nanos(n).as_secs_f64() * 1000.0);
        assert_eq!(format!("{}.{:03}", us / 1000, us % 1000), want, "{n} ns");
    };
    for n in 0..1_000_000u64 {
        same(n);
    }
    // every half of a microsecond is close to a tie
    for n in 0..500_000u64 {
        same(n * 1000 + 500);
        same(n * 62_500);
    }
    let mut n: u64 = 88172645463325252;
    for i in 0..500_000u64 {
        n ^= n << 13;
        n ^= n >> 7;
        n ^= n << 17;
        same(n >> (i % 60));
    }
    same(u64::MAX);
    assert_eq!(count_micros(5_500), 5, "the double is a little below");
}

#[test]
fn a_file_of_the_state_directory_is_named_by_its_path() {
    let path = |dir: &str, name: &str| path_in(&text(dir), &text(name));
    assert_eq!(path("/run/state", "nic1.owned"), "/run/state/nic1.owned");
    assert_eq!(path("/run/state/", "nic1.owned"), "/run/state/nic1.owned");
    assert_eq!(path("", "nic1.owned"), "nic1.owned");
    assert_eq!(path("/run/state", "/elsewhere"), "/elsewhere");
}

#[test]
fn a_long_list_is_put_in_order() {
    let mut n: u64 = 88172645463325252;
    let v: Vec<u32> = (0..50_000)
        .map(|_| {
            n ^= n << 13;
            n ^= n >> 7;
            n ^= n << 17;
            (n >> 40) as u32
        })
        .collect();
    let mut want = v.clone();
    want.sort();
    assert_eq!(sorted(v), want);
}
