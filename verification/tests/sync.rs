//! The bookkeeping against a fake kernel: a forwarding table, a card, a driver
//! and a state directory, all in memory.

use std::cell::RefCell;
use std::collections::{BTreeMap, BTreeSet};
use std::ops::{Deref, DerefMut};
use std::rc::Rc;

use sriov_mac_sync::keyed::KeySet;
use sriov_mac_sync::mac::{format_mac, Mac};
use sriov_mac_sync::netlink::{
    DirEntry, Errno, FdbEntry, FdbWriter, LinkInfo, LockRefusal, Meta, Moment, Reading, Recorded,
    Refusal, Wall,
    RTM_DELNEIGH, RTM_NEWNEIGH,
};
use sriov_mac_sync::sync::decide::desired;
use sriov_mac_sync::sync::said::Said;
use sriov_mac_sync::sync::syncer::Syncer;
use sriov_mac_sync::sync::timings::Timings;
use sriov_mac_sync::sync::types::{Pair, Report, Urgency};
use sriov_mac_sync::topology::{Anatomy, Link, Topology};

type Macs<T> = BTreeSet<T>;
type Table<K, V> = BTreeMap<K, V>;

const STATE_DIR: &str = "/run/sriov-mac-sync";

const ENOENT: i32 = 2;
const EIO: i32 = 5;
const EBUSY: i32 = 16;
const EEXIST: i32 = 17;
const ENOTDIR: i32 = 20;
const EINVAL: i32 = 22;
const EISDIR: i32 = 21;
const ENOBUFS: i32 = 105;
const EPERM: i32 = 1;

const WIRE: Mac = [0xaa, 0, 0, 0, 0, 1]; // a peer out on the switch
const BEHIND_NIC: Mac = [0xaa, 0, 0, 0, 0, 2]; // on the bridge's other NIC
const BEHIND_GUEST: Mac = [0xaa, 0, 0, 0, 0, 3]; // a container, seen by a vnet
const UPLINK_WARD: Mac = [0xaa, 0, 0, 0, 0, 4]; // seen by a vnet on its way down
const OTHER_BRIDGE: Mac = [0xaa, 0, 0, 0, 0, 5]; // nothing to do with this uplink
const VF_ADMIN: Mac = [0x02, 0x11, 0x22, 0x33, 0x44, 1];
const MCAST: Mac = [0x01, 0x00, 0x5e, 0, 0, 1];

// ------------------------------------------------------------ the directory

/// What stands at a name.
#[derive(Clone, Debug, PartialEq)]
enum Node {
    File(String),
    /// a directory, which can be neither read nor written as a file
    Dir,
    /// a link to another name
    Symlink(String),
}

#[derive(Clone, Debug)]
struct Inode {
    node: Node,
    ino: u64,
    mtime: (i64, i64),
    readable: bool,
}

#[derive(Debug)]
struct Disk {
    files: BTreeMap<String, Inode>,
    /// whether the directory itself can be listed
    listable: bool,
    next_ino: u64,
    /// the time of day, in nanoseconds past a fixed second
    wall: i64,
    boot_millis: u64,
}

/// A state directory in memory, shared by everybody who writes to it.
#[derive(Clone, Debug)]
struct Dir(Rc<RefCell<Disk>>);

const EPOCH: i64 = 1_700_000_000;

impl Disk {
    fn tick(&mut self) -> (i64, i64) {
        self.wall += 1;
        (EPOCH + self.wall / 1_000_000_000, self.wall % 1_000_000_000)
    }

    fn put(&mut self, name: &str, node: Node) {
        let mtime = self.tick();
        self.next_ino += 1;
        let ino = self.next_ino;
        self.files.insert(name.to_string(), Inode { node, ino, mtime, readable: true });
    }

    /// Where a name leads, links followed.
    fn follow(&self, name: &str) -> Option<String> {
        let mut cur = name.to_string();
        for _ in 0..8 {
            match self.files.get(&cur) {
                Some(Inode { node: Node::Symlink(to), .. }) => cur = to.clone(),
                Some(_) => return Some(cur),
                None => return None,
            }
        }
        Some(cur)
    }

    fn read(&self, name: &str) -> Result<String, i32> {
        let Some(at) = self.follow(name) else {
            return Err(ENOENT);
        };
        let f = &self.files[&at];
        match &f.node {
            Node::File(t) if f.readable => Ok(t.clone()),
            Node::File(_) => Err(EPERM),
            _ => Err(EISDIR),
        }
    }
}

impl Dir {
    fn join(&self, name: impl AsRef<str>) -> P {
        P { dir: self.clone(), name: name.as_ref().to_string() }
    }

    fn sleep(&self, millis: u64) {
        let mut d = self.0.borrow_mut();
        d.boot_millis += millis;
        d.wall += millis as i64 * 1_000_000;
    }

    fn boot_millis(&self) -> u64 {
        self.0.borrow().boot_millis
    }

    fn unlistable(&self) {
        self.0.borrow_mut().listable = false;
    }

    fn snapshot(&self) -> Vec<(String, String)> {
        self.0
            .borrow()
            .files
            .iter()
            .map(|(n, f)| (n.clone(), format!("{:?}", f.node)))
            .collect()
    }
}

fn scratch(_name: &str) -> Dir {
    Dir(Rc::new(RefCell::new(Disk {
        files: BTreeMap::new(),
        listable: true,
        next_ino: 100,
        wall: 0,
        boot_millis: 5_000_000,
    })))
}

/// A name in a state directory.
#[derive(Clone, Debug)]
struct P {
    dir: Dir,
    name: String,
}

impl P {
    fn is_there(&self) -> bool {
        let d = self.dir.0.borrow();
        d.follow(&self.name).is_some()
    }
}

/// What a look at a file shows.
struct Stat {
    text_len: u64,
    mtime: (i64, i64),
}

impl Stat {
    fn len(&self) -> u64 {
        self.text_len
    }
    fn mtime(&self) -> i64 {
        self.mtime.0
    }
    fn mtime_nsec(&self) -> i64 {
        self.mtime.1
    }
}

/// The file calls a second process would make.
struct Fs;

impl Fs {
    fn write(p: impl std::borrow::Borrow<P>, text: impl AsRef<str>) -> Result<(), i32> {
        let p = p.borrow();
        let mut d = p.dir.0.borrow_mut();
        let t = text.as_ref().to_string();
        let mtime = d.tick();
        match d.files.get_mut(&p.name) {
            Some(f) => {
                f.node = Node::File(t);
                f.mtime = mtime;
            }
            None => d.put(&p.name, Node::File(t)),
        }
        Ok(())
    }

    fn read_to_string(p: impl std::borrow::Borrow<P>) -> Result<String, i32> {
        let p = p.borrow();
        p.dir.0.borrow().read(&p.name)
    }

    fn remove_file(p: impl std::borrow::Borrow<P>) -> Result<(), i32> {
        let p = p.borrow();
        match p.dir.0.borrow_mut().files.remove(&p.name) {
            Some(_) => Ok(()),
            None => Err(ENOENT),
        }
    }

    fn create_dir(p: impl std::borrow::Borrow<P>) -> Result<(), i32> {
        let p = p.borrow();
        p.dir.0.borrow_mut().put(&p.name, Node::Dir);
        Ok(())
    }

    fn symlink(target: &P, link: impl std::borrow::Borrow<P>) -> Result<(), i32> {
        let link = link.borrow();
        let to = target.name.clone();
        link.dir.0.borrow_mut().put(&link.name, Node::Symlink(to));
        Ok(())
    }

    fn rename(from: &P, to: impl std::borrow::Borrow<P>) -> Result<(), i32> {
        let to = to.borrow();
        let mut d = from.dir.0.borrow_mut();
        match d.files.remove(&from.name) {
            Some(f) => {
                d.files.insert(to.name.clone(), f);
                Ok(())
            }
            None => Err(ENOENT),
        }
    }

    fn metadata(p: impl std::borrow::Borrow<P>) -> Result<Stat, i32> {
        let p = p.borrow();
        let d = p.dir.0.borrow();
        match d.files.get(&p.name) {
            Some(f) => Ok(Stat {
                text_len: match &f.node {
                    Node::File(t) => t.len() as u64,
                    _ => 0,
                },
                mtime: f.mtime,
            }),
            None => Err(ENOENT),
        }
    }

    fn set_readable(p: &P, readable: bool) {
        let mut d = p.dir.0.borrow_mut();
        d.files.get_mut(&p.name).expect("no such file").readable = readable;
    }

    fn set_mtime(p: &P, mtime: (i64, i64)) {
        let mut d = p.dir.0.borrow_mut();
        d.files.get_mut(&p.name).expect("no such file").mtime = mtime;
    }
}

fn set_mtime(path: &P, secs: i64) {
    Fs::set_mtime(path, (secs, 0));
}

fn mtime(path: &P) -> i64 {
    Fs::metadata(path).unwrap().mtime()
}

/// Sets a file's time into the past and returns what it was set to.
fn filetime_backdate(path: &P) -> (i64, i64) {
    let old = Fs::metadata(path).unwrap().mtime() - 3600;
    Fs::set_mtime(path, (old, 0));
    (old, 0)
}

// --------------------------------------------------------------- the kernel

/// The kernel, as far as the bookkeeping is concerned: answers with what a
/// test injected and records what would have been written.
#[derive(Default)]
struct FakeSock {
    dir: Option<Dir>,
    fdb: Vec<FdbEntry>,
    vf: Vec<(u32, Mac)>,
    added: Vec<(u32, Mac)>,
    removed: Vec<(u32, Mac)>,
    /// error to answer an add of this address with
    fail_add: Table<Mac, i32>,
    /// error to answer a removal of this address with
    fail_del: Table<Mac, i32>,
    /// A second process, writing the same note while a batch is inside it: on
    /// the first successful add, this address is appended to the note.
    meanwhile: Option<(P, Mac)>,
    /// what `dump_links` answers
    links: Vec<(u32, String)>,
    /// how often the driver was asked for the functions' addresses
    vf_asked: usize,
    /// error the next `vf_macs_of` answers with, taken once
    fail_vf: Option<i32>,
    /// error the next `dump_fdb` answers with, taken once
    fail_fdb: Option<i32>,
    /// error the next `dump_links` answers with, taken once
    fail_links: Option<i32>,
    /// which indices each `vf_macs_of` call named
    asked: Vec<Vec<u32>>,
    /// like `meanwhile`, but on the first successful removal
    meanwhile_del: Option<(P, Mac)>,
    /// a note that becomes readable the moment the driver is asked
    heal: Option<P>,
    /// devices whose note cannot be locked
    unlockable: Macs<String>,
    /// error every write of a state file is answered with
    fail_put: Option<i32>,
    /// error the next removal of a state file is answered with, though it went
    fail_remove: Option<i32>,
    /// A second process, writing the same note just before it is added to.
    meanwhile_append: Option<(P, Mac)>,
    /// every change to a file and every change to the card, in order
    trace: Vec<String>,
    nanos: u64,
}

impl FakeSock {
    fn disk(&self) -> Dir {
        self.dir.clone().expect("no state directory")
    }
}

fn append_line(p: &P, mac: &Mac) {
    let mut text = Fs::read_to_string(p).unwrap_or_default();
    text.push_str(&format_mac(mac));
    text.push('\n');
    Fs::write(p, text).unwrap();
}

/// The system's words for an error.
fn words(code: i32) -> String {
    std::io::Error::from_raw_os_error(code).to_string()
}

fn refusal(code: i32) -> Refusal {
    Refusal { errno: Errno(code), words: words(code) }
}

impl FdbWriter for FakeSock {
    fn dump_fdb(&mut self) -> Result<Vec<FdbEntry>, Errno> {
        match self.fail_fdb.take() {
            Some(code) => Err(Errno(code)),
            None => Ok(self.fdb.clone()),
        }
    }

    fn dump_links(&mut self) -> Result<Vec<LinkInfo>, Errno> {
        if let Some(code) = self.fail_links.take() {
            return Err(Errno(code));
        }
        Ok(self
            .links
            .iter()
            .map(|(index, name)| LinkInfo {
                index: *index,
                name: name.clone(),
                mac: Some(mac(1)),
                master: None,
                link: None,
                kind: Some("veth".to_string()),
                parent_dev: None,
                ageing: None,
            })
            .collect())
    }

    fn vf_macs_of(&mut self, indices: &Vec<u32>) -> Result<Vec<(u32, Mac)>, Errno> {
        if let Some(p) = self.heal.take() {
            Fs::set_readable(&p, true);
        }
        self.vf_asked += 1;
        self.asked.push(indices.clone());
        if let Some(code) = self.fail_vf.take() {
            return Err(Errno(code));
        }
        // Like the kernel: an interface answers only when it was asked.
        Ok(self.vf.iter().filter(|(pf, _)| indices.contains(pf)).cloned().collect())
    }

    fn set_self_fdb(&mut self, ifindex: u32, mac: &Mac, add: bool) -> Result<(), Refusal> {
        let table = if add { &self.fail_add } else { &self.fail_del };
        if let Some(code) = table.get(mac) {
            return Err(refusal(*code));
        }
        if add {
            if let Some((path, other)) = self.meanwhile.take() {
                append_line(&path, &other);
            }
            self.trace.push(format!("add {}", format_mac(mac)));
            self.added.push((ifindex, *mac));
        } else {
            if let Some((path, other)) = self.meanwhile_del.take() {
                append_line(&path, &other);
            }
            self.trace.push(format!("del {}", format_mac(mac)));
            self.removed.push((ifindex, *mac));
        }
        Ok(())
    }

    fn stat_file(&mut self, name: &String) -> Option<Meta> {
        let dir = self.disk();
        let d = dir.0.borrow();
        let at = d.follow(name)?;
        let f = &d.files[&at];
        let len = match &f.node {
            Node::File(t) => t.len() as u64,
            _ => 0,
        };
        Some(Meta { ino: f.ino, len, mtime: Wall { secs: f.mtime.0, nanos: f.mtime.1 } })
    }

    fn read_file(&mut self, name: &String) -> Reading {
        let dir = self.disk();
        let read = dir.0.borrow().read(name);
        match read {
            Ok(t) => Reading::Text(t),
            Err(ENOENT) => Reading::Missing,
            Err(code) => Reading::Unreadable(words(code)),
        }
    }

    fn put_file(&mut self, name: &String, text: &String) -> Result<(), Refusal> {
        if let Some(code) = self.fail_put {
            return Err(refusal(code));
        }
        let dir = self.disk();
        let mut d = dir.0.borrow_mut();
        if matches!(d.files.get(name), Some(Inode { node: Node::Dir, .. })) {
            return Err(refusal(EISDIR));
        }
        self.trace.push(format!("put {name}"));
        d.put(name, Node::File(text.clone()));
        Ok(())
    }

    fn append_file(&mut self, name: &String, text: &String) -> Result<(), Refusal> {
        if let Some(code) = self.fail_put {
            return Err(refusal(code));
        }
        if let Some((path, other)) = self.meanwhile_append.take() {
            append_line(&path, &other);
        }
        let dir = self.disk();
        let mut d = dir.0.borrow_mut();
        let mtime = d.tick();
        self.trace.push(format!("append {name}"));
        match d.files.get_mut(name) {
            Some(f) => match &f.node {
                Node::File(t) => {
                    let end = t.rfind('\n').map_or(0, |i| i + 1);
                    let kept = t[..end].to_string();
                    f.node = Node::File(kept + text);
                    f.mtime = mtime;
                    Ok(())
                }
                _ => Err(refusal(EISDIR)),
            },
            None => {
                d.put(name, Node::File(text.clone()));
                Ok(())
            }
        }
    }

    fn remove_file(&mut self, name: &String) -> Result<(), Errno> {
        let dir = self.disk();
        let mut d = dir.0.borrow_mut();
        if matches!(d.files.get(name), Some(Inode { node: Node::Dir, .. })) {
            return Err(Errno(EISDIR));
        }
        self.trace.push(format!("remove {name}"));
        let there = d.files.remove(name).is_some();
        match (self.fail_remove.take(), there) {
            (Some(code), _) => Err(Errno(code)),
            (None, true) => Ok(()),
            (None, false) => Err(Errno(ENOENT)),
        }
    }

    fn list_dir(&mut self) -> Result<Vec<DirEntry>, Refusal> {
        let dir = self.disk();
        let d = dir.0.borrow();
        if !d.listable {
            return Err(refusal(ENOTDIR));
        }
        Ok(d.files
            .iter()
            .map(|(n, f)| DirEntry {
                name: n.clone(),
                regular: matches!(f.node, Node::File(_)),
            })
            .collect())
    }

    fn lock(&mut self, dev: &String) -> Result<(), LockRefusal> {
        let lock = self.disk().join(format!(".{dev}.owned.lock"));
        if Fs::metadata(&lock).is_ok() {
            return Err(LockRefusal { opened: false, why: refusal(EISDIR) });
        }
        if self.unlockable.contains(dev) {
            return Err(LockRefusal { opened: true, why: refusal(EIO) });
        }
        Ok(())
    }

    fn unlock(&mut self, _dev: &String) {}

    fn now(&mut self) -> Moment {
        self.nanos += 1;
        let dir = self.disk();
        let mut d = dir.0.borrow_mut();
        let (secs, nanos) = d.tick();
        Moment {
            boot_millis: d.boot_millis,
            nanos: d.boot_millis * 1_000_000 + self.nanos,
            wall: Wall { secs, nanos },
        }
    }
}

// ---------------------------------------------------------------- the syncer

/// Lets a syncer talk to a fake kernel.
fn with<T>(sock: &mut FakeSock, f: impl FnOnce(&mut Recorded<FakeSock>) -> T) -> T {
    let mut recorded = Recorded::new(std::mem::take(sock));
    let out = f(&mut recorded);
    *sock = recorded.into_inner();
    out
}

/// What is carried about a filter, as plain sets.
struct Held {
    present: Macs<Mac>,
    quiet: Macs<Mac>,
    passed_at: u64,
}

/// What has been said, as plain sets.
struct Marks {
    unknown_vf: Macs<String>,
    over: Macs<String>,
    tight: Macs<String>,
    lock: Macs<String>,
}

fn plain<T: Clone + Ord>(v: &Vec<T>) -> Macs<T> {
    v.iter().cloned().collect()
}

fn keys(macs: &Macs<Mac>) -> KeySet<Mac> {
    KeySet::of_list(&macs.iter().copied().collect())
}

/// A syncer over one state directory, with the names and sets a test writes.
struct S {
    syncer: Syncer,
    dir: Dir,
    desk: FakeSock,
}

impl Deref for S {
    type Target = Syncer;
    fn deref(&self) -> &Syncer {
        &self.syncer
    }
}

impl DerefMut for S {
    fn deref_mut(&mut self) -> &mut Syncer {
        &mut self.syncer
    }
}

impl S {
    fn new(pairs: Vec<Pair>, dir: Dir) -> S {
        let desk = FakeSock { dir: Some(dir.clone()), ..Default::default() };
        S { syncer: Syncer::new(pairs, STATE_DIR.to_string()), dir, desk }
    }

    fn load_owned(&mut self, dev: &str) -> Macs<Mac> {
        let dev = dev.to_string();
        let book = &mut self.syncer.book;
        plain(with(&mut self.desk, |d| book.load_owned(d, &dev)).list())
    }

    fn note_is_readable(&self, dev: &str) -> bool {
        self.syncer.book.note_is_readable(&dev.to_string())
    }

    fn remembers(&self, dev: &str) -> bool {
        self.syncer.book.dir.text(&format!("{dev}.owned")).is_some()
    }

    fn save_owned(&mut self, dev: &str, set: &Macs<Mac>) {
        let dry_run = self.syncer.dry_run;
        let book = &mut self.syncer.book;
        with(&mut self.desk, |d| book.save_owned(d, &dev.to_string(), &keys(set), dry_run));
    }

    fn save_owned_merged(&mut self, dev: &str, before: &Macs<Mac>, after: &Macs<Mac>) {
        let dry_run = self.syncer.dry_run;
        let book = &mut self.syncer.book;
        let (before, after) = (keys(before), keys(after));
        with(&mut self.desk, |d| {
            book.save_owned_merged(d, &dev.to_string(), &before, &after, dry_run)
        });
    }

    fn append_owned(&mut self, dev: &str, added: &[Mac]) -> bool {
        let dry_run = self.syncer.dry_run;
        let book = &mut self.syncer.book;
        with(&mut self.desk, |d| {
            book.append_owned(d, &dev.to_string(), &added.to_vec(), dry_run)
        })
    }

    fn append_owned_locked(&mut self, dev: &str, added: &[Mac]) -> Option<Vec<Mac>> {
        let book = &mut self.syncer.book;
        with(&mut self.desk, |d| {
            book.append_owned_locked(d, &dev.to_string(), &added.to_vec())
        })
    }

    fn note_index(&mut self, dev: &str, index: u32) {
        let book = &mut self.syncer.book;
        with(&mut self.desk, |d| book.note_index(d, &dev.to_string(), index));
    }

    fn noted_index(&mut self, dev: &str) -> Option<u32> {
        let book = &mut self.syncer.book;
        with(&mut self.desk, |d| book.noted_index(d, &dev.to_string()))
    }

    fn noted_devices_or_none(&mut self) -> Vec<String> {
        let book = &mut self.syncer.book;
        with(&mut self.desk, |d| book.noted_devices_or_none(d))
    }

    fn note_check_probe(&mut self, dev: &str, index: u32, mac: &Mac) -> bool {
        let syncer = &mut self.syncer;
        with(&mut self.desk, |d| syncer.note_check_probe(d, &dev.to_string(), index, mac))
    }

    fn forget_check_probe(&mut self, dev: &str, mac: &Mac) {
        let syncer = &mut self.syncer;
        with(&mut self.desk, |d| syncer.forget_check_probe(d, &dev.to_string(), mac));
    }

    fn registered(&mut self) -> usize {
        let syncer = &mut self.syncer;
        with(&mut self.desk, |d| syncer.registered(d))
    }

    fn orphaned(&mut self) -> Vec<String> {
        let syncer = &mut self.syncer;
        with(&mut self.desk, |d| syncer.orphaned(d))
    }

    fn drop_orphans(
        &mut self,
        sock: &mut FakeSock,
        topo: &Topology,
        apply: bool,
        failures: &mut Vec<String>,
    ) {
        sock.dir = Some(self.dir.clone());
        let syncer = &mut self.syncer;
        with(sock, |d| syncer.drop_orphans(d, topo, apply, failures));
    }

    fn reconcile(
        &mut self,
        sock: &mut FakeSock,
        apply: bool,
        topo: &Topology,
        topo_load: u64,
    ) -> Result<Vec<Report>, Errno> {
        sock.dir = Some(self.dir.clone());
        let syncer = &mut self.syncer;
        with(sock, |d| syncer.reconcile(d, apply, topo, topo_load))
    }

    fn fast_apply(
        &mut self,
        sock: &mut FakeSock,
        topo: &Topology,
        events: &[(u16, FdbEntry)],
    ) -> Result<Urgency, Errno> {
        sock.dir = Some(self.dir.clone());
        let syncer = &mut self.syncer;
        with(sock, |d| syncer.fast_apply(d, topo, &events.to_vec()))
    }

    fn flush(&mut self, sock: &mut FakeSock) -> Result<bool, Errno> {
        sock.dir = Some(self.dir.clone());
        let syncer = &mut self.syncer;
        with(sock, |d| syncer.flush(d))
    }

    fn warn_about_unknowable_vfs(&mut self, topo: &Topology, dev: &str, vf: &[(u32, Mac)]) {
        self.syncer.warn_about_unknowable_vfs(topo, &dev.to_string(), &vf.to_vec());
    }

    fn limit_of(&self, dev: &str) -> usize {
        self.syncer.limit_of(&dev.to_string())
    }

    fn said(&self) -> Marks {
        let m = &self.syncer.book.said;
        Marks {
            unknown_vf: plain(m.unknown_vf.list()),
            over: plain(m.over.list()),
            tight: plain(m.tight.list()),
            lock: plain(m.lock.list()),
        }
    }

    fn ports(&self) -> Table<String, Table<Mac, (u32, u64)>> {
        self.syncer
            .memory
            .carried
            .list()
            .iter()
            .map(|(dev, ports)| (dev.clone(), ports.list().iter().cloned().collect()))
            .collect()
    }

    fn loaded(&self) -> Macs<String> {
        plain(self.syncer.memory.loaded.list())
    }

    fn cards(&self) -> Table<String, Held> {
        self.syncer
            .carried
            .list()
            .iter()
            .map(|(dev, c)| {
                let held = Held {
                    present: plain(c.present.list()),
                    quiet: plain(c.quiet.list()),
                    passed_at: c.passed_at,
                };
                (dev.clone(), held)
            })
            .collect()
    }

    fn set_wire(&mut self, dev: &str, macs: Macs<Mac>) {
        self.syncer.carried_wire.insert(dev.to_string(), keys(&macs));
    }

    fn take_disputed(&mut self) -> bool {
        let was = self.syncer.disputed;
        self.syncer.disputed = false;
        was
    }
}

fn vf_may_have_changed(
    before: Option<&Topology>,
    after: Option<&Topology>,
    changed: &[u32],
) -> bool {
    sriov_mac_sync::sync::syncer::vf_may_have_changed(before, after, &changed.to_vec())
}

fn idx(t: &Topology, name: &str) -> Option<u32> {
    t.index_of(&name.to_string())
}

fn mac(last: u8) -> [u8; 6] {
    [0x00, 0x11, 0x22, 0x33, 0x44, last]
}

// -------------------------------------------------------------- the topology

/// Builds a topology from names: indices once it is built.
struct Builder {
    links: Vec<Link>,
    names: Vec<Names>,
}

#[derive(Default)]
struct Names {
    master: Option<String>,
    lowers: Vec<String>,
    physfn: Option<String>,
    pf_netdevs: Vec<String>,
    vf_netdevs: Vec<String>,
    filter_below: Option<String>,
}

impl Builder {
    fn new() -> Self {
        Builder { links: Vec::new(), names: Vec::new() }
    }

    fn add(mut self, name: &str, index: u32, mac: Option<[u8; 6]>) -> Self {
        self.links.push(Link {
            name: name.to_string(),
            index,
            mac,
            master: None,
            lowers: Vec::new(),
            filter_below: None,
            is_bridge: false,
            ageing_ms: None,
            numvfs: 0,
            driver: None,
            physfn: None,
            pf_netdevs: Vec::new(),
            vf_netdevs: Vec::new(),
            uppers: Vec::new(),
            slaves: Vec::new(),
        });
        self.names.push(Names::default());
        self
    }

    fn last(&mut self) -> &mut Link {
        self.links.last_mut().expect("add a link first")
    }

    fn last_names(&mut self) -> &mut Names {
        self.names.last_mut().expect("add a link first")
    }

    fn bridge(mut self) -> Self {
        self.last().is_bridge = true;
        self.last().ageing_ms = Some(300_000);
        self
    }

    /// How long this bridge takes to forget, in milliseconds.
    fn ageing(mut self, ms: Option<u64>) -> Self {
        self.last().ageing_ms = ms;
        self
    }

    fn master(mut self, m: &str) -> Self {
        self.last_names().master = Some(m.to_string());
        self
    }

    fn lower(mut self, l: &str) -> Self {
        self.last_names().lowers.push(l.to_string());
        self
    }

    /// A VLAN interface on `parent`: stacked, and writing into the filter below.
    fn vlan_on(mut self, parent: &str) -> Self {
        self.last_names().lowers.push(parent.to_string());
        self.last_names().filter_below = Some(parent.to_string());
        self
    }

    fn vfs(mut self, n: u32) -> Self {
        self.last().numvfs = n;
        self
    }

    fn physfn(mut self, pf: &str) -> Self {
        self.last_names().physfn = Some(pf.to_string());
        self
    }

    fn pf_netdevs(mut self, pfs: &[&str]) -> Self {
        self.last_names().pf_netdevs = pfs.iter().map(|p| p.to_string()).collect();
        self
    }

    /// A virtual function's netdev still bound on the host.
    fn vf_netdev(mut self, vf: &str) -> Self {
        self.last_names().vf_netdevs.push(vf.to_string());
        self
    }

    fn build(self) -> Topology {
        let known: Vec<(String, u32)> =
            self.links.iter().map(|l| (l.name.clone(), l.index)).collect();
        let idx = |n: &String| known.iter().rev().find(|(k, _)| k == n).map(|(_, i)| *i);
        let links: Vec<Link> = self
            .links
            .into_iter()
            .zip(self.names)
            .map(|(mut l, n)| {
                l.master = n.master.as_ref().and_then(&idx);
                l.lowers = n.lowers.iter().filter_map(&idx).collect();
                l.filter_below = n.filter_below.as_ref().and_then(&idx);
                let pf_names: Vec<String> = if n.pf_netdevs.is_empty() {
                    n.physfn.iter().cloned().collect()
                } else {
                    n.pf_netdevs.clone()
                };
                l.pf_netdevs = pf_names.iter().filter_map(&idx).collect();
                l.pf_netdevs.sort_unstable();
                if let Some(&first) = l.pf_netdevs.first() {
                    l.physfn = Some(first);
                }
                l.vf_netdevs = n.vf_netdevs.iter().filter_map(&idx).collect();
                l
            })
            .collect();
        Topology::assemble(links)
    }
}

/// A learnt entry: not permanent, not `self`, so the bridge picked it up from
/// traffic.
fn learned(ifindex: u32, master: u32, mac: Mac) -> FdbEntry {
    FdbEntry {
        ifindex,
        master: Some(master),
        mac,
        state: 0x02, // NUD_REACHABLE
        flags: 0,
    }
}

/// nic1 and nic2 in vmbr1, a vnet bridge IOT stacked on vmbr1.44 with a
/// container on it, and an unrelated vmbr0 carrying a VM tap.
fn host(bridge_mac: [u8; 6]) -> Topology {
    Builder::new()
        .add("nic1", 2, Some(mac(1)))
        .master("vmbr1")
        .vfs(1)
        .add("nic2", 3, Some(mac(2)))
        .master("vmbr1")
        .add("vmbr1", 10, Some(bridge_mac))
        .bridge()
        .lower("nic1")
        .lower("nic2")
        .add("vmbr1.44", 11, Some(bridge_mac))
        .master("IOT")
        .lower("vmbr1")
        .add("IOT", 12, Some(bridge_mac))
        .bridge()
        .lower("vmbr1.44")
        .lower("veth0")
        .add("veth0", 13, Some(mac(0x13)))
        .master("IOT")
        .add("vmbr0", 20, Some(mac(0xaa)))
        .bridge()
        .lower("nic0")
        .lower("tap0")
        .add("nic0", 21, Some(mac(0xaa)))
        .master("vmbr0")
        .vfs(1)
        .add("tap0", 22, Some(mac(0xa0)))
        .master("vmbr0")
        .build()
}

fn fdb() -> Vec<FdbEntry> {
    vec![
        learned(2, 10, WIRE),          // on the uplink itself
        learned(3, 10, BEHIND_NIC),    // on the bridge's other NIC
        learned(13, 12, BEHIND_GUEST), // on the vnet's container port
        learned(11, 12, UPLINK_WARD),  // on the vnet's way back to vmbr1
        learned(22, 20, OTHER_BRIDGE), // on an unrelated bridge
        learned(3, 10, MCAST),         // multicast is not a destination to register
        learned(3, 10, VF_ADMIN),      // our own VF, seen from the other side
        FdbEntry {
            ifindex: 3,
            master: Some(10),
            mac: mac(2),
            state: 0x80, // NUD_PERMANENT - the port's own address
            flags: 0,
        },
    ]
}

/// What is wanted for a pair, by name.
fn desired_named(
    exclude: &KeySet<Mac>,
    extra: &KeySet<Mac>,
    topo: &Topology,
    pair: &Pair,
    port: &str,
    fdb: &[FdbEntry],
    vf_macs: &[(u32, Mac)],
) -> (Macs<Mac>, Vec<String>, Macs<Mac>) {
    let dev = idx(topo, &pair.dev).expect("fixture has no such device");
    let bridge = idx(topo, &pair.bridge).unwrap_or(0);
    let port = idx(topo, port).unwrap_or_else(|| panic!("fixture: no interface named {port}"));
    let card = topo.filter_carrier(dev);
    let functions = topo.physical_functions(card);
    let anat = Anatomy { dev, bridge, port, card, functions };
    let w = desired(exclude, extra, topo, &anat, &fdb.to_vec(), &vf_macs.to_vec());
    (plain(w.want.list()), w.stacked, plain(w.wire.list()))
}

fn syncer() -> S {
    S::new(Vec::new(), scratch("nonexistent"))
}

fn pair() -> Pair {
    Pair {
        dev: "nic1".into(),
        bridge: "vmbr1".into(),
    }
}

#[test]
fn registers_what_is_behind_the_bridge_and_nothing_else() {
    let topo = host(mac(1));
    let (want, stacked, _) =
        desired_named(&KeySet::new(), &KeySet::new(), &topo, &pair(), "nic1", &fdb(), &[(2, VF_ADMIN)]);

    assert!(want.contains(&BEHIND_NIC), "the bridge's other NIC");
    assert!(
        want.contains(&BEHIND_GUEST),
        "a container behind a stacked vnet"
    );

    assert!(!want.contains(&WIRE), "peers on the wire must stay out");
    assert!(
        !want.contains(&UPLINK_WARD),
        "entries pointing back at the uplink"
    );
    assert!(
        !want.contains(&OTHER_BRIDGE),
        "a bridge that is not stacked on this one is none of our business"
    );
    assert!(!want.contains(&MCAST), "multicast");
    assert!(!want.contains(&VF_ADMIN), "our own VF");
    assert!(
        !want.contains(&mac(2)),
        "a port's own address is not learnt"
    );
    assert!(!want.contains(&mac(1)), "the uplink's own address");

    assert_eq!(stacked, vec!["IOT".to_string()]);
}

/// The host's own address on the bridge is normally the uplink's, and then
/// the internal switch knows it anyway. When it differs it has to be
/// registered, or the VF cannot reach the host at all. Checked on a plain
/// bridge with nothing stacked on it, so only the bridge's own address can
/// account for the result.
#[test]
fn a_bridge_with_its_own_address_gets_registered() {
    let plain = |bridge_mac: [u8; 6]| {
        Builder::new()
            .add("nic1", 2, Some(mac(1)))
            .master("br0")
            .vfs(1)
            .add("nic2", 3, Some(mac(2)))
            .master("br0")
            .add("br0", 10, Some(bridge_mac))
            .bridge()
            .lower("nic1")
            .lower("nic2")
            .build()
    };
    let p = Pair {
        dev: "nic1".into(),
        bridge: "br0".into(),
    };

    let odd = mac(0x99);
    let (want, stacked, _) = desired_named(&KeySet::new(), &KeySet::new(), &plain(odd), &p, "nic1", &[], &[]);
    assert!(
        want.contains(&odd),
        "a bridge address that is not the uplink's must be registered"
    );
    assert!(stacked.is_empty(), "nothing is stacked on this one");

    let (want, _, _) = desired_named(&KeySet::new(), &KeySet::new(), &plain(mac(1)), &p, "nic1", &[], &[]);
    assert!(
        !want.contains(&mac(1)),
        "when it is the uplink's address there is nothing to do"
    );
}

/// The same for interfaces stacked on the bridge - a VLAN interface the
/// host routes from is reachable only through the bridge.
#[test]
fn stacked_interfaces_of_the_host_get_registered_too() {
    let vlan_mac = mac(0x77);
    let topo = Builder::new()
        .add("nic1", 2, Some(mac(1)))
        .master("br0")
        .vfs(1)
        .add("br0", 10, Some(mac(1)))
        .bridge()
        .lower("nic1")
        .add("br0.44", 11, Some(vlan_mac))
        .lower("br0")
        .build();
    let p = Pair {
        dev: "nic1".into(),
        bridge: "br0".into(),
    };
    let (want, _, _) = desired_named(&KeySet::new(), &KeySet::new(), &topo, &p, "nic1", &[], &[]);
    assert!(want.contains(&vlan_mac));
}

#[test]
fn excluded_addresses_stay_out() {
    let topo = host(mac(1));
    let mut s = syncer();
    s.exclude.insert(BEHIND_GUEST);
    let (want, _, _) = desired_named(&s.exclude, &s.extra, &topo, &pair(), "nic1", &fdb(), &[]);
    assert!(!want.contains(&BEHIND_GUEST));
    assert!(want.contains(&BEHIND_NIC));
}

/// A dual-port card that shares one PCI function across its ports shows a PF
/// netdev per port, and each reports only its own port's VF addresses. A VF
/// handed to a guest can sit on the other port than the uplink, so its admin
/// address arrives keyed to the other port's PF. It must still be excluded:
/// resolving the uplink to a single PF once left it out, and the daemon then
/// registered the guest's own address and sent its traffic past it. Observed
/// on an mlx4 ConnectX-3 as trial scenario S6.
#[test]
fn a_sibling_vf_on_the_shared_functions_other_port_is_excluded() {
    // pf0 and pf1 are two netdevs of one function; the uplink VF sits on pf0's
    // port and names both as its function. The guest VF's address is reported
    // under pf1 - the port a single-PF resolution of the uplink would miss.
    const SIBLING: Mac = [0x02, 0x11, 0x22, 0x33, 0x44, 0x99];
    let topo = Builder::new()
        .add("pf0", 100, Some(mac(0x50)))
        .vfs(2)
        .add("pf1", 101, Some(mac(0x51)))
        .vfs(2)
        .add("pf0v0", 110, Some(mac(0x60)))
        .master("br0")
        .pf_netdevs(&["pf0", "pf1"])
        .add("br0", 120, Some(mac(0xaa)))
        .bridge()
        .lower("pf0v0")
        .lower("tap0")
        .add("tap0", 121, Some(mac(0xa0)))
        .master("br0")
        .build();
    let p = Pair {
        dev: "pf0v0".into(),
        bridge: "br0".into(),
    };
    // Both addresses are learnt behind the bridge on the tap, not on the
    // uplink's own wire side: one is the misplaced guest VF, one a real guest.
    let entries = vec![learned(121, 120, SIBLING), learned(121, 120, BEHIND_GUEST)];
    let (want, _, _) = desired_named(&KeySet::new(), &KeySet::new(),
        &topo,
        &p,
        "pf0v0",
        &entries,
        &[(101, SIBLING)], // keyed to pf1, the uplink's other-port PF
    );
    assert!(
        !want.contains(&SIBLING),
        "a sibling VF on the shared function's other port must be excluded"
    );
    assert!(
        want.contains(&BEHIND_GUEST),
        "a genuine local guest is still registered"
    );
}

/// Two ports was the example, not the rule: the same shared function may
/// carry four. The sibling's address is reported under the LAST port here,
/// so anything that asks fewer than all of them lets it through.
#[test]
fn a_sibling_vf_is_excluded_across_all_four_ports_of_a_function() {
    const SIBLING: Mac = [0x02, 0x11, 0x22, 0x33, 0x44, 0x77];
    let topo = Builder::new()
        .add("pf0", 100, Some(mac(0x50)))
        .vfs(4)
        .add("pf1", 101, Some(mac(0x51)))
        .vfs(4)
        .add("pf2", 102, Some(mac(0x52)))
        .vfs(4)
        .add("pf3", 103, Some(mac(0x53)))
        .vfs(4)
        .add("pf0v0", 110, Some(mac(0x60)))
        .master("br0")
        .pf_netdevs(&["pf0", "pf1", "pf2", "pf3"])
        .add("br0", 120, Some(mac(0xaa)))
        .bridge()
        .lower("pf0v0")
        .lower("tap0")
        .add("tap0", 121, Some(mac(0xa0)))
        .master("br0")
        .build();
    let p = Pair {
        dev: "pf0v0".into(),
        bridge: "br0".into(),
    };
    let entries = vec![learned(121, 120, SIBLING), learned(121, 120, BEHIND_GUEST)];
    let (want, _, _) = desired_named(&KeySet::new(), &KeySet::new(),
        &topo,
        &p,
        "pf0v0",
        &entries,
        &[(103, SIBLING)], // keyed to pf3, the fourth port
    );
    assert!(
        !want.contains(&SIBLING),
        "a sibling on the fourth port of the function must be excluded too"
    );
    assert!(want.contains(&BEHIND_GUEST));
}

/// With a bond in between, the wire side is the whole bond: entries learnt
/// on it belong out there, and every member's address is the host's own.
#[test]
fn a_bond_counts_as_the_wire_side_in_full() {
    let topo = Builder::new()
        .add("nic1", 2, Some(mac(1)))
        .master("bond0")
        .vfs(1)
        .add("nic1b", 3, Some(mac(2)))
        .master("bond0")
        .add("bond0", 4, Some(mac(1)))
        .master("br0")
        .lower("nic1")
        .lower("nic1b")
        .add("br0", 10, Some(mac(1)))
        .bridge()
        .lower("bond0")
        .lower("tap0")
        .add("tap0", 5, Some(mac(5)))
        .master("br0")
        .build();
    let entries = vec![
        learned(4, 10, WIRE),       // arrived over the bond
        learned(5, 10, BEHIND_NIC), // a local guest
        learned(5, 10, mac(2)),     // a bond member's address, oddly placed
    ];
    let p = Pair {
        dev: "nic1".into(),
        bridge: "br0".into(),
    };
    let (want, _, _) = desired_named(&KeySet::new(), &KeySet::new(), &topo, &p, "bond0", &entries, &[]);
    assert!(want.contains(&BEHIND_NIC));
    assert!(
        !want.contains(&WIRE),
        "learnt on the bond, so it is on the wire"
    );
    assert!(
        !want.contains(&mac(2)),
        "a bond member's address is the host's own"
    );
}

/// A PF whose numvfs went from 0 to N inside one batch is invisible to the
/// old picture; the old answer must not win over the new one, or the very
/// first VF address set right after enabling SR-IOV slips past the
/// exclusions until the timed refresh.
#[test]
fn a_pf_that_just_grew_vfs_counts_as_vf_relevant() {
    let before = Builder::new().add("nic1", 2, Some(mac(1))).build();
    let after = Builder::new().add("nic1", 2, Some(mac(1))).vfs(4).build();
    assert!(vf_may_have_changed(Some(&before), Some(&after), &[2]));
    // And the reverse: gone from the new picture, known to the old.
    assert!(vf_may_have_changed(Some(&after), Some(&before), &[2]));
    // Neither picture knows the interface: caution.
    assert!(vf_may_have_changed(Some(&before), Some(&before), &[99]));
    // Both know it, neither sees virtual functions: no reason to ask.
    assert!(!vf_may_have_changed(Some(&before), Some(&before), &[2]));
}

#[test]
fn pinned_addresses_are_registered_without_being_learnt() {
    let unheard: Mac = [0xaa, 0, 0, 0, 0, 0x42];
    let topo = host(mac(1));
    let mut s = syncer();
    s.extra.insert(unheard);
    let (want, _, _) = desired_named(&s.exclude, &s.extra, &topo, &pair(), "nic1", &fdb(), &[]);
    assert!(
        want.contains(&unheard),
        "nothing has ever been heard from it"
    );
}

/// Pinning must not become a way to break the wire.
#[test]
fn pinning_cannot_override_the_wire_side() {
    let topo = host(mac(1));
    let mut s = syncer();
    s.extra.insert(WIRE);
    s.extra.insert(mac(1));
    let (want, _, _) = desired_named(&s.exclude, &s.extra, &topo, &pair(), "nic1", &fdb(), &[]);
    assert!(!want.contains(&WIRE), "it lives out on the wire");
    assert!(!want.contains(&mac(1)), "it is the uplink's own address");
}

/// The note in /run is what keeps the daemon from deleting entries it never
/// made, so it has to survive a restart.
#[test]
fn ownership_survives_a_restart() {
    let dir = scratch("restart");
    let mut set = Macs::new();
    set.insert(BEHIND_NIC);
    set.insert(BEHIND_GUEST);

    let mut before = S::new(Vec::new(), dir.clone());
    before.save_owned("nic1", &set);
    assert!(dir.join("nic1.owned").is_there());

    let mut after = S::new(Vec::new(), dir.clone());
    assert_eq!(after.load_owned("nic1"), set);
    assert!(
        after.load_owned("nic0").is_empty(),
        "an uplink with no note owns nothing"
    );
}


/// A note that cannot be read means "could not tell", and the daemon leaves
/// the device alone until it can - but must not decide that once: the copy is
/// believed while identity, size and timestamp hold, and a file that could
/// not be read is a file nothing changed, so a remembered empty set would
/// make one bad moment permanent.
#[test]
fn a_note_that_could_not_be_read_is_not_remembered_as_an_empty_one() {
    let dir = scratch("unreadable");
    let mut set = Macs::new();
    set.insert(BEHIND_NIC);
    let mut s = S::new(Vec::new(), dir.clone());
    s.save_owned("nic1", &set);
    assert_eq!(s.load_owned("nic1"), set);

    // A directory where the note should be: reading it fails, and not
    // with "it is not there" - which is the one failure that does mean
    // "owns nothing".
    let path = dir.join("nic1.owned");
    Fs::remove_file(&path).unwrap();
    Fs::create_dir(&path).unwrap();
    let mut s = S::new(Vec::new(), dir.clone());
    assert!(s.load_owned("nic1").is_empty());
    assert!(!s.note_is_readable("nic1"), "the failure went unnoticed");
    assert!(
        !s.remembers("nic1"),
        "an unreadable note was remembered as an empty one, which is the \
         answer this device would then have for good"
    );

    // And the moment it can be read, it is read.
    Fs::remove_file(&path).unwrap();
    Fs::write(&path, format!("{}\n", format_mac(&BEHIND_NIC))).unwrap();
    assert_eq!(s.load_owned("nic1"), set);
    assert!(s.note_is_readable("nic1"));

    // The same file, unchanged, unreadable for a moment and readable
    // again - the case the remembered copy would otherwise answer for.
    let mut s = S::new(Vec::new(), dir.clone());
    Fs::set_readable(&path, false);
    assert!(s.load_owned("nic1").is_empty());
    Fs::set_readable(&path, true);
    assert_eq!(
        s.load_owned("nic1"),
        set,
        "the note came back and this went on believing it was empty"
    );
}

/// A lock that cannot be taken is not a reason to drop what was just
/// registered on the floor - the note is still written. It is a reason to
/// say so: unlocked is how entries got lost to a `--flush` run by hand at
/// the wrong moment, and that is not something to find out about from the
/// symptom.
#[test]
fn a_lock_that_cannot_be_taken_is_said_once_and_the_note_still_written() {
    let dir = scratch("lockless");
    // Something where the lock file goes, that opening cannot get past
    // and that is not "it is not there".
    Fs::create_dir(dir.join(".nic1.owned.lock")).unwrap();

    let mut set = Macs::new();
    set.insert(BEHIND_NIC);
    let mut s = S::new(Vec::new(), dir.clone());
    s.save_owned("nic1", &set);
    assert_eq!(
        s.load_owned("nic1"),
        set,
        "the note was not written, so what was registered has no owner"
    );
    assert!(
        s.said().lock.contains("nic1"),
        "the note was written unlocked and nothing said so"
    );

    // Said once. This sits on the path a burst of learning takes, and the
    // reasons an open fails do not come and go.
    set.insert(BEHIND_GUEST);
    s.save_owned("nic1", &set);
    assert_eq!(s.said().lock.len(), 1);
    assert_eq!(s.load_owned("nic1"), set);
}

#[test]
fn a_device_that_stopped_being_an_uplink_is_noticed() {
    let dir = scratch("orphan");
    let mut set = Macs::new();
    set.insert(BEHIND_NIC);

    let mut s = br0_syncer(&dir);
    s.save_owned("nic1", &set);
    s.save_owned("nic0", &set); // was an uplink once, is not one now
    assert_eq!(
        s.orphaned(),
        vec!["nic0".to_string()],
        "a note without a pair is an orphan; one with a pair is not"
    );

    let mut none = S::new(Vec::new(), dir.clone());
    none.authoritative = true;
    assert_eq!(
        none.orphaned(),
        vec!["nic0".to_string(), "nic1".to_string()],
        "with no pairs left, everything registered has to come back out"
    );
}

#[test]
fn named_pairs_do_not_get_to_declare_anything_an_orphan() {
    let dir = scratch("no-authority");
    let mut set = Macs::new();
    set.insert(BEHIND_NIC);

    // `--once --pair nic0:vmbr0` next to a running daemon that also looks
    // after nic1 must not take nic1's addresses away.
    let mut s = S::new(
        vec![Pair {
            dev: "nic0".into(),
            bridge: "vmbr0".into(),
        }],
        dir.clone(),
    );
    s.save_owned("nic1", &set);
    assert!(
        s.orphaned().is_empty(),
        "a hand-written pair list says nothing about the pairs it omits"
    );
}

#[test]
fn a_note_changed_behind_our_back_is_put_right() {
    let dir = scratch("stale-note");
    let mut set = Macs::new();
    set.insert(BEHIND_NIC);

    let mut s = S::new(Vec::new(), dir.clone());
    s.save_owned("nic1", &set);
    // What `--flush` from a second process leaves behind.
    Fs::write(dir.join("nic1.owned"), "").unwrap();

    assert!(
        s.load_owned("nic1").is_empty(),
        "the file is the truth, not a copy in memory"
    );
    s.save_owned("nic1", &set);
    assert_eq!(
        s.load_owned("nic1"),
        set,
        "and a note that disagrees with the set gets written again"
    );
}

#[test]
fn an_unchanged_set_is_not_written_again() {
    let dir = scratch("idle");
    let mut set = Macs::new();
    set.insert(BEHIND_NIC);

    let mut s = S::new(Vec::new(), dir.clone());
    s.save_owned("nic1", &set);
    let path = dir.join("nic1.owned");
    // Backdated, so a rewrite cannot hide in the clock's resolution.
    set_mtime(&path, 1_000_000_000);
    s.save_owned("nic1", &set);
    assert_eq!(mtime(&path), 1_000_000_000, "unchanged means untouched");

    set.insert(BEHIND_GUEST);
    s.save_owned("nic1", &set);
    assert_eq!(
        Fs::read_to_string(&path).unwrap().lines().count(),
        2,
        "a changed set is written"
    );
}

/// A note whose file was removed underneath us must be written again.
#[test]
fn a_vanished_note_is_recreated() {
    let dir = scratch("vanish");
    let mut set = Macs::new();
    set.insert(BEHIND_NIC);
    let mut s = S::new(Vec::new(), dir.clone());
    s.save_owned("nic1", &set);
    Fs::remove_file(dir.join("nic1.owned")).unwrap();
    s.save_owned("nic1", &set);
    assert!(dir.join("nic1.owned").is_there());
}
#[test]
fn the_timing_report_names_every_phase_and_what_it_found() {
    let t = Timings {
        topology: 8100000,
        fdb: 3200000,
        vf_macs: 400000,
        orphans: 100000,
        pairs: 600000,
        total: 12400000,
        links: 37,
        fdb_entries: 8707,
        vf_addresses: 4,
        vf_carried: false,
        added: 1,
        removed: 2,
        failures: vec!["nic1v0: unregister 02:00:00:00:00:01: no space".into()],
    };
    let r = t.report();
    for phase in ["topology", "fdb dump", "vf macs", "orphans", "pairs"] {
        assert!(
            r.contains(phase),
            "the report hides the {phase} phase:\n{r}"
        );
    }
    assert!(r.contains("37 links"), "link count missing:\n{r}");
    assert!(r.contains("8707 entries"), "fdb size missing:\n{r}");
    assert!(r.contains("+1 -2"), "the change count is missing:\n{r}");
    assert!(
        r.contains("failure: nic1v0: unregister"),
        "a failure went unmentioned:\n{r}"
    );
}

#[test]
fn a_carried_over_reading_says_so() {
    let fresh = Timings {
        vf_addresses: 4,
        ..Default::default()
    };
    assert!(
        !fresh.report().contains("carried over"),
        "a reading taken this pass claimed to be carried over"
    );
    let carried = Timings {
        vf_addresses: 4,
        vf_carried: true,
        ..Default::default()
    };
    assert!(
        carried.report().contains("carried over"),
        "a carried reading is indistinguishable from a fresh one:\n{}",
        carried.report()
    );
}

#[test]
fn a_pass_without_trouble_reports_no_failures() {
    let r = Timings::default().report();
    assert!(
        !r.contains("failure"),
        "an untroubled pass claimed a failure:\n{r}"
    );
}
fn ready_syncer(dir: &Dir) -> S {
    let mut s = S::new(vec![pair()], dir.clone());
    s.authoritative = true;
    s
}

#[test]
fn a_full_pass_registers_exactly_what_is_wanted_and_notes_it() {
    let dir = scratch("pass");
    let topo = host(mac(1));
    let mut sock = kernel(fdb());
    let mut s = ready_syncer(&dir);
    let reports = s.reconcile(&mut sock, true, &topo, 0).unwrap();

    let registered: Macs<Mac> = sock.added.iter().map(|(_, m)| *m).collect();
    let (want, _, _) = desired_named(&s.exclude, &s.extra, &topo, &pair(), "nic1", &fdb(), &[(2, VF_ADMIN)]);
    assert_eq!(
        registered, want,
        "the pass wrote something desired() does not want"
    );
    assert_eq!(reports[0].added, want.len());
    assert_eq!(
        s.load_owned("nic1"),
        want,
        "the note does not record what was registered"
    );
}

/// The fast path once had its own abbreviation of the exclusion rules -
/// none of them - and registered our own VF's address. This pins the two
/// paths together: whatever arrives as an event may be registered exactly
/// when the full pass would want it.
#[test]
fn the_fast_path_agrees_with_the_full_pass_on_every_fixture_entry() {
    let dir = scratch("parity");
    let topo = host(mac(1));
    let vf = vec![(2, VF_ADMIN)];
    let mut s = ready_syncer(&dir);
    let (want, _, wire) = desired_named(&s.exclude, &s.extra, &topo, &pair(), "nic1", &fdb(), &vf);
    s.set_wire("nic1", wire);
    s.remember_vf(vec![2], vf.clone());

    for entry in fdb() {
        // The world answers the driver question the same way the carried
        // answer was primed: a batch that would register asks afresh, and a
        // fake that then reported nothing would talk the daemon out of the
        // very exclusions this test is about.
        let mut sock = FakeSock {
            vf: vf.clone(),
            ..Default::default()
        };
        s.fast_apply(&mut sock, &topo, &[(RTM_NEWNEIGH, entry.clone())])
            .unwrap();
        let registered = !sock.added.is_empty();
        // Only learned entries reach the fast path at all; desired() also
        // wants the host's own addresses, which never arrive as events.
        let wanted = entry.is_learned() && want.contains(&entry.mac);
        assert_eq!(
            registered,
            wanted,
            "fast path and full pass disagree on {} (registered {registered}, wanted {wanted})",
            format_mac(&entry.mac)
        );
    }
}

/// A batch that would grow the filter asks the driver afresh instead of
/// believing the carried answer - always: a VF's address can change without
/// any link message (down PF, guest-side mailbox), and the carried answer may
/// be the only thing between a guest and its traffic being sent past it.
/// Shrinking batches keep the carried answer: at most a filter slot until the
/// next pass.
#[test]
fn a_batch_that_would_register_asks_the_driver_afresh() {
    let dir = scratch("grow-refresh");
    let topo = host(mac(1));
    let mut s = ready_syncer(&dir);
    // The carried answer predates the address: as far as it knows, the
    // functions have no addresses at all.
    s.remember_vf(vec![2], Vec::new());
    // The world has moved on: VF_ADMIN now belongs to a virtual function.
    let mut sock = FakeSock {
        vf: vec![(2, VF_ADMIN)],
        ..Default::default()
    };

    // The address turns up behind the bridge. The carried answer would let
    // it in; the fresh one keeps it out.
    s.fast_apply(
        &mut sock,
        &topo,
        &[(RTM_NEWNEIGH, learned(3, 10, VF_ADMIN))],
    )
    .unwrap();
    assert_eq!(sock.vf_asked, 1, "an addition consults the driver");
    assert!(
        sock.added.is_empty(),
        "the fresh answer keeps the function's address out"
    );

    // An ordinary guest still registers - the refresh filters, it does not
    // block.
    s.fast_apply(
        &mut sock,
        &topo,
        &[(RTM_NEWNEIGH, learned(3, 10, BEHIND_NIC))],
    )
    .unwrap();
    assert!(
        sock.added.iter().any(|(_, m)| *m == BEHIND_NIC),
        "an ordinary address still goes in"
    );

    // A shrinking batch does not pay the question.
    let asked = sock.vf_asked;
    s.fast_apply(
        &mut sock,
        &topo,
        &[(RTM_DELNEIGH, learned(3, 10, BEHIND_NIC))],
    )
    .unwrap();
    assert_eq!(sock.vf_asked, asked, "a deletion-only batch stays cheap");
}

/// The refresh a growing batch pays must not fail open: when the driver
/// cannot be asked, the carried answer is marked stale, so the prompt full
/// pass that answers the error asks afresh instead of taking the very
/// answer the refresh distrusted - which would register the function's
/// address after all.
#[test]
fn a_failed_refresh_leaves_the_carried_answer_distrusted() {
    let dir = scratch("refresh-fail");
    let topo = host(mac(1));
    let mut s = ready_syncer(&dir);
    // Carried, and stale in truth: the world has an address it lacks.
    s.remember_vf(vec![2], Vec::new());
    let mut sock = FakeSock {
        vf: vec![(2, VF_ADMIN)],
        fail_vf: Some(ENOBUFS),
        ..Default::default()
    };
    let r = s.fast_apply(
        &mut sock,
        &topo,
        &[(RTM_NEWNEIGH, learned(3, 10, VF_ADMIN))],
    );
    assert!(r.is_err(), "the failed question reaches the caller");
    assert!(s.vf_stale, "and the carried answer is no longer believed");
    assert!(sock.added.is_empty(), "nothing went in on the failed batch");

    // Whoever comes next - main schedules a prompt pass - now asks afresh
    // and the address stays out.
    s.fast_apply(
        &mut sock,
        &topo,
        &[(RTM_NEWNEIGH, learned(3, 10, VF_ADMIN))],
    )
    .unwrap();
    assert!(
        sock.added.is_empty(),
        "asked afresh, the function's address stays out"
    );
}

/// The reflection path stands in an rtnl window that can last seconds, and
/// its write-back is a difference, not the whole set: what a parallel
/// writer noted in that window survives. Written back whole, the parallel
/// entry vanished from the note while staying in the card - an orphan on
/// exactly the path the notes exist to prevent.
#[test]
fn reflection_keeps_what_a_parallel_writer_noted() {
    let dir = scratch("reflect-merge");
    let topo = host(mac(1));
    let mut s = ready_syncer(&dir);
    s.remember_vf(vec![2], Vec::new());
    // WIRE is ours, registered and noted; while the reflection removes it,
    // a parallel --once appends BEHIND_GUEST to the same note.
    s.append_owned("nic1", &[WIRE]);
    let mut sock = FakeSock {
        meanwhile_del: Some((dir.join("nic1.owned"), BEHIND_GUEST)),
        ..Default::default()
    };
    // WIRE turns up on the uplink port itself: the wire has the last word.
    s.fast_apply(&mut sock, &topo, &[(RTM_NEWNEIGH, learned(2, 10, WIRE))])
        .unwrap();
    assert!(
        sock.removed.iter().any(|(_, m)| *m == WIRE),
        "the reflected address came out of the filter"
    );
    let note = Fs::read_to_string(dir.join("nic1.owned")).unwrap_or_default();
    assert!(!note.contains(&format_mac(&WIRE)), "and out of the note");
    assert!(
        note.contains(&format_mac(&BEHIND_GUEST)),
        "the parallel writer's entry survives the write-back"
    );
}

/// Re-learning an address we own AND the card still holds buys no driver
/// question: it was vetted by the fresh answer that let it in, and
/// re-registering is an EEXIST no-op. Without this, the tail of a burst
/// asked once per queued re-learn.
#[test]
fn relearning_a_registered_address_buys_no_question() {
    let dir = scratch("owned-relearn");
    let topo = host(mac(1));
    let (_, mut s, _) = registered(&dir);
    assert!(s.load_owned("nic1").contains(&BEHIND_NIC));
    s.remember_vf(vec![2], Vec::new());
    let mut sock = FakeSock::default();
    s.fast_apply(
        &mut sock,
        &topo,
        &[(RTM_NEWNEIGH, learned(3, 10, BEHIND_NIC))],
    )
    .unwrap();
    assert_eq!(sock.vf_asked, 0, "nothing grew, nothing was asked");
}

/// Owned is not enough: an address on the note that the card no longer
/// holds - a driver that cleared its list on link-down - is a GROWTH when
/// it comes back, and a growth asks the driver afresh. Without the card
/// side of the test, a virtual function that claimed that address in the
/// meantime would have it registered past its guest until the next full
/// pass, up to a whole interval away.
#[test]
fn relearning_an_owned_but_absent_address_asks_the_driver() {
    let dir = scratch("owned-absent-relearn");
    let topo = host(mac(1));
    let mut s = ready_syncer(&dir);
    // On the note, never in this process's picture of the card.
    s.append_owned("nic1", &[BEHIND_NIC]);
    s.remember_vf(vec![2], Vec::new());
    let mut sock = FakeSock::default();
    s.fast_apply(
        &mut sock,
        &topo,
        &[(RTM_NEWNEIGH, learned(3, 10, BEHIND_NIC))],
    )
    .unwrap();
    assert!(
        sock.vf_asked >= 1,
        "putting an absent address back is a growth and has to ask"
    );
}

/// The grow-refresh asks only the functions of the pairs that would grow;
/// the unasked functions keep their carried entries, merged back under the
/// full function list so the next pass still matches the carry.
#[test]
fn the_grow_refresh_asks_only_the_growing_pairs_functions() {
    const OTHER: Mac = [0x02, 0x11, 0x22, 0x33, 0x44, 9];
    let dir = scratch("grow-scope");
    let topo = host(mac(1));
    let mut s = S::new(
        vec![
            pair(),
            Pair {
                dev: "nic0".into(),
                bridge: "vmbr0".into(),
            },
        ],
        dir.clone(),
    );
    s.authoritative = true;
    // Carried for both functions; the world also knows an address on nic1.
    s.remember_vf(vec![2, 21], vec![(21, OTHER)]);
    let mut sock = FakeSock {
        vf: vec![(2, VF_ADMIN)],
        ..Default::default()
    };
    // Growth behind vmbr1 only.
    s.fast_apply(
        &mut sock,
        &topo,
        &[(RTM_NEWNEIGH, learned(3, 10, BEHIND_NIC))],
    )
    .unwrap();
    assert_eq!(
        sock.asked.last().unwrap(),
        &vec![2u32],
        "only the growing pair's function is asked"
    );
    let (for_pfs, kept) = s.carried_vf.clone().expect("an answer is carried");
    assert_eq!(
        for_pfs,
        vec![2, 21],
        "the carry still covers every function"
    );
    assert!(
        kept.contains(&(21, OTHER)),
        "the unasked function's carried entries survive the merge"
    );
    assert!(
        kept.contains(&(2, VF_ADMIN)),
        "the asked function's entries are the fresh ones"
    );
}

/// The check probe is noted before it exists and forgotten after it is
/// gone, and the forgetting is a difference: a parallel writer's line in
/// the same window survives. This is what turns a killed --check from a
/// permanent foreign entry into one the next pass heals.
#[test]
fn a_check_probe_is_noted_first_and_forgotten_as_a_difference() {
    let dir = scratch("check-probe");
    let mut s = ready_syncer(&dir);
    const PROBE: Mac = [0x02, 0xe3, 0, 0, 0, 0x59];
    assert!(
        s.note_check_probe("nic1", 2, &PROBE),
        "a probe the note took has to say so"
    );
    let noted = Fs::read_to_string(dir.join("nic1.owned")).unwrap();
    assert!(noted.contains(&format_mac(&PROBE)), "noted before written");
    // A parallel --once registers something while the probe is out.
    s.append_owned("nic1", &[BEHIND_GUEST]);
    s.forget_check_probe("nic1", &PROBE);
    let after = Fs::read_to_string(dir.join("nic1.owned")).unwrap();
    assert!(!after.contains(&format_mac(&PROBE)), "forgotten");
    assert!(
        after.contains(&format_mac(&BEHIND_GUEST)),
        "the parallel writer's line survives the forgetting"
    );
}

#[test]
fn eexist_is_not_claimed_as_ours() {
    let dir = scratch("eexist");
    let topo = host(mac(1));
    let mut sock = FakeSock {
        fdb: fdb(),
        vf: vec![(2, VF_ADMIN)],
        fail_add: [(BEHIND_GUEST, EEXIST)]
            .into_iter()
            .collect::<Table<_, _>>(),
        ..Default::default()
    };
    let mut s = ready_syncer(&dir);
    s.reconcile(&mut sock, true, &topo, 0).unwrap();
    assert!(
        !s.load_owned("nic1").contains(&BEHIND_GUEST),
        "an entry somebody else created was claimed - it would be deleted later"
    );
}

/// The note takes an address before the card does: killed between the two,
/// the old order left an entry no note named - foreign, never touched again -
/// where the new order leaves a note naming an absent entry, which the
/// ordinary paths heal. A failed add is the observable half of that window:
/// the intent has to be on file although the card never took the address.
#[test]
fn an_addition_is_noted_before_the_card_is_written() {
    let dir = scratch("note-first");
    let topo = host(mac(1));
    let mut s = ready_syncer(&dir);
    let mut sock = FakeSock {
        fdb: vec![learned(3, 10, BEHIND_NIC)],
        vf: vec![(2, VF_ADMIN)],
        fail_add: [(BEHIND_NIC, EIO)].into_iter().collect::<Table<_, _>>(),
        ..Default::default()
    };
    s.reconcile(&mut sock, true, &topo, 0).unwrap();
    assert!(
        s.load_owned("nic1").contains(&BEHIND_NIC),
        "the failed add lost its intent - a crash in that window is an orphan again"
    );
    assert!(
        s.timings.failures.iter().any(|f| f.contains("register")),
        "the failure went unrecorded: {:?}",
        s.timings.failures
    );

    // The address stops being wanted before the add ever succeeds: the
    // removal meets ENOENT and the intent settles to nothing.
    let mut sock = FakeSock {
        vf: vec![(2, VF_ADMIN)],
        fail_del: [(BEHIND_NIC, ENOENT)]
            .into_iter()
            .collect::<Table<_, _>>(),
        ..Default::default()
    };
    s.reconcile(&mut sock, true, &topo, 0).unwrap();
    assert!(
        !s.load_owned("nic1").contains(&BEHIND_NIC),
        "the intent outlived the address it was for"
    );
}

/// The same order on the fast path: the batch's addresses are in the note
/// before any of them reaches the card, and a failed add keeps its intent
/// for the prompt pass to retry.
#[test]
fn the_fast_path_notes_before_it_writes() {
    let dir = scratch("fast-note-first");
    let topo = host(mac(1));
    let mut s = ready_syncer(&dir);
    s.remember_vf(vec![2], vec![(2, VF_ADMIN)]);
    let mut sock = FakeSock {
        vf: vec![(2, VF_ADMIN)],
        fail_add: [(BEHIND_NIC, EIO)].into_iter().collect::<Table<_, _>>(),
        ..Default::default()
    };
    let urgency = s
        .fast_apply(
            &mut sock,
            &topo,
            &[(RTM_NEWNEIGH, learned(3, 10, BEHIND_NIC))],
        )
        .unwrap();
    assert!(
        sock.added.is_empty(),
        "the card took what the driver refused"
    );
    assert!(
        s.load_owned("nic1").contains(&BEHIND_NIC),
        "the failed add lost its intent"
    );
    assert_eq!(
        urgency,
        Urgency::Now,
        "the failed add has to buy the pass that retries it"
    );
}

/// EEXIST on the fast path is somebody else's entry, exactly as in a full
/// pass - and with the note written first, the fresh intent has to come
/// back out, or their entry is deleted the day it stops being wanted.
#[test]
fn a_foreign_entry_met_by_the_fast_path_is_not_claimed() {
    let dir = scratch("fast-eexist");
    let topo = host(mac(1));
    let mut s = ready_syncer(&dir);
    s.remember_vf(vec![2], vec![(2, VF_ADMIN)]);
    let mut sock = FakeSock {
        vf: vec![(2, VF_ADMIN)],
        fail_add: [(BEHIND_NIC, EEXIST)]
            .into_iter()
            .collect::<Table<_, _>>(),
        ..Default::default()
    };
    s.fast_apply(
        &mut sock,
        &topo,
        &[(RTM_NEWNEIGH, learned(3, 10, BEHIND_NIC))],
    )
    .unwrap();
    assert!(
        !s.load_owned("nic1").contains(&BEHIND_NIC),
        "an entry somebody else created was claimed"
    );
}

/// A note that cannot be taken keeps the card untouched: nothing may reach
/// the hardware that the note does not already name, or a crash right
/// after leaves the entry ownerless - the exact window the note-first
/// order exists to close. A directory where the note should be is
/// unreadable and unwritable alike, for root too.
#[test]
fn an_unusable_note_holds_the_card_back() {
    let dir = scratch("note-refused");
    Fs::create_dir(dir.join("nic1.owned")).unwrap();
    let topo = host(mac(1));
    let mut s = ready_syncer(&dir);
    let mut sock = FakeSock {
        fdb: vec![learned(3, 10, BEHIND_NIC)],
        vf: vec![(2, VF_ADMIN)],
        ..Default::default()
    };
    s.reconcile(&mut sock, true, &topo, 0).unwrap();
    assert!(
        sock.added.is_empty(),
        "the card took an address the note could not: {:?}",
        sock.added
    );
    assert!(
        s.timings.failures.iter().any(|f| f.contains("held back")),
        "the held-back registrations left no failure: {:?}",
        s.timings.failures
    );

    // The fast path refuses the same way.
    s.remember_vf(vec![2], vec![(2, VF_ADMIN)]);
    s.fast_apply(
        &mut sock,
        &topo,
        &[(RTM_NEWNEIGH, learned(3, 10, BEHIND_NIC))],
    )
    .unwrap();
    assert!(
        sock.added.is_empty(),
        "the fast path wrote past a note it could not take"
    );
}

/// --check's healing story stands on the probe being noted first, so a
/// probe that cannot be noted has to be refused out loud - the caller
/// then writes nothing.
#[test]
fn a_probe_that_cannot_be_noted_says_so() {
    let dir = scratch("probe-refused");
    Fs::create_dir(dir.join("nic1.owned")).unwrap();
    let mut s = ready_syncer(&dir);
    assert!(
        !s.note_check_probe("nic1", 2, &[0x02, 0xe3, 0, 0, 0, 0x59]),
        "a probe the note could not take was reported as noted"
    );
}

/// An interface rename keeps the index, the filter entries and the guests -
/// it takes only the name, and the note is found by name. The sweep used
/// to read that as the device being gone: note unlinked, "removed" logged,
/// and every entry it named still in the card under the new name, owned by
/// nobody. The index recorded beside the note is what tells a rename from
/// a disappearance, and the note follows the interface.
#[test]
fn a_renamed_uplink_keeps_its_note() {
    let dir = scratch("rename");
    let topo = host(mac(1));
    let mut s = ready_syncer(&dir);
    let mut sock = kernel(vec![learned(3, 10, BEHIND_NIC)]);
    s.reconcile(&mut sock, true, &topo, 0).unwrap();
    assert!(s.load_owned("nic1").contains(&BEHIND_NIC));
    assert_eq!(
        s.noted_index("nic1"),
        Some(2),
        "the index went unrecorded - a rename could never be told apart"
    );

    // The same interface, same index, new name - and still the uplink, as
    // autodetection would rediscover it.
    let renamed = Builder::new()
        .add("nicX", 2, Some(mac(1)))
        .master("vmbr1")
        .vfs(1)
        .add("nic2", 3, Some(mac(2)))
        .master("vmbr1")
        .add("vmbr1", 10, Some(mac(1)))
        .bridge()
        .lower("nicX")
        .lower("nic2")
        .build();
    s.pairs = vec![Pair {
        dev: "nicX".into(),
        bridge: "vmbr1".into(),
    }];
    let mut sock = FakeSock {
        fdb: vec![
            learned(3, 10, BEHIND_NIC),
            // The registration itself, alive in the card under the new name.
            FdbEntry {
                ifindex: 2,
                master: None,
                mac: BEHIND_NIC,
                state: 0x80, // NUD_PERMANENT
                flags: 0x02, // NTF_SELF
            },
        ],
        vf: vec![(2, VF_ADMIN)],
        ..Default::default()
    };
    s.reconcile(&mut sock, true, &renamed, 0).unwrap();
    assert!(
        sock.removed.is_empty(),
        "a rename had something removed from a live filter: {:?}",
        sock.removed
    );
    assert!(
        !dir.join("nic1.owned").is_there(),
        "the note stayed under the old name, where nothing can reach it"
    );
    assert_eq!(
        s.load_owned("nicX"),
        [BEHIND_NIC].into_iter().collect::<Macs<_>>(),
        "the note did not follow the interface"
    );
    assert!(
        sock.added.is_empty(),
        "the migrated note was not believed and the entry re-registered: {:?}",
        sock.added
    );
}

/// --flush finds notes by name but removes entries by index, and a rename
/// moves only the name: the recorded index has to reach the entries under
/// whatever the interface is called now.
#[test]
fn a_flush_reaches_entries_through_a_rename() {
    let dir = scratch("flush-rename");
    let mut s = S::new(Vec::new(), dir.clone());
    s.save_owned("nic1", &[mac(0x61)].into_iter().collect::<Macs<_>>());
    s.note_index("nic1", 5);
    let mut sock = FakeSock {
        links: vec![(5, "nicX".to_string())],
        ..Default::default()
    };
    assert!(s.flush(&mut sock).unwrap(), "a clean flush says so");
    assert_eq!(
        sock.removed,
        vec![(5, mac(0x61))],
        "the entries were not removed through the renamed interface"
    );
    assert!(
        !dir.join("nic1.owned").is_there() && !dir.join(".nic1.owned.index").is_there(),
        "the settled note or its index record lingers"
    );
}

#[test]
fn a_removal_that_fails_keeps_its_note_and_enoent_counts_as_gone() {
    let dir = scratch("removal");
    let topo = host(mac(1));
    let mut s = ready_syncer(&dir);
    // Two addresses on record that the bridge no longer knows.
    let gone_mac = mac(0x51);
    let stuck_mac = mac(0x52);
    s.save_owned(
        "nic1",
        &[gone_mac, stuck_mac].into_iter().collect::<Macs<_>>(),
    );
    let mut sock = FakeSock {
        fdb: fdb(),
        vf: vec![(2, VF_ADMIN)],
        fail_del: [(gone_mac, ENOENT), (stuck_mac, EPERM)]
            .into_iter()
            .collect::<Table<_, _>>(),
        ..Default::default()
    };
    s.reconcile(&mut sock, true, &topo, 0).unwrap();
    let owned = s.load_owned("nic1");
    assert!(!owned.contains(&gone_mac), "ENOENT means gone, not stuck");
    assert!(
        owned.contains(&stuck_mac),
        "a failed removal lost its note - the entry is an orphan now"
    );
    assert!(
        s.timings.failures.iter().any(|f| f.contains("unregister")),
        "the failure went unrecorded"
    );
}

#[test]
fn a_dry_run_leaves_the_notes_byte_identical() {
    let dir = scratch("dryrun");
    let topo = host(mac(1));
    let mut s = ready_syncer(&dir);
    s.save_owned("nic1", &[mac(0x61)].into_iter().collect::<Macs<_>>());
    s.save_owned("gone0", &[mac(0x62)].into_iter().collect::<Macs<_>>()); // an orphan
    let before: Vec<(String, String)> = dir.snapshot();
    s.dry_run = true;
    let mut sock = FakeSock {
        fdb: fdb(),
        vf: vec![(2, VF_ADMIN)],
        ..Default::default()
    };
    s.reconcile(&mut sock, true, &topo, 0).unwrap();
    s.flush(&mut sock).unwrap();
    assert!(
        sock.added.is_empty() && sock.removed.is_empty(),
        "a dry run wrote"
    );
    let after: Vec<(String, String)> = dir.snapshot();
    assert_eq!(before, after, "a dry run changed the state directory");
}

#[test]
fn a_mangled_note_gives_up_only_the_mangled_lines() {
    let dir = scratch("mangled");
    Fs::write(
        dir.join("nic1.owned"),
        "aa:bb:cc:dd:ee:01\r\nnot an address\nAA:BB:CC:DD:EE:02\naa:bb:cc:dd:ee:03\n",
    )
    .unwrap();
    let mut s = ready_syncer(&dir);
    let owned = s.load_owned("nic1");
    // CRLF is trimmed, garbage is dropped, and uppercase IS an address -
    // parse_mac takes both cases, which matters for a note edited by
    // hand. (This comment used to claim the opposite, and the missing
    // length check below would have hidden either answer.)
    assert!(owned.contains(&[0xaa, 0xbb, 0xcc, 0xdd, 0xee, 0x01]));
    assert!(owned.contains(&[0xaa, 0xbb, 0xcc, 0xdd, 0xee, 0x02]));
    assert!(owned.contains(&[0xaa, 0xbb, 0xcc, 0xdd, 0xee, 0x03]));
    assert_eq!(owned.len(), 3, "the garbage line was counted as an address");
}

#[test]
fn with_no_pairs_left_the_pass_still_sweeps_orphans() {
    let dir = scratch("sweep");
    let topo = host(mac(1));
    let mut s = S::new(Vec::new(), dir.clone());
    s.authoritative = true;
    s.save_owned("nic1", &[mac(0x71)].into_iter().collect::<Macs<_>>());
    let mut sock = FakeSock::default();
    s.reconcile(&mut sock, true, &topo, 0).unwrap();
    assert_eq!(
        sock.removed,
        vec![(2, mac(0x71))],
        "the orphaned registration was not taken back out"
    );
    assert!(!dir.join("nic1.owned").is_there(), "the settled note lingers");
}

/// An orphan whose note cannot be read is one nobody can answer for, not one
/// that owns nothing. load_owned returns the empty set for both, and the
/// empty branch used to unlink the note on that answer - every entry it named
/// left in the card with nothing to say it was ours. The sibling branch
/// guards this with note_is_readable; the empty branch has to as well.
#[test]
fn an_orphan_with_an_unreadable_note_keeps_it() {
    let dir = scratch("orphan-unreadable");
    // A note that cannot be read but could be unlinked: a symlink loop.
    // (Root reads through any permission bits, so chmod cannot stand in.)
    let path = dir.join("nic1.owned");
    Fs::symlink(&path, &path).unwrap();

    let mut s = S::new(Vec::new(), dir.clone());
    s.authoritative = true;
    let topo = host(mac(1));
    let mut sock = FakeSock::default();
    s.reconcile(&mut sock, true, &topo, 0).unwrap();

    assert!(
        Fs::metadata(&path).is_ok(),
        "an unreadable note was unlinked - its entries are now nobody's"
    );
    assert!(sock.removed.is_empty(), "nothing was known to remove");

    // The moment it can be read again, the sweep may finish its work.
    Fs::remove_file(&path).unwrap();
    Fs::write(&path, format!("{}\n", format_mac(&mac(0x91)))).unwrap();
    s.reconcile(&mut sock, true, &topo, 0).unwrap();
    assert_eq!(
        sock.removed,
        vec![(2, mac(0x91))],
        "a readable orphan note is swept as before"
    );
    assert!(!path.is_there(), "the settled note lingers");
}

/// --flush against a live topology: what the note names is taken back
/// out of the named device's filter, and the settled note is unlinked.
/// This path ran only against an empty topology in every earlier test -
/// the branch that does the actual unregistering was never exercised.
#[test]
fn a_flush_takes_back_what_the_notes_name_and_says_when_it_could_not() {
    let dir = scratch("flush-real");
    let mut s = S::new(Vec::new(), dir.clone());
    let both: Macs<Mac> = [mac(0x61), mac(0x62)].into_iter().collect();
    s.save_owned("nic1", &both);
    let mut sock = FakeSock {
        links: vec![(5, "nic1".to_string())],
        ..Default::default()
    };
    assert!(s.flush(&mut sock).unwrap(), "a clean flush says so");
    let mut removed = sock.removed.clone();
    removed.sort();
    assert_eq!(
        removed,
        vec![(5, mac(0x61)), (5, mac(0x62))],
        "the flush did not go through the device the note names"
    );
    assert!(!dir.join("nic1.owned").is_there(), "the settled note lingers");

    // And when one refuses to go, it stays on record and the flush says
    // it was not clean - that exit code is the operator's only signal.
    s.save_owned("nic1", &both);
    let mut sock = FakeSock {
        links: vec![(5, "nic1".to_string())],
        fail_del: [(mac(0x62), EIO)].into_iter().collect(),
        ..Default::default()
    };
    assert!(!s.flush(&mut sock).unwrap(), "a dirty flush claimed clean");
    assert_eq!(
        s.load_owned("nic1"),
        [mac(0x62)].into_iter().collect::<Macs<_>>(),
        "what could not be removed has to stay on record"
    );
}

/// A bridge missing from one reading makes every wanted address vanish,
/// and a pass that believed it would remove everything - during exactly
/// the ifreload moment the daemon exists to survive. The pass must leave
/// that pair alone entirely.
#[test]
fn a_missing_bridge_fails_closed() {
    let dir = scratch("bridge-gone");
    let mut s = ready_syncer(&dir);
    s.save_owned("nic1", &[mac(0x71)].into_iter().collect::<Macs<_>>());
    // A topology in which nic1 exists but vmbr1 does not.
    let topo = Builder::new().add("nic1", 2, Some(mac(1))).build();
    let mut sock = FakeSock::default();
    s.reconcile(&mut sock, true, &topo, 0).unwrap();
    assert!(
        sock.removed.is_empty(),
        "a missing bridge was taken for permission to remove"
    );
    assert_eq!(
        s.load_owned("nic1"),
        [mac(0x71)].into_iter().collect::<Macs<_>>(),
        "the note has to survive the blink"
    );
}



/// A device that is not under its bridge in this reading - a bond-member
/// flap, an `ifreload -a` rebuilding the enslavement - must not be taken
/// for the wire port. uplink_port used to fall back to the device itself
/// then, whereupon nothing in the forwarding table classified as wire and
/// the cable's own peers were registered into the filter: invariant 1,
/// violated in exactly the reload window the daemon reacts to fastest.
#[test]
fn a_detached_device_is_left_alone_rather_than_mistaken_for_the_port() {
    let dir = scratch("detached");
    // nic1 carries the VFs but is enslaved nowhere; the bridge lives on,
    // with the bond as its real port and the cable's peer learnt there.
    let topo = Builder::new()
        .add("nic1", 2, Some(mac(1)))
        .vfs(1)
        .add("bond0", 4, Some(mac(4)))
        .master("vmbr1")
        .add("vmbr1", 10, Some(mac(3)))
        .bridge()
        .lower("bond0")
        .build();
    let mut sock = kernel(vec![learned(4, 10, WIRE)]);
    let mut s = ready_syncer(&dir);
    let reports = s.reconcile(&mut sock, true, &topo, 0).unwrap();
    assert!(
        sock.added.is_empty(),
        "a cable-side peer was registered on a detached device"
    );
    assert!(sock.removed.is_empty(), "a detached pair removed something");
    assert!(reports.is_empty(), "a detached pair produced a report");

    // The fast path refuses the same pair the same way.
    let urgency = s
        .fast_apply(&mut sock, &topo, &[(RTM_NEWNEIGH, learned(4, 10, WIRE))])
        .unwrap();
    assert!(
        sock.added.is_empty(),
        "the fast path registered on a detached device"
    );
    assert_eq!(urgency, Urgency::Nothing);
}

/// The unknowable-VF warning is for when the situation arises, not
/// necessarily the first pass: a VF fully named today and handed to a guest
/// tomorrow becomes unknowable then, and marking the uplink "warned" on a
/// harmless pass silences it for life. Once the situation passes, it re-arms.
#[test]
fn the_unknowable_vf_warning_fires_when_the_situation_arises() {
    let dir = scratch("unknowable-late");
    let topo = host(mac(1));
    let mut s = ready_syncer(&dir);

    // Pass one: the single VF has an address, nothing is unknowable.
    s.warn_about_unknowable_vfs(&topo, "nic1", &[(2, VF_ADMIN)]);
    assert!(
        !s.said().unknown_vf.contains("nic1"),
        "a pass with nothing to warn about must not use up the warning"
    );

    // Pass two: the address is gone - a guest took the VF. Now it warns.
    s.warn_about_unknowable_vfs(&topo, "nic1", &[]);
    assert!(
        s.said().unknown_vf.contains("nic1"),
        "the situation arose and the warning did not fire"
    );

    // While it persists: once was enough (the set held it).
    s.warn_about_unknowable_vfs(&topo, "nic1", &[]);
    assert!(s.said().unknown_vf.contains("nic1"));

    // It clears, and a later return deserves a fresh warning.
    s.warn_about_unknowable_vfs(&topo, "nic1", &[(2, VF_ADMIN)]);
    assert!(
        !s.said().unknown_vf.contains("nic1"),
        "a situation that ended has to re-arm its warning"
    );
}

/// --flush's one promise is "everything this daemon put in comes back
/// out". A state directory that cannot be listed used to read as "no
/// notes": flush printed nothing, removed nothing, and exited 0 - success
/// claimed for work it could not even enumerate. Being unable to tell
/// what exists is a failure, and the exit code has to say so.
#[test]
fn a_state_directory_that_cannot_be_listed_fails_a_flush_loudly() {
    let dir = scratch("flush-unlistable");
    // A regular file where the directory should be: read_dir fails with
    // ENOTDIR, for root too.
    dir.unlistable();
    let mut s = S::new(Vec::new(), dir.clone());
    let mut sock = FakeSock::default();
    let out = s.flush(&mut sock);
    assert!(
        out.is_err(),
        "an unlistable state directory was reported as a clean flush"
    );
    // The quiet callers stay quiet in their answers - a scheduling
    // heuristic and the orphan sweep must not invent devices - but they
    // must not panic either.
    assert_eq!(s.registered(), 0);
    s.authoritative = true;
    assert!(s.orphaned().is_empty());
}

/// The uplink may itself be a VF; the exclusions then belong to its PF -
/// the sister VFs' addresses above all. All earlier tests ran with the
/// device being its own physical function.
#[test]
fn a_vf_uplink_excludes_its_sisters_through_the_pf() {
    let sister: Mac = [0x02, 0x99, 0, 0, 0, 7];
    let topo = Builder::new()
        .add("pf0", 1, Some(mac(0x10)))
        .vfs(2)
        .add("pf0v1", 2, Some(mac(0x11)))
        .physfn("pf0")
        .master("br0")
        .add("br0", 10, Some(mac(0x11)))
        .bridge()
        .lower("pf0v1")
        .lower("tap1")
        .add("tap1", 11, Some(mac(0x12)))
        .master("br0")
        .build();
    let p = Pair {
        dev: "pf0v1".into(),
        bridge: "br0".into(),
    };
    // The sister's address was learnt behind the bridge; the PF's index
    // is 1 and the vf list is keyed by it.
    let entries = vec![learned(11, 10, sister)];
    let s = syncer();
    let (want, _, _) = desired_named(&s.exclude, &s.extra, &topo, &p, "pf0v1", &entries, &[(1, sister)]);
    assert!(
        !want.contains(&sister),
        "a sister VF's address made it past the PF-keyed exclusions"
    );
    let _ = &s;
}
/// The reading side of the bench: a pass that may not apply must leave
/// the state directory byte-identical - including an orphan note, whose
/// deletion path runs through the filesystem where no FdbWriter fake can
/// see it. A watchdog counting fake writes alone guards the wrong door.
#[test]
fn a_non_applying_pass_leaves_the_state_directory_untouched() {
    let dir = scratch("readonly");
    let topo = host(mac(1));
    let mut s = ready_syncer(&dir);
    s.save_owned("nic1", &[mac(0x81)].into_iter().collect::<Macs<_>>());
    s.save_owned("gone0", &[mac(0x82)].into_iter().collect::<Macs<_>>()); // an orphan
    let before = dir.snapshot();
    let mut sock = kernel(fdb());
    for _ in 0..3 {
        s.reconcile(&mut sock, false, &topo, 0).unwrap();
    }
    assert!(sock.added.is_empty() && sock.removed.is_empty());
    assert_eq!(
        before,
        dir.snapshot(),
        "a non-applying pass wrote to the state directory"
    );
}


/// A guest that moves to another host takes its address with it, and the
/// bridge learns it on the uplink's own port from then on. The registration
/// left behind sends its traffic to the uplink, where the bridge drops it;
/// the batch that brings the news has to undo it.
#[test]
fn an_address_that_reappears_on_the_wire_is_unregistered_at_once() {
    let dir = scratch("reflection");
    let topo = host(mac(1));
    let mut s = ready_syncer(&dir);
    s.remember_vf(vec![2], vec![(2, VF_ADMIN)]);
    // It was behind the bridge a moment ago, registered and noted.
    s.save_owned("nic1", &[BEHIND_NIC].into_iter().collect::<Macs<_>>());

    let mut sock = FakeSock::default();
    // nic1 is the uplink and its own port in this fixture: index 2.
    s.fast_apply(
        &mut sock,
        &topo,
        &[(RTM_NEWNEIGH, learned(2, 10, BEHIND_NIC))],
    )
    .unwrap();

    assert_eq!(
        sock.removed,
        vec![(2, BEHIND_NIC)],
        "the address is out on the wire now; the filter entry has to go"
    );
    assert!(
        !s.load_owned("nic1").contains(&BEHIND_NIC),
        "and the note with it, or the next pass counts it as somebody else's"
    );
}

/// Only ever our own registrations. An address somebody else put in the
/// filter stays there, wire or no wire - the same rule the full pass and
/// --flush follow.
#[test]
fn a_reflection_of_an_address_we_never_registered_is_left_alone() {
    let dir = scratch("reflection-foreign");
    let topo = host(mac(1));
    let mut s = ready_syncer(&dir);
    s.remember_vf(vec![2], vec![(2, VF_ADMIN)]);

    let mut sock = FakeSock::default();
    s.fast_apply(
        &mut sock,
        &topo,
        &[(RTM_NEWNEIGH, learned(2, 10, BEHIND_NIC))],
    )
    .unwrap();

    assert!(
        sock.removed.is_empty(),
        "nothing of ours was there to remove: {:?}",
        sock.removed
    );
}

/// One batch is one moment, and in it the wire has the last word. An
/// address seen on the uplink port and behind the bridge in the same
/// batch must not end up registered - which is what happens if the
/// registrations are done first and the reflections after.
#[test]
fn within_one_batch_the_wire_wins() {
    let dir = scratch("reflection-order");
    let topo = host(mac(1));
    let mut s = ready_syncer(&dir);
    s.remember_vf(vec![2], vec![(2, VF_ADMIN)]);

    let mut sock = FakeSock::default();
    s.fast_apply(
        &mut sock,
        &topo,
        &[
            // behind the bridge, on the other NIC ...
            (RTM_NEWNEIGH, learned(3, 10, BEHIND_NIC)),
            // ... and on the uplink's own port in the same breath
            (RTM_NEWNEIGH, learned(2, 10, BEHIND_NIC)),
        ],
    )
    .unwrap();

    assert!(
        sock.added.is_empty(),
        "the wire side of the same batch says this address is out there: {:?}",
        sock.added
    );

    // The dangerous order: wire first, inner learn second - the kernel's
    // end state is "behind the bridge". The refusal must buy the pass that
    // registers it from the real dump; a batch that ends quiet here leaves
    // the guest deaf until the timer, while ARP for it still resolves.
    let mut sock = FakeSock::default();
    let urgency = s
        .fast_apply(
            &mut sock,
            &topo,
            &[
                (RTM_NEWNEIGH, learned(2, 10, BEHIND_GUEST)),
                (RTM_NEWNEIGH, learned(13, 12, BEHIND_GUEST)),
            ],
        )
        .unwrap();
    assert!(sock.added.is_empty(), "the wire still has the last word");
    assert_ne!(
        urgency,
        Urgency::Nothing,
        "a reflection refusal suppressed its own correction"
    );

    // And a batch that is wire and nothing else stays passless - the
    // refusal above must not have bought this one a pass too.
    let mut sock = FakeSock::default();
    let urgency = s
        .fast_apply(&mut sock, &topo, &[(RTM_NEWNEIGH, learned(2, 10, WIRE))])
        .unwrap();
    assert_eq!(
        urgency,
        Urgency::Nothing,
        "wire-only learning bought a pass; the wire-load optimisation is gone"
    );
}

/// The full pass obeys the same rule as the fast path: a carried answer
/// decides nothing that grows a filter. A VF's address can change without
/// any link message - a down PF announces nothing, a guest-side change
/// runs over the ixgbe/i40e mailbox - and a pass registers in several real
/// flows the fast path never vetted. Growing on stale news sends a guest's
/// traffic past it until the timed refresh.
#[test]
fn a_pass_that_would_register_asks_the_driver_afresh() {
    let dir = scratch("pass-grow-refresh");
    let topo = host(mac(1));
    let mut s = ready_syncer(&dir);
    // The carried answer predates the change: BEHIND_NIC is, by the
    // driver's current truth, a virtual function's own address now.
    s.remember_vf(vec![2], vec![(2, VF_ADMIN)]);
    let mut sock = FakeSock {
        fdb: vec![learned(3, 10, BEHIND_NIC)],
        vf: vec![(2, VF_ADMIN), (2, BEHIND_NIC)],
        ..Default::default()
    };
    s.reconcile(&mut sock, true, &topo, 0).unwrap();
    assert_eq!(
        sock.vf_asked, 1,
        "a growing pass on a carried answer has to ask the driver first"
    );
    assert!(
        !sock.added.iter().any(|(_, m)| *m == BEHIND_NIC),
        "the pass registered a VF's own address on the strength of stale news"
    );
}

/// The mirror image: an address the carried answer still calls a VF's own
/// may have been freed without any link message. With a carried answer
/// such a refusal goes through the decide phase, the fresh question
/// settles it, and the freed address is registered in the same batch
/// instead of waiting out the interval.
#[test]
fn a_stale_vf_exclusion_is_settled_by_the_fresh_question() {
    let dir = scratch("stale-vf-skip");
    let topo = host(mac(1));
    let mut s = ready_syncer(&dir);
    // Carried: BEHIND_NIC still counted as a VF's address. Truth: freed.
    s.remember_vf(vec![2], vec![(2, VF_ADMIN), (2, BEHIND_NIC)]);
    let mut sock = FakeSock {
        vf: vec![(2, VF_ADMIN)],
        ..Default::default()
    };
    let urgency = s
        .fast_apply(
            &mut sock,
            &topo,
            &[(RTM_NEWNEIGH, learned(3, 10, BEHIND_NIC))],
        )
        .unwrap();
    assert_eq!(
        sock.vf_asked, 1,
        "the stale exclusion never asked the driver"
    );
    assert!(
        sock.added.iter().any(|(_, m)| *m == BEHIND_NIC),
        "the freed address stayed blocked by the carried answer"
    );
    assert_eq!(urgency, Urgency::Now);
}

/// A deletion is not evidence. A vlan-aware bridge learns one address once
/// per VLAN and the filter holds a single entry for all of them, so the
/// last of them going is something only a full dump can establish. The
/// fast path must not act on one notification - the pass that follows the
/// batch is what removes.
#[test]
fn a_deletion_alone_does_not_remove_a_registration() {
    let dir = scratch("deletion");
    let topo = host(mac(1));
    let mut s = ready_syncer(&dir);
    s.remember_vf(vec![2], vec![(2, VF_ADMIN)]);
    s.save_owned("nic1", &[BEHIND_NIC].into_iter().collect::<Macs<_>>());

    let mut sock = FakeSock::default();
    s.fast_apply(
        &mut sock,
        &topo,
        &[(RTM_DELNEIGH, learned(3, 10, BEHIND_NIC))],
    )
    .unwrap();

    assert!(
        sock.removed.is_empty(),
        "one entry going is not the address going: {:?}",
        sock.removed
    );
    assert!(
        s.load_owned("nic1").contains(&BEHIND_NIC),
        "the note stays until a full dump says otherwise"
    );
}

/// The remembered copy is a way to skip *reading* the file, never a way
/// to skip believing it. A second process replacing the note through
/// rename - which is what --flush and --once do - has to be seen.
#[test]
fn a_note_replaced_by_another_process_is_read_again() {
    let dir = scratch("note-replaced");
    let mut s = S::new(Vec::new(), dir.clone());
    s.save_owned("nic1", &[BEHIND_NIC].into_iter().collect::<Macs<_>>());
    assert_eq!(
        s.load_owned("nic1"),
        [BEHIND_NIC].into_iter().collect::<Macs<_>>()
    );

    // What another process's save_owned leaves: a different file in the
    // same place, same length, written through rename.
    let other = dir.join("other");
    Fs::write(&other, format!("{}\n", format_mac(&BEHIND_GUEST))).unwrap();
    Fs::rename(&other, dir.join("nic1.owned")).unwrap();

    assert_eq!(
        s.load_owned("nic1"),
        [BEHIND_GUEST].into_iter().collect::<Macs<_>>(),
        "the file is the truth; the copy only saves reading it"
    );
}

/// A note written in the same instant it was read cannot be told from one
/// written before, and the copy would then be out of date when made: the
/// timestamp has to be strictly older than the read.
#[test]
fn a_note_not_older_than_its_reading_is_never_believed() {
    let dir = scratch("note-instant");
    let path = dir.join("nic1.owned");
    let mut s = S::new(Vec::new(), dir.clone());
    s.save_owned("nic1", &[BEHIND_NIC].into_iter().collect::<Macs<_>>());

    // A timestamp in the future stands in for "the same instant": both
    // are timestamps that are not older than the moment of reading, and
    // the file can be changed afterwards without the timestamp moving.
    let ahead = 4_000_000_000; // 2096
    set_mtime(&path, ahead);
    assert_eq!(
        s.load_owned("nic1"),
        [BEHIND_NIC].into_iter().collect::<Macs<_>>()
    );

    // Changed underneath, with identity, length and timestamp all left
    // looking exactly as they did.
    Fs::write(&path, format!("{}\n", format_mac(&BEHIND_GUEST))).unwrap();
    set_mtime(&path, ahead);

    assert_eq!(
        s.load_owned("nic1"),
        [BEHIND_GUEST].into_iter().collect::<Macs<_>>(),
        "a note whose timestamp is not older than the read has to be read"
    );
}

/// A pass dumps the whole forwarding table, so what a batch is worth is
/// decided before one is scheduled. Four answers; the difference between the
/// first two is what the eBPF experiment measured as 3.5 seconds of CPU for
/// nothing.
#[test]
fn only_a_batch_with_something_in_it_earns_a_pass() {
    let dir = scratch("worth");
    let topo = host(mac(1));
    let vf = vec![(2, VF_ADMIN)];

    let mut s = ready_syncer(&dir);
    s.remember_vf(vec![2], vf.clone());
    let mut sock = FakeSock::default();

    // Somebody else's address, learnt out on the wire. Nothing of ours.
    assert!(
        s.fast_apply(&mut sock, &topo, &[(RTM_NEWNEIGH, learned(2, 10, WIRE))])
            .unwrap()
            == Urgency::Nothing,
        "learning on the wire that was never ours leaves nothing to reconcile"
    );

    // An entry on a bridge that has nothing to do with this uplink.
    assert!(
        s.fast_apply(
            &mut sock,
            &topo,
            &[(RTM_NEWNEIGH, learned(22, 20, OTHER_BRIDGE))]
        )
        .unwrap()
            == Urgency::Nothing,
        "another bridge's forwarding is not this uplink's business"
    );

    // A guest behind the bridge: registered, and the pass reconciles.
    assert!(
        s.fast_apply(
            &mut sock,
            &topo,
            &[(RTM_NEWNEIGH, learned(3, 10, BEHIND_NIC))]
        )
        .unwrap()
            == Urgency::Now,
        "an address behind the bridge is ours, and registering it is not \
         something to sit on"
    );

    // A deletion: only a full dump can say whether that was the last copy.
    assert!(
        s.fast_apply(
            &mut sock,
            &topo,
            &[(RTM_DELNEIGH, learned(3, 10, BEHIND_NIC))]
        )
        .unwrap()
            == Urgency::WhenConvenient,
        "a deletion has to be looked at - but a table ageing out sends \
         hundreds, and none of them is urgent"
    );

    // One of ours turning up on the wire: unregistered here, reconciled there.
    let mut s2 = ready_syncer(&dir);
    s2.remember_vf(vec![2], vf);
    s2.save_owned("nic1", &[BEHIND_GUEST].into_iter().collect::<Macs<_>>());
    assert!(
        s2.fast_apply(
            &mut sock,
            &topo,
            &[(RTM_NEWNEIGH, learned(2, 10, BEHIND_GUEST))]
        )
        .unwrap()
            == Urgency::Now,
        "taking one of ours back out is a change the pass has to see"
    );
}

/// The fast path adds to a note without rewriting it. What matters is
/// that the address is in the note afterwards, whatever the file looks
/// like - and that a note somebody else replaced meanwhile is not lost.
#[test]
fn a_note_is_added_to_rather_than_rewritten() {
    let dir = scratch("append");
    let mut s = S::new(Vec::new(), dir.clone());
    s.save_owned("nic1", &[BEHIND_NIC].into_iter().collect::<Macs<_>>());
    let before = Fs::metadata(dir.join("nic1.owned")).unwrap().len();

    s.append_owned("nic1", &[BEHIND_GUEST, UPLINK_WARD]);

    assert_eq!(
        s.load_owned("nic1"),
        [BEHIND_NIC, BEHIND_GUEST, UPLINK_WARD]
            .into_iter()
            .collect::<Macs<_>>(),
        "everything that was there, plus what was added"
    );
    let after = Fs::metadata(dir.join("nic1.owned")).unwrap().len();
    assert!(after > before, "the file grew rather than being replaced");

    // A note with no file yet - the first registration after a reboot.
    s.append_owned("nic2", &[BEHIND_NIC]);
    assert_eq!(
        s.load_owned("nic2"),
        [BEHIND_NIC].into_iter().collect::<Macs<_>>(),
        "a note that did not exist is created"
    );
}

/// An address the note already names is not written again: a full pass
/// rewrites the file only when the set changed, and a duplicate line does not
/// change the set - the file would grow by a line per re-registration for
/// ever.
#[test]
fn a_note_does_not_collect_duplicate_lines() {
    let dir = scratch("append-dup");
    let mut s = S::new(Vec::new(), dir.clone());
    s.append_owned("nic1", &[BEHIND_NIC]);
    s.append_owned("nic1", &[BEHIND_NIC]);
    s.append_owned("nic1", &[BEHIND_NIC, BEHIND_GUEST]);
    assert_eq!(
        s.load_owned("nic1"),
        [BEHIND_NIC, BEHIND_GUEST].into_iter().collect::<Macs<_>>()
    );
    let text = Fs::read_to_string(dir.join("nic1.owned")).unwrap();
    assert_eq!(
        text.lines().count(),
        2,
        "one line per address, however often it is registered:\n{text}"
    );
}

/// A --flush from a second process replaces the note while the daemon adds to
/// it: appending to what it left is right, carrying on with a copy that
/// describes the replaced file is not.
///
/// This pins the ordinary case (flush before the append's read). It does
/// *not* exercise the size check in `append_owned`, which covers a flush
/// between that read and the write - a window no test can produce without a
/// hook; that check is kept on argument, not measurement.
#[test]
fn a_note_rewritten_between_read_and_append_is_not_remembered() {
    let dir = scratch("append-race");
    let path = dir.join("nic1.owned");
    let mut s = S::new(Vec::new(), dir.clone());
    s.save_owned(
        "nic1",
        &[BEHIND_NIC, BEHIND_GUEST].into_iter().collect::<Macs<_>>(),
    );
    assert_eq!(s.load_owned("nic1").len(), 2); // the copy is now warm

    // What --flush leaves: a different file, through rename, holding
    // nothing.
    let other = dir.join("flushed");
    Fs::write(&other, "").unwrap();
    Fs::rename(&other, &path).unwrap();

    s.append_owned("nic1", &[UPLINK_WARD]);

    assert_eq!(
        s.load_owned("nic1"),
        [UPLINK_WARD].into_iter().collect::<Macs<_>>(),
        "the file is the truth: it holds what was appended and nothing else"
    );
}

/// What a link message is about decides whether the driver is asked about VF
/// addresses again - the most expensive thing a pass does. A container's veth
/// is no reason; the interface handing out the functions is.
#[test]
fn only_an_interface_with_virtual_functions_makes_their_addresses_stale() {
    let topo = host(mac(1));
    let veth = idx(&topo, "veth0").unwrap();
    let pf = idx(&topo, "nic1").unwrap(); // has vfs(1) in the fixture
    let plain = idx(&topo, "nic2").unwrap();

    let now = Some(&topo);
    assert!(
        !vf_may_have_changed(now, now, &[veth]),
        "a container's veth says nothing about virtual functions"
    );
    assert!(
        !vf_may_have_changed(now, now, &[plain, veth]),
        "nor does an ordinary NIC in the same bridge"
    );
    assert!(
        vf_may_have_changed(now, now, &[pf]),
        "the interface handing out virtual functions is a reason to ask"
    );
    assert!(
        vf_may_have_changed(now, now, &[veth, pf]),
        "one reason in the batch is enough"
    );
    assert!(
        vf_may_have_changed(now, now, &[9999]),
        "an interface neither picture has is a reason to ask"
    );

    // A veth that has just been destroyed: gone from the new picture,
    // still in the old one, and never a reason to ask. Judging by the new
    // picture alone made every deletion a reason - which on a host with
    // containers is every second link message.
    let gone = Topology::assemble(Vec::new());
    assert!(
        !vf_may_have_changed(now, Some(&gone), &[veth]),
        "what it was is in the picture from before it went"
    );
    assert!(
        vf_may_have_changed(now, Some(&gone), &[pf]),
        "and a virtual function going is still a reason"
    );
}

/// The same rule for a virtual function itself: a guest setting its own
/// address is announced as a link message about that interface, and it
/// changes what must be excluded without moving a forwarding entry.
#[test]
fn a_virtual_function_of_its_own_counts_too() {
    let topo = Builder::new()
        .add("pf0", 2, Some(mac(1)))
        .vfs(2)
        .add("pf0v0", 3, Some(mac(2)))
        .physfn("pf0")
        .add("tap0", 4, Some(mac(3)))
        .build();
    let now = Some(&topo);
    assert!(vf_may_have_changed(
        now,
        now,
        &[idx(&topo, "pf0v0").unwrap()]
    ));
    assert!(!vf_may_have_changed(
        now,
        now,
        &[idx(&topo, "tap0").unwrap()]
    ));
}


/// A guest that moved away and came back: its address is in the set the last
/// pass saw on the wire, so the fast path rightly refuses it - only a full
/// dump can say where it is now. It must not also decide the batch was worth
/// nothing: the full pass is the only thing that replaces that set, so the
/// refusal would suppress its own correction until the timer.
#[test]
fn an_address_the_wire_set_still_holds_still_buys_a_pass() {
    let dir = scratch("wire-return");
    let topo = host(mac(1));
    let mut s = ready_syncer(&dir);
    s.remember_vf(vec![2], vec![(2, VF_ADMIN)]);
    // The last pass saw this address out on the wire.
    s.set_wire("nic1", [BEHIND_NIC].into_iter().collect::<Macs<_>>());

    let mut sock = FakeSock::default();
    let urgency = s
        .fast_apply(
            &mut sock,
            &topo,
            // ... and now it is learnt behind the bridge again.
            &[(RTM_NEWNEIGH, learned(3, 10, BEHIND_NIC))],
        )
        .unwrap();

    assert!(
        sock.added.is_empty(),
        "the fast path cannot know it has really moved back; only a dump can"
    );
    assert_eq!(
        urgency,
        Urgency::Now,
        "but the pass that can find out has to be scheduled"
    );
}

/// The fast path and the full pass have to agree about whether the carried VF
/// answer can still be believed. Reusing the answer whenever the PF list
/// matched was not the question: the addresses change without that list
/// changing.
#[test]
fn the_fast_path_asks_again_when_the_answer_went_stale() {
    let dir = scratch("vf-stale");
    let topo = host(mac(1));
    let mut s = ready_syncer(&dir);
    // What the last pass was told, and then somebody set a VF's address.
    s.remember_vf(vec![2], vec![(2, VF_ADMIN)]);
    s.vf_stale = true;

    let fresh: Mac = [0x02, 0x99, 0x99, 0x99, 0x99, 0x99];
    let mut sock = FakeSock {
        vf: vec![(2, fresh)],
        ..Default::default()
    };
    s.fast_apply(&mut sock, &topo, &[(RTM_NEWNEIGH, learned(3, 10, fresh))])
        .unwrap();

    assert!(
        sock.added.is_empty(),
        "the address is a virtual function's own; registering it sends \
         that guest's traffic past it: {:?}",
        sock.added
    );
    assert!(!s.vf_stale, "and having asked, the answer is current again");
}

/// An interface reload takes a bridge away for a moment, and deleting a live
/// uplink's registrations within 200 ms of a routine `ifreload -a` is the
/// outage this daemon exists to prevent. A device has to stay gone before its
/// note is believed an orphan.
#[test]
fn a_device_that_blinks_is_not_an_orphan() {
    let dir = scratch("orphan-grace");
    let topo = host(mac(1));
    let mut s = ready_syncer(&dir);
    s.orphan_grace = 60_000_000_000;
    s.save_owned("nic1", &[BEHIND_NIC].into_iter().collect::<Macs<_>>());

    // The bridge went; autodetection finds nothing this pass.
    s.pairs.clear();
    let mut sock = FakeSock::default();
    s.drop_orphans(&mut sock, &topo, true, &mut Vec::new());
    assert!(
        sock.removed.is_empty(),
        "an interface that has been gone for an instant is not gone: {:?}",
        sock.removed
    );
    assert_eq!(
        s.load_owned("nic1").len(),
        1,
        "and its note stays, or the entries become orphans nothing owns"
    );

    // It comes back, as it does after ifreload.
    s.pairs.push(pair());
    s.drop_orphans(&mut sock, &topo, true, &mut Vec::new());
    assert!(sock.removed.is_empty(), "still nothing to remove");

    // A device that really is gone, with the grace period behind it.
    s.pairs.clear();
    s.orphan_grace = 0;
    s.drop_orphans(&mut sock, &topo, true, &mut Vec::new());
    assert_eq!(
        sock.removed,
        vec![(2, BEHIND_NIC)],
        "what is genuinely gone still gets cleaned up"
    );
}

/// `--once` beside a running daemon writes the same note, and a pass takes
/// long enough for that to land inside one. Whoever wrote last used to keep
/// only its own lines, leaving the other's address in the card owned by
/// nobody - which --flush cannot clean up, because it iterates the notes.
#[test]
fn a_pass_writes_its_difference_not_its_picture() {
    let dir = scratch("note-merge");
    let mut s = S::new(Vec::new(), dir.clone());

    // What the pass read when it started.
    let before = [BEHIND_NIC].into_iter().collect::<Macs<_>>();
    s.save_owned("nic1", &before);

    // While it worked, somebody's --once registered another address.
    let mut theirs = before.clone();
    theirs.insert(UPLINK_WARD);
    s.save_owned("nic1", &theirs);

    // The pass finishes: it claimed one address and released none.
    let mut after = before.clone();
    after.insert(BEHIND_GUEST);
    s.save_owned_merged("nic1", &before, &after);

    assert_eq!(
        s.load_owned("nic1"),
        [BEHIND_NIC, UPLINK_WARD, BEHIND_GUEST]
            .into_iter()
            .collect::<Macs<_>>(),
        "both writers' addresses have to survive"
    );

    // And a release still releases.
    let mut fewer = s.load_owned("nic1");
    let start = fewer.clone();
    fewer.remove(&BEHIND_NIC);
    s.save_owned_merged("nic1", &start, &fewer);
    assert!(!s.load_owned("nic1").contains(&BEHIND_NIC));
}

/// The same window as the unit test above, but through a whole pass: the
/// note is written to from outside while the pass is between reading it
/// and writing it back. What the other writer added has to survive.
#[test]
fn a_pass_does_not_overwrite_what_appeared_while_it_ran() {
    let dir = scratch("note-window");
    let topo = host(mac(1));
    let mut s = ready_syncer(&dir);
    s.save_owned("nic1", &Macs::new());
    let mut sock = FakeSock {
        fdb: fdb(),
        vf: vec![(2, VF_ADMIN)],
        // Somebody else's --once registers this the moment our pass
        // writes its first entry.
        meanwhile: Some((dir.join("nic1.owned"), OTHER_BRIDGE)),
        ..Default::default()
    };

    s.reconcile(&mut sock, true, &topo, 0).unwrap();

    let note = s.load_owned("nic1");
    assert!(
        note.contains(&OTHER_BRIDGE),
        "the other writer's address was thrown away: {note:?}"
    );
    assert!(
        note.contains(&BEHIND_NIC),
        "and our own registrations are still on record"
    );
}

/// A VF handed straight to a guest, with no host-set address and no interface
/// here, is in no exclusion set: its address is not knowable, so it has to be
/// said, once, with the two ways to close it.
#[test]
fn an_unknowable_virtual_function_is_reported_once() {
    let dir = scratch("vf-unknown");
    // Two functions, one netdev here, no address set from the host.
    let topo = Builder::new()
        .add("pf0", 2, Some(mac(1)))
        .master("br0")
        .vfs(2)
        .add("pf0v0", 3, Some(mac(2)))
        .physfn("pf0")
        .add("br0", 10, Some(mac(1)))
        .bridge()
        .lower("pf0")
        .build();
    let mut s = S::new(
        vec![Pair {
            dev: "pf0".into(),
            bridge: "br0".into(),
        }],
        dir.clone(),
    );

    assert!(
        !s.said().unknown_vf.contains("pf0"),
        "nothing said before it is looked at"
    );
    s.warn_about_unknowable_vfs(&topo, "pf0", &[]);
    assert!(
        s.said().unknown_vf.contains("pf0"),
        "and once looked at, not looked at again every pass for ever"
    );

    // With both addresses known there is nothing to report, and nothing
    // to silence either: the mark stays off, so the warning is armed for
    // the day a guest takes one of these and the situation actually
    // arises. It used to be set here - "asked and answered" - which
    // silenced the warning for the life of the process.
    let mut quiet = S::new(s.pairs.clone(), dir.clone());
    quiet.warn_about_unknowable_vfs(
        &topo,
        "pf0",
        &[(2, [0x02, 0, 0, 0, 0, 9]), (2, [0x02, 0, 0, 0, 0, 10])],
    );
    assert!(!quiet.said().unknown_vf.contains("pf0"));
}

// ----------------------------------------------------------------- quiet keep

/// nic1 (one VF) and a veth guest port side by side in br0 - the small
/// stage most valve and clock tests play on. Indices: nic1=2, vetha=4,
/// br0=10.
fn small_host() -> Topology {
    Builder::new()
        .add("nic1", 2, Some(mac(1)))
        .master("br0")
        .vfs(1)
        .add("vetha", 4, Some(mac(4)))
        .master("br0")
        .add("br0", 10, Some(mac(3)))
        .bridge()
        .lower("nic1")
        .lower("vetha")
        .build()
}

/// `small_host` with a bridge that forgets after `ms` milliseconds.
///
/// Taken as an argument rather than hidden: at the shipped defaults - a
/// 300 s interval against the kernel's 300 s ageing - a deletion's date can
/// never move a stamp at all, so a test of the dating has to say out loud
/// that its bridge ages faster than its passes.
fn small_host_ageing(ms: u64) -> Topology {
    Builder::new()
        .add("nic1", 2, Some(mac(1)))
        .master("br0")
        .vfs(1)
        .add("vetha", 4, Some(mac(4)))
        .master("br0")
        .add("br0", 10, Some(mac(3)))
        .bridge()
        .ageing(Some(ms))
        .lower("nic1")
        .lower("vetha")
        .build()
}

/// An authoritative syncer over the nic1:br0 pair, state in `dir`.
fn br0_syncer(dir: &Dir) -> S {
    let mut s = S::new(
        vec![Pair {
            dev: "nic1".into(),
            bridge: "br0".into(),
        }],
        dir.clone(),
    );
    s.authoritative = true;
    s
}

/// A socket answering with this forwarding table and one admin-set VF -
/// the shape 60-odd tests want and nothing else varies.
fn kernel(fdb: Vec<FdbEntry>) -> FakeSock {
    FakeSock {
        fdb,
        vf: vec![(2, VF_ADMIN)],
        ..Default::default()
    }
}

/// The ritual most quiet tests open with: the host fixture, a ready
/// syncer over `dir`, and a first pass that registered everything. The
/// returned sock holds what that pass added.
fn registered(dir: &Dir) -> (Topology, S, FakeSock) {
    let topo = host(mac(1));
    let mut s = ready_syncer(dir);
    let mut sock = kernel(fdb());
    s.reconcile(&mut sock, true, &topo, 0).unwrap();
    (topo, s, sock)
}

/// The forwarding table as the fixture knows it, minus one address - the
/// shape a dump takes after the bridge aged that address out.
fn fdb_without(mac: Mac) -> Vec<FdbEntry> {
    fdb().into_iter().filter(|e| e.mac != mac).collect()
}

/// A `self` entry as the card would report it: the address is in the
/// uplink's own filter list.
fn card_holds(dev: u32, mac: Mac) -> FdbEntry {
    FdbEntry {
        ifindex: dev,
        master: None,
        mac,
        state: 0,
        flags: 0x02, // NTF_SELF
    }
}

/// A guest that goes quiet stays registered while its port lives. The
/// container behind the IOT vnet ages out of the bridge; its veth still
/// exists, so the address is neither removed nor re-added - it is simply
/// kept, and the report says so. This is also the stacked-vnet arm of the
/// reachability walk: veth0 hangs under IOT, which leads down to vmbr1.
#[test]
fn an_aged_guest_behind_a_living_port_stays_registered() {
    let dir = scratch("quiet-kept");
    let (topo, mut s, _) = registered(&dir);
    assert!(s.load_owned("nic1").contains(&BEHIND_GUEST));

    let mut aged = fdb_without(BEHIND_GUEST);
    aged.push(card_holds(2, BEHIND_GUEST));
    let mut sock2 = kernel(aged);
    let reports = s.reconcile(&mut sock2, true, &topo, 0).unwrap();
    assert!(
        !sock2.removed.iter().any(|(_, m)| *m == BEHIND_GUEST),
        "the quiet guest was unregistered although its port lives"
    );
    assert!(
        !sock2.added.iter().any(|(_, m)| *m == BEHIND_GUEST),
        "the card already held it; re-adding is churn"
    );
    assert!(s.load_owned("nic1").contains(&BEHIND_GUEST));
    assert_eq!(reports[0].quiet, 1, "the report has to say what is held");
}

/// A pass against the aged forwarding table, after the first pass of
/// `syncer` registered everything - the shape the quiet tests share.
fn age_out(s: &mut S, topo: &Topology, m: Mac) -> Vec<Report> {
    let mut aged = fdb_without(m);
    aged.push(card_holds(2, m));
    let mut sock = kernel(aged);
    let reports = s.reconcile(&mut sock, true, topo, 0).unwrap();
    for (_, gone) in sock.removed {
        assert_ne!(gone, m, "removed although its port still lives");
    }
    reports
}

/// A device behind a physical NIC in the bridge is bitten by ageing exactly
/// like a guest - the frame must cross the bridge either way - so it is
/// kept the same way: while the port lives, without a clock. Time passing
/// changes nothing; only pressure, a move or the port going do.
#[test]
fn an_aged_address_on_a_physical_port_is_kept_while_the_port_lives() {
    let dir = scratch("quiet-lan-kept");
    let (topo, mut s, _) = registered(&dir);
    assert!(s.load_owned("nic1").contains(&BEHIND_NIC));

    let reports = age_out(&mut s, &topo, BEHIND_NIC);
    assert!(s.load_owned("nic1").contains(&BEHIND_NIC));
    assert_eq!(reports[0].quiet, 1, "the quiet device counts as held");

    // And again, later: there is no window to run out of.
    let reports = age_out(&mut s, &topo, BEHIND_NIC);
    assert!(s.load_owned("nic1").contains(&BEHIND_NIC));
    assert_eq!(reports[0].quiet, 1);
}

/// The physical port disappearing takes its whole segment with it: the
/// kept address goes, exactly as a guest's does when its veth dies.
#[test]
fn a_kept_lan_address_leaves_when_its_nic_does() {
    let dir = scratch("quiet-lan-port-gone");
    let (topo, mut s, _) = registered(&dir);
    age_out(&mut s, &topo, BEHIND_NIC);

    // nic2 is unplugged from the picture entirely.
    let smaller = Builder::new()
        .add("nic1", 2, Some(mac(1)))
        .master("vmbr1")
        .vfs(1)
        .add("vmbr1", 10, Some(mac(1)))
        .bridge()
        .lower("nic1")
        .build();
    let mut sock2 = kernel(vec![card_holds(2, BEHIND_NIC)]);
    s.reconcile(&mut sock2, true, &smaller, 0).unwrap();
    assert!(
        sock2.removed.iter().any(|(_, m)| *m == BEHIND_NIC),
        "the NIC is gone; its addresses have to go with it"
    );
}

/// The port going is the guest going: the keep ends with the veth.
#[test]
fn a_kept_address_leaves_when_its_port_does() {
    let dir = scratch("quiet-port-gone");
    let (_topo, mut s, _) = registered(&dir);

    // The container stopped: veth0 is gone from the picture.
    let vethless = Builder::new()
        .add("nic1", 2, Some(mac(1)))
        .master("vmbr1")
        .vfs(1)
        .add("nic2", 3, Some(mac(2)))
        .master("vmbr1")
        .add("vmbr1", 10, Some(mac(1)))
        .bridge()
        .lower("nic1")
        .lower("nic2")
        .add("vmbr1.44", 11, Some(mac(1)))
        .master("IOT")
        .lower("vmbr1")
        .add("IOT", 12, Some(mac(1)))
        .bridge()
        .lower("vmbr1.44")
        .build();
    let mut sock2 = kernel(fdb_without(BEHIND_GUEST));
    let reports = s.reconcile(&mut sock2, true, &vethless, 0).unwrap();
    assert!(
        sock2.removed.iter().any(|(_, m)| *m == BEHIND_GUEST),
        "the port is gone, the keep has to end"
    );
    assert_eq!(reports[0].quiet, 0);
}

/// The wire still has the last word: an address that reappears on the
/// uplink's own port is removed even while its old veth lives on.
#[test]
fn the_wire_wins_over_a_quiet_keep() {
    let dir = scratch("quiet-wire");
    let (topo, mut s, _) = registered(&dir);

    // The guest moved to another host: gone behind the bridge, learnt on
    // the uplink port instead.
    let mut moved = fdb_without(BEHIND_GUEST);
    moved.push(learned(2, 10, BEHIND_GUEST));
    let mut sock2 = kernel(moved);
    s.reconcile(&mut sock2, true, &topo, 0).unwrap();
    assert!(
        sock2.removed.iter().any(|(_, m)| *m == BEHIND_GUEST),
        "an address out on the wire must not be kept alive"
    );
    assert!(!s.load_owned("nic1").contains(&BEHIND_GUEST));
}

/// The reflection evicts the port memory along with the entry. Mandatory,
/// not tidiness: if its note write fails, the address stays on the note,
/// and a later pass whose dump no longer shows the wire entry would
/// otherwise keep alive the very address the reflection took out.
#[test]
fn a_reflection_evicts_the_port_memory() {
    let dir = scratch("quiet-reflection");
    let (topo, mut s, mut sock) = registered(&dir);

    // The batch that says the guest moved out onto the wire.
    s.fast_apply(
        &mut sock,
        &topo,
        &[(RTM_NEWNEIGH, learned(2, 10, BEHIND_GUEST))],
    )
    .unwrap();
    assert!(sock.removed.iter().any(|(_, m)| *m == BEHIND_GUEST));

    // A pass whose dump shows neither the wire entry nor the guest, with
    // the old veth still alive: nothing may come back.
    let mut sock2 = kernel(fdb_without(BEHIND_GUEST));
    let reports = s.reconcile(&mut sock2, true, &topo, 0).unwrap();
    assert!(
        !sock2.added.iter().any(|(_, m)| *m == BEHIND_GUEST),
        "the reflected address rose from the dead"
    );
    assert_eq!(reports[0].quiet, 0);
}

/// A restart is mostly an update, and an update that forgot its keeps
/// would unregister every quiet guest on its first pass - the outage this
/// feature exists to prevent, caused by our own package. The memory is
/// written down beside the note and taken over by whoever runs next.
#[test]
fn a_restart_takes_over_the_quiet_memory() {
    let dir = scratch("quiet-restart");
    let (topo, mut s, _) = registered(&dir);
    // The guest goes quiet while the old process is still running, so the
    // clock is already ticking when it is written down.
    age_out(&mut s, &topo, BEHIND_GUEST);
    drop(s);

    let mut restarted = ready_syncer(&dir);
    let mut aged = fdb_without(BEHIND_GUEST);
    aged.push(card_holds(2, BEHIND_GUEST));
    let mut sock2 = kernel(aged);
    let reports = restarted
        .reconcile(&mut sock2, true, &topo, 0)
        .unwrap();
    assert!(
        !sock2.removed.iter().any(|(_, m)| *m == BEHIND_GUEST),
        "the restart unregistered the quiet guest - the memory did not survive"
    );
    assert_eq!(reports[0].quiet, 1);
    assert!(restarted.load_owned("nic1").contains(&BEHIND_GUEST));
}

/// A reboot is the one restart that legitimately forgets: /run is a tmpfs,
/// so the notes and the memory go together - and the card's filter went
/// with the power, so there is nothing left to keep.
#[test]
fn a_reboot_starts_from_nothing() {
    let dir = scratch("quiet-reboot");
    let (topo, mut s, _) = registered(&dir);
    age_out(&mut s, &topo, BEHIND_GUEST);
    assert!(
        dir.join(".nic1.owned.ports").is_there(),
        "nothing was written down"
    );
    drop(s);

    // The tmpfs is empty again, but the note survived on paper - the state
    // this cannot distinguish from a hand-deleted memory, and it has to
    // behave like every build before it did.
    let _ = Fs::remove_file(dir.join(".nic1.owned.ports"));
    let mut restarted = ready_syncer(&dir);
    let mut sock2 = kernel(fdb_without(BEHIND_GUEST));
    let reports = restarted
        .reconcile(&mut sock2, true, &topo, 0)
        .unwrap();
    assert!(
        sock2.removed.iter().any(|(_, m)| *m == BEHIND_GUEST),
        "without a memory a restart has to fall back to the old behaviour"
    );
    assert_eq!(reports[0].quiet, 0);
}

/// The written-down memory names a port both ways, and only a line whose
/// name still carries that very index counts. An interface replaced under
/// the same name does not hand its keeps to whatever took its place.
#[test]
fn a_replaced_port_does_not_inherit_the_memory() {
    let dir = scratch("quiet-replaced-port");
    let (topo, mut s, _) = registered(&dir);
    age_out(&mut s, &topo, BEHIND_GUEST);
    drop(s);

    // veth0 was deleted and recreated while nobody was running: same name,
    // new index - and index 13, which the memory names, now belongs to a
    // different interface that IS a live port of this bridge. Only the
    // name-and-index check can tell; an index alone still resolves, and
    // resolves to somebody else's port.
    let replaced = Builder::new()
        .add("nic1", 2, Some(mac(1)))
        .master("vmbr1")
        .vfs(1)
        .add("nic2", 3, Some(mac(2)))
        .master("vmbr1")
        .add("nic9", 13, Some(mac(9)))
        .master("vmbr1")
        .add("vmbr1", 10, Some(mac(1)))
        .bridge()
        .lower("nic1")
        .lower("nic2")
        .lower("nic9")
        .add("vmbr1.44", 11, Some(mac(1)))
        .lower("vmbr1")
        .add("IOT", 12, Some(mac(0x12)))
        .bridge()
        .lower("vmbr1.44")
        .lower("veth0")
        .add("veth0", 99, Some(mac(0x13)))
        .master("IOT")
        .build();
    let mut restarted = ready_syncer(&dir);
    let mut sock2 = kernel(vec![card_holds(2, BEHIND_GUEST)]);
    let reports = restarted
        .reconcile(&mut sock2, true, &replaced, 0)
        .unwrap();
    assert!(
        sock2.removed.iter().any(|(_, m)| *m == BEHIND_GUEST),
        "the keep was inherited by an interface that only shares the name"
    );
    assert!(!restarted.load_owned("nic1").contains(&BEHIND_GUEST));
    // The address behind nic2 keeps its memory: that port is untouched,
    // and only the line about veth0 stopped describing this kernel.
    assert_eq!(reports[0].quiet, 1);
}

/// The clock survives with the memory: an address that went quiet before a
/// restart keeps its age, so the valve still sheds longest-silent first.
/// Asserted through the valve, because ordering evictions is the only thing
/// the number is for - reading it back out of the file would pass even if
/// loading had restamped it.
#[test]
fn the_missing_clock_survives_a_restart() {
    let dir = scratch("quiet-clock-restart");
    // `old` sorts after `young`, so only a surviving clock can name it.
    let old: Mac = [0x02, 0xe6, 0, 0, 0, 2];
    let young: Mac = [0x02, 0xe6, 0, 0, 0, 1];
    let topo = small_host();
    let mut s = br0_syncer(&dir);
    let mut sock = kernel(vec![learned(4, 10, old), learned(4, 10, young)]);
    s.reconcile(&mut sock, true, &topo, 0).unwrap();

    // Both go quiet before the restart, one pass apart: after this the
    // only thing that tells them apart is the gap between their stamps,
    // which is exactly what has to survive. No sleep buys that gap - a
    // pass stamp is `max(clock, previous + 1)`, so two passes can never
    // share one however fast they follow each other.
    let mut sock2 = kernel(vec![card_holds(2, old), learned(4, 10, young)]);
    s.reconcile(&mut sock2, true, &topo, 0).unwrap();
    let mut sock3 = kernel(vec![card_holds(2, old), card_holds(2, young)]);
    s.reconcile(&mut sock3, true, &topo, 0).unwrap();
    drop(s);

    // The update lands, and the filter is tight. The one shed has to be
    // `old`; a process that restamped both on the way in would see a tie
    // and fall back to the addresses themselves, which names `young`.
    let mut restarted = br0_syncer(&dir);
    restarted.max_macs = 6;
    let mut sock4 = kernel(vec![card_holds(2, old), card_holds(2, young)]);
    restarted
        .reconcile(&mut sock4, true, &topo, 0)
        .unwrap();
    assert!(
        sock4.removed.iter().any(|(_, m)| *m == old),
        "the restart lost the head start; the valve shed by address order"
    );
    assert!(
        !sock4.removed.iter().any(|(_, m)| *m == young),
        "the entry that only just went quiet was shed first"
    );
}

/// A memory file full of nonsense is no memory: unreadable lines are
/// stepped over, and what is left still has to be true of this kernel.
#[test]
fn a_damaged_memory_file_is_stepped_over() {
    let dir = scratch("quiet-damaged");
    let (topo, mut s, _) = registered(&dir);
    // Both go quiet, so both are written down with a clock - one line to
    // damage, one to leave alone.
    let mut aged: Vec<FdbEntry> = fdb()
        .into_iter()
        .filter(|e| e.mac != BEHIND_GUEST && e.mac != BEHIND_NIC)
        .collect();
    aged.push(card_holds(2, BEHIND_GUEST));
    aged.push(card_holds(2, BEHIND_NIC));
    let mut quiet = kernel(aged.clone());
    s.reconcile(&mut quiet, true, &topo, 0).unwrap();
    assert!(quiet.removed.is_empty(), "both should be kept, not removed");
    drop(s);

    let path = dir.join(".nic1.owned.ports");
    let good = Fs::read_to_string(&path).unwrap();
    // Keep the guest's line intact and replace the other one with a line
    // whose clock cannot be read, then bury both in junk: no address, an
    // unparsable index, a truncated line, a blank one.
    let keep: Vec<&str> = good
        .lines()
        .filter(|l| l.starts_with(&format_mac(&BEHIND_GUEST)))
        .collect();
    assert_eq!(keep.len(), 1, "the fixture wrote something unexpected");
    let head = good.lines().next().unwrap().to_string();
    Fs::write(
        &path,
        format!(
            "{head}\nnot-an-address veth0 13 0\n{}\n\n\
             02:00:00:00:00:99 veth0 notanumber 0\n\
             {} nic2 3 notaclock\n02:00:00:00:00:98\n",
            keep[0],
            format_mac(&BEHIND_NIC)
        ),
    )
    .unwrap();

    let mut restarted = ready_syncer(&dir);
    let mut sock2 = kernel(aged);
    let reports = restarted
        .reconcile(&mut sock2, true, &topo, 0)
        .unwrap();
    assert!(
        !sock2.removed.iter().any(|(_, m)| *m == BEHIND_GUEST),
        "the one good line was thrown away with the damaged ones"
    );
    assert!(
        sock2.removed.iter().any(|(_, m)| *m == BEHIND_NIC),
        "a line whose clock cannot be read was believed anyway"
    );
    assert_eq!(reports[0].quiet, 1);
}

/// A kept address missing from the filter is a growth, and a growth on a
/// carried VF answer is the bug class the grow-refresh exists for. The card
/// holds everything else, so the kept address is the ONLY thing that can trip
/// the trigger - a pass that puts the survivors into `want` after the trigger
/// decided would register on the carried answer.
#[test]
fn a_kept_absent_address_triggers_the_grow_refresh() {
    let dir = scratch("quiet-grow");
    let (topo, mut s, sock) = registered(&dir);

    // Everything the first pass registered is in the card.
    let holds: Vec<FdbEntry> =
        sock.added.iter().map(|&(_, m)| card_holds(2, m)).collect();

    // Pass 2: aged out of the bridge, the card still whole - entering the
    // kept state buys its own fresh question, and the answer is clean.
    let mut aged: Vec<FdbEntry> = fdb_without(BEHIND_GUEST);
    aged.extend(holds.iter().cloned());
    let mut sock2 = kernel(aged);
    s.reconcile(&mut sock2, true, &topo, 0).unwrap();
    assert!(
        sock2.vf_asked >= 1,
        "entering the kept state has to buy a fresh driver question"
    );
    assert!(s.load_owned("nic1").contains(&BEHIND_GUEST));

    // Pass 3: long quiet now, and the card lost the entry (a driver that
    // cleared its list on link-down). Meanwhile a guest claimed the
    // address over the mailbox: the driver's current truth calls it a
    // VF's own. Healing it back in would be a growth - the carried answer
    // must not decide it.
    let mut lost: Vec<FdbEntry> = fdb_without(BEHIND_GUEST);
    lost.extend(holds.iter().filter(|e| e.mac != BEHIND_GUEST).cloned());
    let mut sock3 = FakeSock {
        fdb: lost,
        vf: vec![(2, VF_ADMIN), (2, BEHIND_GUEST)],
        ..Default::default()
    };
    s.reconcile(&mut sock3, true, &topo, 0).unwrap();
    assert!(
        sock3.vf_asked >= 1,
        "a growing pass on a carried answer has to ask the driver"
    );
    assert!(
        !sock3.added.iter().any(|(_, m)| *m == BEHIND_GUEST),
        "a VF's own address was kept alive past its guest"
    );
}

/// The quiet state's entry ticket, on its own: a guest can claim an aged
/// address over the driver mailbox without any link message, so the pass
/// that begins keeping an address asks the driver afresh even when the
/// card already holds it and nothing else grows.
#[test]
fn entering_the_kept_state_buys_a_fresh_driver_question() {
    let dir = scratch("quiet-entry-ask");
    let (topo, mut s, sock) = registered(&dir);
    let holds: Vec<FdbEntry> =
        sock.added.iter().map(|&(_, m)| card_holds(2, m)).collect();

    // Aged, card whole, and the fresh answer says: that is a VF's own
    // address now. The keep must yield to it on the spot.
    let mut aged: Vec<FdbEntry> = fdb_without(BEHIND_GUEST);
    aged.extend(holds);
    let mut sock2 = FakeSock {
        fdb: aged,
        vf: vec![(2, VF_ADMIN), (2, BEHIND_GUEST)],
        ..Default::default()
    };
    let reports = s.reconcile(&mut sock2, true, &topo, 0).unwrap();
    assert!(
        sock2.vf_asked >= 1,
        "the entry into quietness has to ask the driver"
    );
    assert!(
        sock2.removed.iter().any(|(_, m)| *m == BEHIND_GUEST),
        "an address the fresh answer calls a VF's own has to leave the card"
    );
    assert_eq!(reports[0].quiet, 0);
}

/// Crash healing: a kept address that is missing from the card is
/// re-registered - the keep holds the claim, the pass repairs the filter.
#[test]
fn a_kept_address_missing_from_the_card_is_reregistered() {
    let dir = scratch("quiet-heal");
    let (topo, mut s, _) = registered(&dir);

    // Aged AND absent from the card (no self entry in the dump).
    let mut sock2 = FakeSock {
        fdb: fdb_without(BEHIND_GUEST),
        vf: vec![(2, VF_ADMIN)],
        ..Default::default()
    };
    s.reconcile(&mut sock2, true, &topo, 0).unwrap();
    assert!(
        sock2.added.iter().any(|(_, m)| *m == BEHIND_GUEST),
        "a kept address missing from the filter has to be healed back in"
    );
}

/// An operator's EXCLUDE outranks the keep, and a pinned EXTRA is wanted
/// outright - quiet counts neither.
#[test]
fn exclusions_and_extras_outrank_the_keep() {
    let dir = scratch("quiet-exclude");
    let (topo, mut s, _) = registered(&dir);

    // Excluded after the fact: the keep must not override the operator.
    s.exclude.insert(BEHIND_GUEST);
    let mut sock2 = kernel(fdb_without(BEHIND_GUEST));
    let reports = s.reconcile(&mut sock2, true, &topo, 0).unwrap();
    assert!(sock2.removed.iter().any(|(_, m)| *m == BEHIND_GUEST));
    assert_eq!(reports[0].quiet, 0);

    // Pinned instead: wanted through EXTRA, not counted as quiet.
    s.exclude.remove(&BEHIND_GUEST);
    s.extra.insert(BEHIND_NIC);
    let mut sock3 = kernel(fdb_without(BEHIND_NIC));
    let reports = s.reconcile(&mut sock3, true, &topo, 0).unwrap();
    assert!(
        !sock3.removed.iter().any(|(_, m)| *m == BEHIND_NIC),
        "a pinned address fell out"
    );
    assert_eq!(reports[0].quiet, 0, "extra is want, not quiet");
}

/// An unreadable note stalls the keep but must not erase its memory: when
/// the note heals, the quiet guest is still known.
#[test]
fn an_unreadable_note_does_not_erase_the_port_memory() {
    let dir = scratch("quiet-unreadable");
    let (topo, mut s, _) = registered(&dir);

    let note = dir.join("nic1.owned");
    Fs::set_readable(&note, false);
    let mut sock2 = kernel(fdb_without(BEHIND_GUEST));
    s.reconcile(&mut sock2, true, &topo, 0).unwrap();
    assert!(
        sock2.removed.is_empty(),
        "an unreadable note must hold the card still"
    );

    Fs::set_readable(&note, true);
    let mut aged = fdb_without(BEHIND_GUEST);
    aged.push(card_holds(2, BEHIND_GUEST));
    let mut sock3 = kernel(aged);
    let reports = s.reconcile(&mut sock3, true, &topo, 0).unwrap();
    assert!(
        !sock3.removed.iter().any(|(_, m)| *m == BEHIND_GUEST),
        "the memory did not survive the unreadable window"
    );
    assert_eq!(reports[0].quiet, 1);
}

/// Kept addresses cost filter slots and are the first surrendered as the
/// list nears its capacity - a surrendered keep is exactly the old
/// behaviour. The wanted core stays untouched.
#[test]
fn the_pressure_valve_sheds_keeps_first() {
    let dir = scratch("quiet-pressure");
    let m1: Mac = [0x02, 0xdd, 0, 0, 0, 1];
    let m2: Mac = [0x02, 0xdd, 0, 0, 0, 2];
    let m3: Mac = [0x02, 0xdd, 0, 0, 0, 3];
    let topo = small_host();
    let mut s = br0_syncer(&dir);
    let mut sock = kernel(vec![
        learned(4, 10, m1),
        learned(4, 10, m2),
        learned(4, 10, m3),
    ]);
    s.reconcile(&mut sock, true, &topo, 0).unwrap();

    // All three age out; with the bridge's own address that is four
    // occupied slots against allowed = max - headroom = 3: one must yield.
    s.max_macs = 7;
    let mut sock2 = kernel(vec![
        card_holds(2, m1),
        card_holds(2, m2),
        card_holds(2, m3),
    ]);
    let reports = s.reconcile(&mut sock2, true, &topo, 0).unwrap();
    assert_eq!(
        reports[0].quiet, 2,
        "the shed count is deterministic: one keep yields, two stand"
    );
    assert!(
        !sock2.removed.is_empty(),
        "a surrendered keep has to leave the card"
    );
}

/// Under pressure the longest-silent entry yields first, and a fresh
/// learn makes an entry young again: what goes is what has not been heard
/// from for the longest, not whoever happens to sort first.
#[test]
fn the_pressure_valve_sheds_the_longest_missing_first() {
    let dir = scratch("quiet-pressure-order");
    let old: Mac = [0x02, 0xde, 0, 0, 0, 2];
    let young: Mac = [0x02, 0xde, 0, 0, 0, 1];
    let topo = small_host();
    let mut s = br0_syncer(&dir);
    let mut sock = kernel(vec![learned(4, 10, old), learned(4, 10, young)]);
    s.reconcile(&mut sock, true, &topo, 0).unwrap();

    // `old` ages out first and its clock starts; `young` is still learnt.
    // `young` sorts before `old` by address, so a valve that ignored the
    // clock would shed `young` - only the clock names `old`.
    let mut sock2 = kernel(vec![card_holds(2, old), learned(4, 10, young)]);
    s.reconcile(&mut sock2, true, &topo, 0).unwrap();

    // Now both are quiet, and the limit leaves room for only some of the
    // list: the longest-silent - `old` - is the one surrendered.
    s.max_macs = 6;
    let mut sock3 = kernel(vec![card_holds(2, old), card_holds(2, young)]);
    s.reconcile(&mut sock3, true, &topo, 0).unwrap();
    assert!(
        sock3.removed.iter().any(|(_, m)| *m == old),
        "pressure has to cost the longest-silent entry"
    );
    assert!(
        !sock3.removed.iter().any(|(_, m)| *m == young),
        "the recently heard-from entry was shed although an older one stood"
    );
}

/// A behind-the-bridge learn buys the pass that records the port - the
/// reason the fast path needs no recording of its own.
#[test]
fn a_learn_buys_the_pass_that_records() {
    let dir = scratch("quiet-learn-pass");
    let topo = host(mac(1));
    let mut s = ready_syncer(&dir);
    s.remember_vf(vec![2], vec![(2, VF_ADMIN)]);
    let mut sock = FakeSock {
        vf: vec![(2, VF_ADMIN)],
        ..Default::default()
    };
    let urgency = s
        .fast_apply(
            &mut sock,
            &topo,
            &[(RTM_NEWNEIGH, learned(13, 12, BEHIND_GUEST))],
        )
        .unwrap();
    assert_eq!(
        urgency,
        Urgency::Now,
        "the learn did not buy the pass whose dump records the port"
    );
}

/// The memory follows the latest learn: a guest that moved to another
/// veth is kept by the port it lives behind now, not the one it left.
#[test]
fn the_memory_follows_the_latest_learn() {
    let dir = scratch("quiet-moved-port");
    let m: Mac = [0x02, 0xee, 0, 0, 0, 1];
    let build = |with_a: bool| {
        let mut b = Builder::new()
            .add("nic1", 2, Some(mac(1)))
            .master("br0")
            .vfs(1);
        if with_a {
            b = b.add("vetha", 4, Some(mac(4))).master("br0");
        }
        b = b.add("vethb", 5, Some(mac(5))).master("br0");
        let mut br = b.add("br0", 10, Some(mac(3))).bridge().lower("nic1");
        if with_a {
            br = br.lower("vetha");
        }
        br.lower("vethb").build()
    };
    let topo = build(true);
    let mut s = br0_syncer(&dir);

    // Learnt behind vetha first, then behind vethb.
    let mut sock = kernel(vec![learned(4, 10, m)]);
    s.reconcile(&mut sock, true, &topo, 0).unwrap();
    let mut sock2 = kernel(vec![learned(5, 10, m)]);
    s.reconcile(&mut sock2, true, &topo, 0).unwrap();

    // vetha dies, the address ages - vethb is what keeps it.
    let gone_a = build(false);
    let mut sock3 = kernel(vec![card_holds(2, m)]);
    let reports = s.reconcile(&mut sock3, true, &gone_a, 0).unwrap();
    assert!(
        !sock3.removed.iter().any(|(_, mm)| *mm == m),
        "the memory clung to the port the guest left"
    );
    assert_eq!(reports[0].quiet, 1);
}

/// The pass-start read is the one the memory prune must be judged by. A
/// note unreadable at the start but readable again mid-pass (a parallel
/// writer healed it while the grow-refresh ran) makes `note_is_readable`
/// true while `owned` still descends from the could-not-tell empty set -
/// pruning against that erased the very memory the rule protects.
#[test]
fn a_note_turning_readable_mid_pass_keeps_the_memory() {
    let dir = scratch("quiet-flip");
    let (topo, mut s, _) = registered(&dir);
    assert!(s.load_owned("nic1").contains(&BEHIND_GUEST));

    // A parallel --once rewrote the note (same content, new inode), and
    // right after, the file is momentarily unreadable. The stat cache is
    // invalid, so the pass really reads - and fails.
    let note = dir.join("nic1.owned");
    let text = Fs::read_to_string(&note).unwrap();
    let tmp = dir.join(".nic1.owned.flip.tmp");
    Fs::write(&tmp, &text).unwrap();
    Fs::rename(&tmp, &note).unwrap();
    Fs::set_readable(&note, false);

    // BEHIND_GUEST has aged (still in the card), and a NEW address is
    // learnt - the growth that triggers the vf refresh, during which the
    // note becomes readable again; the append then re-reads it fine.
    let newmac: Mac = [0x02, 0x77, 0, 0, 0, 9];
    let mut aged = fdb_without(BEHIND_GUEST);
    aged.push(card_holds(2, BEHIND_GUEST));
    aged.push(learned(3, 10, newmac));
    let mut sock2 = FakeSock {
        heal: Some(note.clone()),
        ..kernel(aged.clone())
    };
    s.reconcile(&mut sock2, true, &topo, 0).unwrap();
    assert!(
        sock2.added.iter().any(|(_, m)| *m == newmac),
        "the new learn was registered (the flip really happened)"
    );

    // Everything readable again: the quiet guest's port still lives, so
    // the keep must hold - which it only can if the memory survived.
    let mut aged3 = fdb_without(BEHIND_GUEST);
    aged3.push(card_holds(2, BEHIND_GUEST));
    aged3.push(learned(3, 10, newmac));
    aged3.push(card_holds(2, newmac));
    let mut sock3 = kernel(aged3);
    let reports = s.reconcile(&mut sock3, true, &topo, 0).unwrap();
    assert!(
        !sock3.removed.iter().any(|(_, m)| *m == BEHIND_GUEST),
        "the unreadable window erased the port memory"
    );
    assert_eq!(reports[0].quiet, 1);
}

/// A failed unregister keeps the note for the retry - the memory it must
/// not keep: with the port memory alive, the quiet keep would re-adopt the
/// moved-out address as soon as its wire evidence fades (an ifreload
/// flushed the bridge's table), and a one-off EBUSY would harden into a
/// permanent keep the stale loop can never reach.
#[test]
fn a_failed_reflection_removal_does_not_become_a_keep() {
    let dir = scratch("quiet-reflect-err");
    let (topo, mut s, _) = registered(&dir);
    assert!(s.load_owned("nic1").contains(&BEHIND_GUEST));

    // The guest's address fails over to the wire; the reflection's removal
    // hits a transient error (rtnl contention during the very ifreload).
    let mut fail = Table::new();
    fail.insert(BEHIND_GUEST, EBUSY);
    let mut sock2 = FakeSock {
        vf: vec![(2, VF_ADMIN)],
        fail_del: fail,
        ..Default::default()
    };
    s.fast_apply(
        &mut sock2,
        &topo,
        &[(RTM_NEWNEIGH, learned(2, 10, BEHIND_GUEST))],
    )
    .unwrap();
    assert!(sock2.removed.is_empty(), "the removal really failed");

    // The ifreload flushed the bridge's table: the next pass's dump shows
    // neither the wire entry nor the guest - only the card still holding
    // the address. The removal must now happen, not a keep.
    let mut flushed = fdb_without(BEHIND_GUEST);
    flushed.push(card_holds(2, BEHIND_GUEST));
    let mut sock3 = kernel(flushed);
    let reports = s.reconcile(&mut sock3, true, &topo, 0).unwrap();
    assert!(
        sock3.removed.iter().any(|(_, m)| *m == BEHIND_GUEST),
        "the moved-out address was held as a quiet keep (quiet={})",
        reports[0].quiet
    );
}

/// A living port is not enough - it has to still lead to this bridge. A
/// veth re-enslaved to an unrelated bridge keeps existing, but its guest
/// is no longer behind the uplink, and holding its address would steer
/// that MAC into the wrong bridge for ever.
#[test]
fn a_port_moved_to_another_bridge_ends_the_keep() {
    let dir = scratch("quiet-moved-bridge");
    let m: Mac = [0x02, 0xdf, 0, 0, 0, 1];
    let before = Builder::new()
        .add("nic1", 2, Some(mac(1)))
        .master("br0")
        .vfs(1)
        .add("vetha", 4, Some(mac(4)))
        .master("br0")
        .add("br0", 10, Some(mac(3)))
        .bridge()
        .lower("nic1")
        .lower("vetha")
        .build();
    let mut s = br0_syncer(&dir);
    let mut sock = kernel(vec![learned(4, 10, m)]);
    s.reconcile(&mut sock, true, &before, 0).unwrap();
    assert!(s.load_owned("nic1").contains(&m));

    // The veth lives on - under br9 now. The address has aged.
    let after = Builder::new()
        .add("nic1", 2, Some(mac(1)))
        .master("br0")
        .vfs(1)
        .add("vetha", 4, Some(mac(4)))
        .master("br9")
        .add("br0", 10, Some(mac(3)))
        .bridge()
        .lower("nic1")
        .add("br9", 11, Some(mac(9)))
        .bridge()
        .lower("vetha")
        .build();
    let mut sock2 = kernel(vec![card_holds(2, m)]);
    let reports = s.reconcile(&mut sock2, true, &after, 0).unwrap();
    assert!(
        sock2.removed.iter().any(|(_, r)| *r == m),
        "the port left this bridge; the keep has to end"
    );
    assert_eq!(reports[0].quiet, 0);
}

/// A learn-port folded in under the uplink is the wire's side of the
/// fence now: two NICs joined into a bond uplink carry their old peers
/// out, not in, and keeping those addresses would steer wire traffic
/// into the bridge.
#[test]
fn a_port_folded_under_the_uplink_ends_the_keep() {
    let dir = scratch("quiet-bonded-away");
    let m: Mac = [0x02, 0xdf, 0, 0, 0, 2];
    let before = Builder::new()
        .add("nic1", 2, Some(mac(1)))
        .master("br0")
        .vfs(1)
        .add("nic2", 5, Some(mac(5)))
        .master("br0")
        .add("br0", 10, Some(mac(3)))
        .bridge()
        .lower("nic1")
        .lower("nic2")
        .build();
    let mut s = br0_syncer(&dir);
    let mut sock = kernel(vec![learned(5, 10, m)]);
    s.reconcile(&mut sock, true, &before, 0).unwrap();
    assert!(s.load_owned("nic1").contains(&m));

    // Re-plumbed: nic1 and nic2 are members of bond0, bond0 the sole
    // bridge port; the re-enslavement flushed the bridge's table.
    let after = Builder::new()
        .add("nic1", 2, Some(mac(1)))
        .master("bond0")
        .vfs(1)
        .add("nic2", 5, Some(mac(5)))
        .master("bond0")
        .add("bond0", 7, Some(mac(1)))
        .master("br0")
        .lower("nic1")
        .lower("nic2")
        .add("br0", 10, Some(mac(3)))
        .bridge()
        .lower("bond0")
        .build();
    let mut sock2 = kernel(vec![card_holds(2, m)]);
    let reports = s.reconcile(&mut sock2, true, &after, 0).unwrap();
    assert!(
        sock2.removed.iter().any(|(_, r)| *r == m),
        "the learn-port now lies under the uplink; its address is the wire's"
    );
    assert_eq!(reports[0].quiet, 0);
}

/// The valve opens exactly when the measured occupancy no longer fits
/// above the headroom, and not one slot earlier: off by one in either
/// Every mark for a device goes in one call, and a mark added later
/// cannot be forgotten by mistake: the test fills every field of `Said`
/// for one device and holds `forget` to leaving the default behind. A new
/// field fails this until `forget` takes it up.
#[test]
fn forgetting_a_device_leaves_no_mark_behind() {
    let mut said = Said::new();
    let d = "nic1".to_string();
    said.unknown_vf.insert(d.clone());
    said.extra.insert(d.clone(), keys(&[mac(1)].into_iter().collect()));
    said.over.insert(d.clone());
    said.tight.insert(d.clone());
    said.quiet.insert(d.clone(), keys(&[mac(2)].into_iter().collect()));
    said.unreadable.insert(d.clone());
    said.lock.insert(d.clone());
    said.ports.insert(d.clone());
    let mut empty = Said::new();
    empty.rename(&"x".to_string(), &"y".to_string()); // moves nothing
    assert!(!said.equals(&empty), "the marks are there to begin with");
    said.forget(&"nic1".to_string());
    assert!(said.equals(&empty), "a mark survived forget()");
}

/// A rename carries every mark to the new name and leaves none under the
/// old - the same structural guarantee, from the other side.
#[test]
fn renaming_a_device_carries_every_mark() {
    fn full(dev: &str) -> Said {
        let mut said = Said::new();
        said.unknown_vf.insert(dev.to_string());
        said.extra.insert(dev.to_string(), keys(&[mac(1)].into_iter().collect()));
        said.over.insert(dev.to_string());
        said.tight.insert(dev.to_string());
        said.quiet.insert(dev.to_string(), keys(&[mac(2)].into_iter().collect()));
        said.unreadable.insert(dev.to_string());
        said.lock.insert(dev.to_string());
        said.ports.insert(dev.to_string());
        said
    }
    let mut said = full("a");
    said.rename(&"a".to_string(), &"b".to_string());
    assert!(said.equals(&full("b")));
}

/// A learn is a witness for the topology: it names a port and the bridge
/// that recorded it, now. A port the picture does not know, or one it
/// knows under another master, proves the picture old - the event path
/// says so, and the daemon reads afresh before the next pass.
#[test]
fn a_learn_that_contradicts_the_picture_disputes_it() {
    let dir = scratch("witness");
    let topo = small_host();
    let mut s = br0_syncer(&dir);
    let mut sock = kernel(vec![]);
    s.reconcile(&mut sock, true, &topo, 0).unwrap();

    // A port the picture knows, in the bridge it knows: no dispute.
    let ok = vec![(RTM_NEWNEIGH, learned(4, 10, [0x02, 0xe0, 0, 0, 0, 1]))];
    s.fast_apply(&mut sock, &topo, &ok).unwrap();
    assert!(
        !s.disputed,
        "a learn that matches the picture disputes nothing"
    );

    // A port the picture has never heard of.
    let unknown = vec![(RTM_NEWNEIGH, learned(77, 10, [0x02, 0xe0, 0, 0, 0, 2]))];
    s.fast_apply(&mut sock, &topo, &unknown).unwrap();
    assert!(
        s.take_disputed(),
        "an unknown port is proof the picture is old"
    );

    // A known port, but the bridge that recorded it is not its master.
    let moved = vec![(RTM_NEWNEIGH, learned(4, 99, [0x02, 0xe0, 0, 0, 0, 3]))];
    s.fast_apply(&mut sock, &topo, &moved).unwrap();
    assert!(
        s.take_disputed(),
        "a port under another master is proof too"
    );
}

/// A host whose virtual function reaches two bridges through two VLAN
/// interfaces. Both uplinks write into ONE filter - the one of nic1 below
/// them - so whoever counts how full the card is has to ask nic1.
fn vlan_host() -> Topology {
    Builder::new()
        .add("nic1", 2, Some(mac(1)))
        .vfs(1)
        .add("nic1.100", 20, Some(mac(1)))
        .master("br100")
        .vlan_on("nic1")
        .add("nic1.200", 21, Some(mac(1)))
        .master("br200")
        .vlan_on("nic1")
        .add("vetha", 4, Some(mac(4)))
        .master("br100")
        .add("br100", 10, Some(mac(3)))
        .bridge()
        .lower("nic1.100")
        .lower("vetha")
        .add("br200", 11, Some(mac(5)))
        .bridge()
        .lower("nic1.200")
        .build()
}

/// A bond named as the uplink by hand. Its exclusion set has to hold the
/// sister VFs of BOTH members' functions: an address a guest VF owns must
/// not be registered through the bond, or the eSwitch sends that guest's
/// traffic past it. The bond has no function of its own; asked naively it
/// answered with an empty list, which is invariant 2 with a hole in it.
#[test]
fn a_bond_uplink_excludes_the_sister_vfs_of_every_member() {
    let topo = Builder::new()
        .add("nic1", 2, Some(mac(1)))
        .vfs(2)
        .vf_netdev("nic1v0")
        .vf_netdev("nic1v1")
        .add("nic2", 4, Some(mac(2)))
        .vfs(2)
        .vf_netdev("nic2v0")
        .vf_netdev("nic2v1")
        .add("nic1v0", 3, Some(mac(3)))
        .master("bond0")
        .physfn("nic1")
        .pf_netdevs(&["nic1"])
        .add("nic1v1", 6, Some(mac(0x16)))
        .physfn("nic1")
        .pf_netdevs(&["nic1"])
        .add("nic2v0", 5, Some(mac(5)))
        .master("bond0")
        .physfn("nic2")
        .pf_netdevs(&["nic2"])
        .add("nic2v1", 7, Some(mac(0x27)))
        .physfn("nic2")
        .pf_netdevs(&["nic2"])
        .add("bond0", 10, Some(mac(3)))
        .master("br0")
        .lower("nic1v0")
        .lower("nic2v0")
        .add("vetha", 8, Some(mac(8)))
        .master("br0")
        .add("br0", 30, Some(mac(30)))
        .bridge()
        .lower("bond0")
        .lower("vetha")
        .build();
    let mut s = syncer();
    // The sister VFs' addresses turn up learnt behind the bridge - a guest
    // holding one has spoken - and both must stay out of the bond's filter.
    let fdb = vec![
        learned(8, 30, mac(0x16)),
        learned(8, 30, mac(0x27)),
        learned(8, 30, [0x02, 0xaa, 0, 0, 0, 1]),
    ];
    let p = Pair {
        dev: "bond0".into(),
        bridge: "br0".into(),
    };
    let (want, _, _) = desired_named(&s.exclude, &s.extra, &topo, &p, "bond0", &fdb, &[]);
    assert!(
        want.contains(&[0x02, 0xaa, 0, 0, 0, 1]),
        "an ordinary guest is wanted"
    );
    assert!(
        !want.contains(&mac(0x16)),
        "nic1's sister VF address is excluded through the bond"
    );
    assert!(
        !want.contains(&mac(0x27)),
        "nic2's sister VF address is excluded through the bond"
    );
}

/// Two uplinks on one card share its filter, and the pressure valve has to
/// see that. The entries of the sister uplink sit on nic1, not on the VLAN
/// interface this pair works through - a pass that counted only its own
/// share would believe it had room while the card was already full, and the
/// eSwitch would then drop entries of its own choosing.
#[test]
fn a_shared_filter_is_counted_whole() {
    let dir = scratch("shared-filter");
    let topo = vlan_host();
    let mut s = S::new(
        vec![Pair {
            dev: "nic1.100".into(),
            bridge: "br100".into(),
        }],
        dir.clone(),
    );
    s.authoritative = true;
    // Four guests behind br100, all of them ours.
    let learns: Vec<Mac> = (1..=4u8).map(|i| [0x02, 0xe0, 0, 0, 0, i]).collect();
    let mut sock = kernel(learns.iter().map(|m| learned(4, 10, *m)).collect());
    s.reconcile(&mut sock, true, &topo, 0).unwrap();

    // They go quiet, so they are keeps and the valve may shed them. Six
    // entries of the SISTER uplink sit in the same filter - on nic1, where
    // the kernel keeps them. With eleven slots the pass is over its margin
    // only if those six are counted.
    let mut halten: Vec<FdbEntry> =
        learns.iter().map(|m| card_holds(2, *m)).collect();
    halten.extend((1..=6u8).map(|i| card_holds(2, [0x02, 0xff, 0, 0, 0, i])));
    s.max_macs = 11;
    let mut sock2 = kernel(halten);
    let reports = s.reconcile(&mut sock2, true, &topo, 0).unwrap();
    assert!(
        !sock2.removed.is_empty(),
        "the sister's entries fill the same card and have to be counted \
         (quiet={}, removed={})",
        reports[0].quiet,
        sock2.removed.len()
    );
}

/// direction means a needless shed or a silent overflow on the next learn.
#[test]
fn the_pressure_valve_opens_exactly_at_its_margin() {
    let dir = scratch("quiet-pressure-edge");
    let topo = small_host();
    let mut s = br0_syncer(&dir);
    // Eight learns plus the bridge's own address: want is exactly 9.
    let learns: Vec<Mac> = (1..=8u8).map(|i| [0x02, 0xe0, 0, 0, 0, i]).collect();
    let mut sock = kernel(learns.iter().map(|m| learned(4, 10, *m)).collect());
    s.reconcile(&mut sock, true, &topo, 0).unwrap();

    // All eight age: nine occupied slots. At max 13 they sit exactly on
    // the margin (9 + 4 == 13) and nothing may yield yet.
    s.max_macs = 13;
    let mut sock2 = kernel(learns.iter().map(|m| card_holds(2, *m)).collect());
    let reports = s.reconcile(&mut sock2, true, &topo, 0).unwrap();
    assert!(
        sock2.removed.is_empty(),
        "exactly on the margin nothing yields (quiet={})",
        reports[0].quiet
    );
    assert_eq!(reports[0].quiet, 8);

    // One slot tighter, and exactly one keep has to go.
    s.max_macs = 12;
    let mut sock3 = kernel(learns.iter().map(|m| card_holds(2, *m)).collect());
    let reports = s.reconcile(&mut sock3, true, &topo, 0).unwrap();
    assert_eq!(
        sock3.removed.len(),
        1,
        "one past the margin exactly one keep yields (quiet={})",
        reports[0].quiet
    );
    assert_eq!(reports[0].quiet, 7);
}

/// The missing-clock keeps its start across passes: re-stamped on every
/// quiet pass, all entries would look equally young and the valve would
/// degenerate to shedding by address order.
#[test]
fn the_missing_clock_is_not_wound_up_by_later_passes() {
    let dir = scratch("quiet-clock-start");
    // `old` sorts after `young` by address, so only a preserved clock can
    // name it as the one to shed.
    let old: Mac = [0x02, 0xe1, 0, 0, 0, 2];
    let young: Mac = [0x02, 0xe1, 0, 0, 0, 1];
    let topo = small_host();
    let mut s = br0_syncer(&dir);
    let mut sock = kernel(vec![learned(4, 10, old), learned(4, 10, young)]);
    s.reconcile(&mut sock, true, &topo, 0).unwrap();

    // Pass 2: `old` ages, `young` still speaks.
    let mut sock2 = kernel(vec![card_holds(2, old), learned(4, 10, young)]);
    s.reconcile(&mut sock2, true, &topo, 0).unwrap();

    // Pass 3: both quiet now - `old`'s clock must keep its earlier start.
    let both = vec![card_holds(2, old), card_holds(2, young)];
    let mut sock3 = kernel(both.clone());
    s.reconcile(&mut sock3, true, &topo, 0).unwrap();
    dir.sleep(20);

    // Pass 4, under pressure: the one shed has to be `old`.
    s.max_macs = 6;
    let mut sock4 = kernel(both);
    s.reconcile(&mut sock4, true, &topo, 0).unwrap();
    assert!(
        sock4.removed.iter().any(|(_, m)| *m == old),
        "the longest-silent entry has to be the one shed"
    );
    assert!(
        !sock4.removed.iter().any(|(_, m)| *m == young),
        "a rewound clock shed by address order instead"
    );
}

/// The port memory follows the note through a rename, or an ifupdown
/// moment that renames the uplink silently forgets exactly the quiet
/// guests it was carrying.
#[test]
fn a_rename_carries_the_quiet_memory_along() {
    let dir = scratch("quiet-rename");
    let (topo, mut s, _) = registered(&dir);

    // The guest goes quiet while still called nic1.
    age_out(&mut s, &topo, BEHIND_GUEST);
    assert!(s.load_owned("nic1").contains(&BEHIND_GUEST));

    // Same interface, same index, new name - and the guest still quiet.
    let renamed = Builder::new()
        .add("nicX", 2, Some(mac(1)))
        .master("vmbr1")
        .vfs(1)
        .add("nic2", 3, Some(mac(2)))
        .master("vmbr1")
        .add("vmbr1", 10, Some(mac(1)))
        .bridge()
        .lower("nicX")
        .lower("nic2")
        .add("vmbr1.44", 11, Some(mac(1)))
        .lower("vmbr1")
        .add("IOT", 12, Some(mac(0x12)))
        .bridge()
        .lower("vmbr1.44")
        .lower("veth0")
        .add("veth0", 13, Some(mac(0x13)))
        .master("IOT")
        .build();
    s.pairs = vec![Pair {
        dev: "nicX".into(),
        bridge: "vmbr1".into(),
    }];
    let mut aged = fdb_without(BEHIND_GUEST);
    aged.retain(|e| !e.is_self());
    aged.push(card_holds(2, BEHIND_GUEST));
    let mut sock2 = kernel(aged);
    let reports = s.reconcile(&mut sock2, true, &renamed, 0).unwrap();
    assert!(
        !sock2.removed.iter().any(|(_, m)| *m == BEHIND_GUEST),
        "the rename lost the quiet guest's memory"
    );
    assert!(
        reports.iter().any(|r| r.dev == "nicX" && r.quiet >= 1),
        "the keep did not survive under the new name"
    );
}

/// A dry-run daemon reports, it does not write - the fast path included.
/// The guard is the early return; without it a --dry-run daemon would put
/// real entries into a live filter the moment a guest speaks.
#[test]
fn dry_run_gates_the_fast_path() {
    let dir = scratch("dry-fast");
    let topo = host(mac(1));
    let mut s = ready_syncer(&dir);
    s.dry_run = true;
    s.remember_vf(vec![2], vec![(2, VF_ADMIN)]);
    let mut sock = FakeSock {
        vf: vec![(2, VF_ADMIN)],
        ..Default::default()
    };
    let urgency = s
        .fast_apply(
            &mut sock,
            &topo,
            &[(RTM_NEWNEIGH, learned(13, 12, BEHIND_GUEST))],
        )
        .unwrap();
    assert!(sock.added.is_empty(), "a dry run wrote to the filter");
    assert_eq!(
        urgency,
        Urgency::Now,
        "the pass is where a dry run reports; the batch has to buy one"
    );
}

/// A successful --check leaves nothing behind: when the probe was the
/// note's only line, note and index go with it - an empty leftover reads
/// as a managed device to --flush and to anyone listing the directory.
#[test]
fn a_clean_check_probe_leaves_no_note_behind() {
    let dir = scratch("check-traceless");
    let mut s = ready_syncer(&dir);
    const PROBE: Mac = [0x02, 0xe3, 0, 0, 0, 0x60];
    assert!(s.note_check_probe("nic9", 2, &PROBE));
    assert!(dir.join("nic9.owned").is_there());
    s.forget_check_probe("nic9", &PROBE);
    assert!(
        !dir.join("nic9.owned").is_there(),
        "the probe's note survived the check"
    );
    assert!(
        !dir.join(".nic9.owned.index").is_there(),
        "the probe's index survived the check"
    );

}

/// An orphan sweep that cannot take an entry out has to say so in the
/// failures it hands the oneshot - a --once that exits 0 over entries it
/// left in the card is how orphans become permanent in silence.
#[test]
fn an_unremovable_orphan_fails_the_sweep_out_loud() {
    let dir = scratch("orphan-fail");
    let orphan: Mac = [0x02, 0xe4, 0, 0, 0, 1];
    // A note for an interface that still exists but stopped being an
    // uplink - its entries are still in a live card, so a failed removal
    // is an orphan left behind, not dust settled.
    let mut set = Macs::new();
    set.insert(orphan);
    let mut s = S::new(Vec::new(), dir.clone());
    s.authoritative = true;
    s.save_owned("nic2", &set);

    let topo = host(mac(1));
    let mut fail = Table::new();
    fail.insert(orphan, EBUSY);
    let mut sock = FakeSock {
        fail_del: fail,
        ..Default::default()
    };
    let mut failures = Vec::new();
    s.drop_orphans(&mut sock, &topo, true, &mut failures);
    assert!(
        !failures.is_empty(),
        "the failed removal has to reach the oneshot's exit code"
    );
    assert!(
        dir.join("nic2.owned").is_there(),
        "the note has to stay for the retry"
    );
}

/// Invariant 2's third leg: a virtual function still bound on the host -
/// no admin MAC set, so absent from the driver's answer - is recognised
/// by its netdev, and its address must never be registered past it.
#[test]
fn a_bound_sister_vf_is_excluded_by_its_netdev() {
    let dir = scratch("vf-netdev-excl");
    let vf_mac: Mac = [0x02, 0xe5, 0, 0, 0, 1];
    let topo = Builder::new()
        .add("nic1", 2, Some(mac(1)))
        .master("br0")
        .vfs(2)
        .vf_netdev("nic1v1")
        .add("nic1v1", 6, Some(vf_mac))
        .physfn("nic1")
        .add("vetha", 4, Some(mac(4)))
        .master("br0")
        .add("br0", 10, Some(mac(3)))
        .bridge()
        .lower("nic1")
        .lower("vetha")
        .build();
    let mut s = br0_syncer(&dir);
    // The bridge learns the VF's own address behind a guest port - the
    // reflection case the exclusion set exists to refuse. The driver's
    // answer does NOT name it: no admin MAC was ever set.
    let mut sock = kernel(vec![learned(4, 10, vf_mac)]);
    s.reconcile(&mut sock, true, &topo, 0).unwrap();
    assert!(
        !sock.added.iter().any(|(_, m)| *m == vf_mac),
        "a bound VF's own address was registered past its function"
    );
}

/// A `--check` leaves the note byte for byte as it found it. The probe is
/// added and taken away again, and everything else keeps its own bytes and
/// its own order - a whole-set write would sort the file, which is a trace
/// where the point is to leave none.
#[test]
fn a_check_probe_leaves_the_note_byte_identical() {
    let dir = scratch("check-bytes");
    let mut s = ready_syncer(&dir);
    const PROBE: Mac = [0x02, 0xe3, 0, 0, 0, 0x61];
    // Deliberately unsorted, the way an append leaves a note.
    let path = dir.join("nic1.owned");
    let before = format!(
        "{}\n{}\n{}\n",
        format_mac(&BEHIND_GUEST),
        format_mac(&BEHIND_NIC),
        format_mac(&[0x02, 0x00, 0, 0, 0, 0x77])
    );
    Fs::write(&path, &before).unwrap();

    assert!(s.note_check_probe("nic1", 2, &PROBE));
    s.forget_check_probe("nic1", &PROBE);
    assert_eq!(
        Fs::read_to_string(&path).unwrap(),
        before,
        "the check rewrote the note it was only borrowing"
    );
}

/// An uplink with nothing to remember keeps no file around. The first
/// pass on a quiet host used to leave an empty one per uplink, for the
/// next process to read nothing out of.
#[test]
fn an_empty_memory_leaves_no_file() {
    let dir = scratch("quiet-empty-file");
    let (topo, mut s, _) = registered(&dir);
    let path = dir.join(".nic1.owned.ports");
    assert!(path.is_there(), "the learnt addresses were not written down");

    // Everything moves out onto the wire: nothing is owned, nothing is
    // remembered, and the file goes with it.
    let wire: Vec<FdbEntry> = fdb()
        .into_iter()
        .filter(|e| !e.is_self())
        .map(|e| learned(2, 10, e.mac))
        .collect();
    let mut sock2 = kernel(wire);
    s.reconcile(&mut sock2, true, &topo, 0).unwrap();
    assert!(
        s.load_owned("nic1").is_empty(),
        "the fixture did not end up owning nothing"
    );
    assert!(!path.is_there(), "an empty memory left its file behind");
}

/// A stamp from the future is brought back to now, not believed: believed, it
/// says "spoke since the last pass" for the life of the process, so the
/// address is never a candidate the valve can surrender and the slot is held
/// until the guest itself leaves - the deadlock the valve exists to prevent.
#[test]
fn a_future_stamp_is_clamped_not_believed() {
    let dir = scratch("quiet-future-stamp");
    let a: Mac = [0x02, 0xe7, 0, 0, 0, 1];
    let b: Mac = [0x02, 0xe7, 0, 0, 0, 2];
    let topo = small_host();
    let mut s = br0_syncer(&dir);
    let mut sock = kernel(vec![learned(4, 10, a), learned(4, 10, b)]);
    s.reconcile(&mut sock, true, &topo, 0).unwrap();
    drop(s);

    // Both stamps are doctored to lie far ahead - the shape a memory file
    // that outlived a reboot has, since the clock counts from boot.
    let path = dir.join(".nic1.owned.ports");
    let doctored: String = Fs::read_to_string(&path)
        .unwrap()
        .lines()
        .map(|l| {
            let mut f: Vec<&str> = l.split(' ').collect();
            if f.len() == 4 {
                f[3] = "18446744073709551615";
            }
            format!("{}\n", f.join(" "))
        })
        .collect();
    Fs::write(&path, doctored).unwrap();

    // Restart with room to spare: both are silent now, both are kept.
    let mut s = br0_syncer(&dir);
    let mut sock2 = kernel(vec![card_holds(2, a), card_holds(2, b)]);
    s.reconcile(&mut sock2, true, &topo, 0).unwrap();
    assert_eq!(s.cards()["nic1"].quiet.len(), 2, "both should be kept");
    assert!(sock2.removed.is_empty(), "there was no pressure yet");
    // A clamped stamp reads as "spoke just now" for exactly one pass; the
    // second one leaves it behind, and from there it ages honestly. The
    // sleep is what makes that second pass's stamp certainly later: both
    // land in the same millisecond otherwise, and which of the two the
    // clock ticks between decides the outcome.
    dir.sleep(5);
    let mut sock2b = kernel(vec![card_holds(2, a), card_holds(2, b)]);
    s.reconcile(&mut sock2b, true, &topo, 0).unwrap();

    // Now the room runs out and a newcomer arrives. One of the two silent
    // addresses has to pay for it.
    s.max_macs = 7;
    s.remember_vf(vec![2], vec![(2, VF_ADMIN)]);
    let newcomer: Mac = [0x02, 0xe7, 0, 0, 0, 9];
    let mut sock3 = FakeSock {
        vf: vec![(2, VF_ADMIN)],
        ..Default::default()
    };
    s.fast_apply(
        &mut sock3,
        &topo,
        &[(RTM_NEWNEIGH, learned(4, 10, newcomer))],
    )
    .unwrap();
    assert_eq!(
        sock3.removed.len(),
        1,
        "a believed future stamp is never quiet, so the valve found nothing to surrender"
    );
}

/// An idle pass writes no memory file: the lines are compared against what
/// was last written, and a host where nothing changes must not rewrite a
/// file per pass - the notes hold themselves to the same rule.
#[test]
fn an_idle_pass_leaves_the_memory_file_untouched() {
    let dir = scratch("quiet-idle-file");
    let (topo, mut s, _) = registered(&dir);
    let path = dir.join(".nic1.owned.ports");
    // Backdate, then run an unchanged pass: an untouched file keeps the
    // old timestamp, a rewritten one comes back young.
    let old = filetime_backdate(&path);
    let mut sock2 = kernel(fdb());
    s.reconcile(&mut sock2, true, &topo, 0).unwrap();
    let meta = Fs::metadata(&path).unwrap();
    assert_eq!(
        (meta.mtime(), meta.mtime_nsec()),
        old,
        "an idle pass rewrote the memory file"
    );
}

/// Foreign entries occupy real slots, and the valve counts them: the card
/// is read back anyway, so somebody's hand-added entries must press on
/// the keeps instead of eating an invisible margin.
#[test]
fn the_pressure_valve_counts_foreign_entries() {
    let dir = scratch("quiet-pressure-foreign");
    let m1: Mac = [0x02, 0xe8, 0, 0, 0, 1];
    let topo = small_host();
    let mut s = br0_syncer(&dir);
    let mut sock = kernel(vec![learned(4, 10, m1)]);
    s.reconcile(&mut sock, true, &topo, 0).unwrap();

    // m1 ages; two slots are wanted (bridge + keep). Alone that fits a
    // max of 6 - but four foreign entries sit in the card, and 2 + 4 + 4
    // headroom crosses 6: the keep has to yield to reality.
    s.max_macs = 6;
    let foreign: Vec<FdbEntry> = (1..=4u8)
        .map(|i| card_holds(2, [0xaa, 0xee, 0, 0, 0, i]))
        .collect();
    let mut fdb2 = vec![card_holds(2, m1)];
    fdb2.extend(foreign.clone());
    let mut sock2 = kernel(fdb2);
    let reports = s.reconcile(&mut sock2, true, &topo, 0).unwrap();
    assert!(
        sock2.removed.iter().any(|(_, m)| *m == m1),
        "foreign entries went uncounted; the keep stayed past the margin"
    );
    assert!(
        !sock2
            .removed
            .iter()
            .any(|(_, m)| m[0] == 0xaa && m[1] == 0xee),
        "foreign entries are pressed against, never touched"
    );
    assert_eq!(reports[0].quiet, 0);
}

/// The fast path is capacity-aware: a learn that would not fit surrenders
/// the longest-silent keep synchronously - card, note and memory in one
/// breath - because 200 ms of overflow is 200 ms of the card dropping
/// arbitrarily, possibly the very guest that is speaking.
#[test]
fn a_burst_over_capacity_sheds_a_keep_on_the_fast_path() {
    let dir = scratch("quiet-fast-shed");
    let old: Mac = [0x02, 0xe9, 0, 0, 0, 1];
    let newcomer: Mac = [0x02, 0xe9, 0, 0, 0, 2];
    let topo = small_host();
    let mut s = br0_syncer(&dir);
    let mut sock = kernel(vec![learned(4, 10, old)]);
    s.reconcile(&mut sock, true, &topo, 0).unwrap();

    // `old` goes quiet; occupancy is 2 (bridge + keep) with max 6, i.e.
    // exactly at allowed = max - headroom.
    s.max_macs = 6;
    let mut sock2 = kernel(vec![card_holds(2, old)]);
    s.reconcile(&mut sock2, true, &topo, 0).unwrap();
    assert!(s.load_owned("nic1").contains(&old));

    // A new guest speaks. The batch would make three against allowed two:
    // the keep leaves in the same batch, the newcomer gets its slot.
    s.remember_vf(vec![2], vec![(2, VF_ADMIN)]);
    let mut sock3 = FakeSock {
        vf: vec![(2, VF_ADMIN)],
        ..Default::default()
    };
    s.fast_apply(
        &mut sock3,
        &topo,
        &[(RTM_NEWNEIGH, learned(4, 10, newcomer))],
    )
    .unwrap();
    assert!(
        sock3.removed.iter().any(|(_, m)| *m == old),
        "the keep did not yield to the newcomer on the fast path"
    );
    assert!(
        sock3.added.iter().any(|(_, m)| *m == newcomer),
        "the newcomer was not registered"
    );
    assert!(
        !s.load_owned("nic1").contains(&old),
        "the shed keep stayed on the note - an orphan in the making"
    );
    assert!(s.load_owned("nic1").contains(&newcomer));
}

/// The carried occupancy is CARRIED: several batches between two passes
/// each count against what the ones before them put in the card. Without
/// that, N single-address batches overflow the card by N-1 and nothing
/// notices until the next pass.
#[test]
fn successive_batches_count_against_each_other() {
    let dir = scratch("occupancy-carried");
    let quiet: Mac = [0x02, 0xea, 0, 0, 0, 1];
    let topo = small_host();
    let mut s = br0_syncer(&dir);
    let mut sock = kernel(vec![learned(4, 10, quiet)]);
    s.reconcile(&mut sock, true, &topo, 0).unwrap();
    // The guest goes quiet: two slots held (bridge + keep).
    let mut sock2 = kernel(vec![card_holds(2, quiet)]);
    s.reconcile(&mut sock2, true, &topo, 0).unwrap();

    // allowed = 8 - 4 = 4, occupancy 2. Two newcomers fit; the third must
    // buy its slot from the keep - which only happens if each batch counts
    // the ones before it.
    s.max_macs = 8;
    s.remember_vf(vec![2], vec![(2, VF_ADMIN)]);
    let newcomers: Vec<Mac> = (1..=3u8).map(|i| [0x02, 0xeb, 0, 0, 0, i]).collect();
    let mut last = FakeSock::default();
    for m in &newcomers {
        last = FakeSock {
            vf: vec![(2, VF_ADMIN)],
            ..Default::default()
        };
        s.fast_apply(&mut last, &topo, &[(RTM_NEWNEIGH, learned(4, 10, *m))])
            .unwrap();
    }
    assert!(
        last.removed.iter().any(|(_, m)| *m == quiet),
        "the third batch did not count the first two; the card overflows"
    );
    assert!(last.added.iter().any(|(_, m)| *m == newcomers[2]));
}

/// A re-learn of an address the card already holds is not a new slot -
/// counting it would shed keeps to make room for something already in.
#[test]
fn a_relearn_buys_no_slot_and_sheds_nothing() {
    let dir = scratch("occupancy-relearn");
    let quiet: Mac = [0x02, 0xec, 0, 0, 0, 1];
    let live: Mac = [0x02, 0xec, 0, 0, 0, 2];
    let topo = small_host();
    let mut s = br0_syncer(&dir);
    let mut sock = kernel(vec![learned(4, 10, quiet), learned(4, 10, live)]);
    s.reconcile(&mut sock, true, &topo, 0).unwrap();
    // `quiet` ages; three slots held (bridge, keep, live).
    let mut sock2 = kernel(vec![card_holds(2, quiet), learned(4, 10, live)]);
    s.reconcile(&mut sock2, true, &topo, 0).unwrap();

    // Sitting exactly on the margin: allowed = 7 - 4 = 3, occupancy 3.
    // A re-learn of `live` must not be read as a fourth slot.
    s.max_macs = 7;
    s.remember_vf(vec![2], vec![(2, VF_ADMIN)]);
    let mut sock3 = FakeSock {
        vf: vec![(2, VF_ADMIN)],
        ..Default::default()
    };
    s.fast_apply(&mut sock3, &topo, &[(RTM_NEWNEIGH, learned(4, 10, live))])
        .unwrap();
    assert!(
        sock3.removed.is_empty(),
        "a re-learn shed a keep for a slot it did not need: {:?}",
        sock3.removed
    );
}

/// The shedder never surrenders a guest that is speaking: only addresses
/// with a missing-stamp are candidates, the longest-silent goes first,
/// and an address the batch itself is registering is spared - deleting it
/// to add it back frees no slot at all.
#[test]
fn the_shedder_spares_the_live_and_the_incoming() {
    let dir = scratch("shed-selection");
    let old: Mac = [0x02, 0xed, 0, 0, 0, 3];
    let young: Mac = [0x02, 0xed, 0, 0, 0, 2];
    let live: Mac = [0x02, 0xed, 0, 0, 0, 1];
    let topo = small_host();
    let mut s = br0_syncer(&dir);
    let mut sock = FakeSock {
        fdb: vec![
            learned(4, 10, old),
            learned(4, 10, young),
            learned(4, 10, live),
        ],
        vf: vec![(2, VF_ADMIN)],
        ..Default::default()
    };
    s.reconcile(&mut sock, true, &topo, 0).unwrap();
    // `old` goes quiet first, `young` a moment later; `live` keeps talking.
    let mut sock2 = FakeSock {
        fdb: vec![
            card_holds(2, old),
            learned(4, 10, young),
            learned(4, 10, live),
        ],
        vf: vec![(2, VF_ADMIN)],
        ..Default::default()
    };
    s.reconcile(&mut sock2, true, &topo, 0).unwrap();
    let mut sock3 = FakeSock {
        fdb: vec![
            card_holds(2, old),
            card_holds(2, young),
            learned(4, 10, live),
        ],
        vf: vec![(2, VF_ADMIN)],
        ..Default::default()
    };
    s.reconcile(&mut sock3, true, &topo, 0).unwrap();

    // Four slots held, allowed = 8 - 4 = 4: one newcomer needs one slot.
    s.max_macs = 8;
    s.remember_vf(vec![2], vec![(2, VF_ADMIN)]);
    let newcomer: Mac = [0x02, 0xed, 0, 0, 0, 9];
    let mut sock4 = FakeSock {
        vf: vec![(2, VF_ADMIN)],
        ..Default::default()
    };
    s.fast_apply(
        &mut sock4,
        &topo,
        &[(RTM_NEWNEIGH, learned(4, 10, newcomer))],
    )
    .unwrap();
    assert!(
        sock4.removed.iter().any(|(_, m)| *m == old),
        "the longest-silent keep was not the one surrendered"
    );
    assert!(
        !sock4.removed.iter().any(|(_, m)| *m == young),
        "a younger keep was surrendered before an older one"
    );
    assert!(
        !sock4.removed.iter().any(|(_, m)| *m == live),
        "a guest that is still speaking was surrendered"
    );
}

/// A guest that speaks again is young again on the FAST path too, not
/// only in a pass: otherwise the shedder names the guest that just spoke,
/// and the delete is undone by the add that follows it - zero slots freed.
#[test]
fn a_fast_path_learn_makes_an_entry_young_again() {
    let dir = scratch("shed-rejuvenate");
    let a: Mac = [0x02, 0xee, 0, 0, 0, 1];
    let b: Mac = [0x02, 0xee, 0, 0, 0, 2];
    let topo = small_host();
    let mut s = br0_syncer(&dir);
    let mut sock = kernel(vec![learned(4, 10, a), learned(4, 10, b)]);
    s.reconcile(&mut sock, true, &topo, 0).unwrap();
    // `a` goes quiet first, then `b`: a is the older keep.
    let mut sock2 = kernel(vec![card_holds(2, a), learned(4, 10, b)]);
    s.reconcile(&mut sock2, true, &topo, 0).unwrap();
    // Real time, not just another pass: what follows is a fast-path learn,
    // and the fast path stamps the raw clock while a pass stamp may sit a
    // millisecond ahead of it. Stamps only move forward, so a learn inside
    // that millisecond would correctly change nothing - and prove nothing.
    dir.sleep(20);
    let mut sock3 = kernel(vec![card_holds(2, a), card_holds(2, b)]);
    s.reconcile(&mut sock3, true, &topo, 0).unwrap();

    // `a` speaks again - a re-learn, no new slot - and must now be the
    // YOUNGER of the two. The newcomer that follows then costs `b`.
    s.max_macs = 7;
    s.remember_vf(vec![2], vec![(2, VF_ADMIN)]);
    let mut sock4 = FakeSock {
        vf: vec![(2, VF_ADMIN)],
        ..Default::default()
    };
    s.fast_apply(&mut sock4, &topo, &[(RTM_NEWNEIGH, learned(4, 10, a))])
        .unwrap();
    assert!(sock4.removed.is_empty(), "the re-learn should shed nothing");

    let newcomer: Mac = [0x02, 0xee, 0, 0, 0, 9];
    let mut sock5 = FakeSock {
        vf: vec![(2, VF_ADMIN)],
        ..Default::default()
    };
    s.fast_apply(
        &mut sock5,
        &topo,
        &[(RTM_NEWNEIGH, learned(4, 10, newcomer))],
    )
    .unwrap();
    assert!(
        sock5.removed.iter().any(|(_, m)| *m == b),
        "the entry that spoke most recently was surrendered"
    );
    assert!(
        !sock5.removed.iter().any(|(_, m)| *m == a),
        "speaking again did not make the entry young"
    );
}

/// A shed whose removal the card refuses keeps its line on the note: an
/// entry still in the filter that no note names is the orphan nothing
/// would ever take out. ENOENT is the other way round - it is already
/// gone, and the note goes with it.
#[test]
fn a_refused_shed_keeps_its_note_line() {
    let quiet: Mac = [0x02, 0xef, 0, 0, 0, 1];
    let topo = small_host();
    for (errno, still_noted) in [(EBUSY, true), (ENOENT, false)] {
        let dir = scratch(&format!("shed-refused-{errno}"));
        let mut s = br0_syncer(&dir);
        let mut sock = kernel(vec![learned(4, 10, quiet)]);
        s.reconcile(&mut sock, true, &topo, 0).unwrap();
        let mut sock2 = kernel(vec![card_holds(2, quiet)]);
        s.reconcile(&mut sock2, true, &topo, 0).unwrap();

        s.max_macs = 6;
        s.remember_vf(vec![2], vec![(2, VF_ADMIN)]);
        let mut fail = Table::new();
        fail.insert(quiet, errno);
        let mut sock3 = FakeSock {
            vf: vec![(2, VF_ADMIN)],
            fail_del: fail,
            ..Default::default()
        };
        let newcomer: Mac = [0x02, 0xef, 0, 0, 0, 9];
        s.fast_apply(
            &mut sock3,
            &topo,
            &[(RTM_NEWNEIGH, learned(4, 10, newcomer))],
        )
        .unwrap();
        assert_eq!(
            s.load_owned("nic1").contains(&quiet),
            still_noted,
            "errno {errno}: the note has to keep what is still in the card, \
             and let go of what is not"
        );
    }
}

/// A note that cannot be read holds the card still - the shedder included.
/// It is the one removal path that could delete entries while the batch
/// that asked for the room is refused, which would be pure loss.
#[test]
fn an_unreadable_note_stops_the_shedder() {
    let dir = scratch("shed-unreadable");
    let quiet: Mac = [0x02, 0xf0, 0, 0, 0, 1];
    let topo = small_host();
    let mut s = br0_syncer(&dir);
    let mut sock = kernel(vec![learned(4, 10, quiet)]);
    s.reconcile(&mut sock, true, &topo, 0).unwrap();
    let mut sock2 = kernel(vec![card_holds(2, quiet)]);
    s.reconcile(&mut sock2, true, &topo, 0).unwrap();

    // Somebody replaced the note with one this daemon cannot read - a new
    // inode, so the remembered copy is not believed either, and the
    // process genuinely no longer knows what it owns.
    let note = dir.join("nic1.owned");
    let tmp = dir.join(".nic1.owned.swap");
    Fs::write(&tmp, Fs::read_to_string(&note).unwrap()).unwrap();
    Fs::set_readable(&tmp, false);
    Fs::rename(&tmp, &note).unwrap();
    assert!(
        s.load_owned("nic1").is_empty() && !s.note_is_readable("nic1"),
        "the fixture failed to make the note unreadable"
    );
    s.max_macs = 6;
    s.remember_vf(vec![2], vec![(2, VF_ADMIN)]);
    let newcomer: Mac = [0x02, 0xf0, 0, 0, 0, 9];
    let mut sock3 = FakeSock {
        vf: vec![(2, VF_ADMIN)],
        ..Default::default()
    };
    s.fast_apply(
        &mut sock3,
        &topo,
        &[(RTM_NEWNEIGH, learned(4, 10, newcomer))],
    )
    .unwrap();
    assert!(
        sock3.removed.is_empty(),
        "the shedder emptied slots out of a note it could not read"
    );
    Fs::set_readable(&note, true);
}

/// A replaced note is read again even when it kept the old timestamp: the
/// identity check is what carries this, not the clock. Coarse-clock
/// filesystems hand a rename the mtime of what it replaced often enough
/// that a guard resting on time alone would answer from a stale copy -
/// and an address somebody appended would then count foreign for ever.
#[test]
fn a_replaced_note_is_read_again_even_at_the_same_mtime() {
    let dir = scratch("note-moved-under-read");
    let mut s = ready_syncer(&dir);
    let path = dir.join("nic1.owned");
    Fs::write(&path, format!("{}\n", format_mac(&BEHIND_NIC))).unwrap();
    assert_eq!(s.load_owned("nic1").len(), 1);

    // Replaced through a rename, the way every writer here replaces it -
    // new inode, and on a coarse-clock filesystem quite possibly the same
    // mtime as the read that just happened.
    let tmp = dir.join(".nic1.owned.other");
    Fs::write(
        &tmp,
        format!(
            "{}\n{}\n",
            format_mac(&BEHIND_NIC),
            format_mac(&BEHIND_GUEST)
        ),
    )
    .unwrap();
    let meta = Fs::metadata(&path).unwrap();
    Fs::rename(&tmp, &path).unwrap();
    // Make the new file look exactly as old as the one it replaced: this
    // is the state the coarse clock produces on its own.
    Fs::set_mtime(&path, (meta.mtime(), meta.mtime_nsec()));
    assert_eq!(
        s.load_owned("nic1").len(),
        2,
        "the replaced note was answered from a stale remembered copy"
    );
}

/// A device that stopped being an uplink loses its whole record - note,
/// index and quiet memory together. A memory file left behind is
/// invisible to every sweep (nothing globs it) and would be adopted by
/// the device's next life.
#[test]
fn the_orphan_sweep_takes_the_memory_file_with_the_note() {
    let dir = scratch("orphan-memory");
    let topo = host(mac(1));
    let (_, mut s, _) = registered(&dir);
    age_out(&mut s, &topo, BEHIND_GUEST);
    let ports = dir.join(".nic1.owned.ports");
    assert!(ports.is_there(), "the fixture wrote no memory to sweep");

    // nic1 is no longer an uplink: no pairs at all, and the topology no
    // longer has it either, so the sweep removes rather than migrates.
    s.pairs = Vec::new();
    let mut sock = FakeSock {
        vf: vec![(2, VF_ADMIN)],
        ..Default::default()
    };
    let mut failures = Vec::new();
    s.drop_orphans(&mut sock, &host(mac(1)), true, &mut failures);
    assert!(
        !dir.join("nic1.owned").is_there(),
        "the note outlived the sweep"
    );
    assert!(!ports.is_there(), "the quiet memory outlived its note");
}

/// A renamed uplink keeps its capacity arithmetic: the pass that follows
/// the rename recomputes it, and the batches after that count against the
/// recomputed number rather than from zero. (The rename's own transfer of
/// the two maps is belt-and-braces for the pass that skips its pair; what
/// this pins is that the arithmetic is right under the new name at all.)
#[test]
fn the_capacity_arithmetic_survives_a_rename() {
    let dir = scratch("occupancy-rename");
    let quiet: Mac = [0x02, 0xf1, 0, 0, 0, 1];
    let topo = small_host();
    let mut s = br0_syncer(&dir);
    let mut sock = kernel(vec![learned(4, 10, quiet)]);
    s.reconcile(&mut sock, true, &topo, 0).unwrap();
    let mut sock2 = kernel(vec![card_holds(2, quiet)]);
    s.reconcile(&mut sock2, true, &topo, 0).unwrap();

    // Same interface, same index, new name.
    let renamed = Builder::new()
        .add("nicX", 2, Some(mac(1)))
        .master("br0")
        .vfs(1)
        .add("vetha", 4, Some(mac(4)))
        .master("br0")
        .add("br0", 10, Some(mac(3)))
        .bridge()
        .lower("nicX")
        .lower("vetha")
        .build();
    s.pairs = vec![Pair {
        dev: "nicX".into(),
        bridge: "br0".into(),
    }];
    let mut sock3 = kernel(vec![card_holds(2, quiet)]);
    s.reconcile(&mut sock3, true, &renamed, 0).unwrap();

    // Under the new name, one newcomer past the margin: the keep pays.
    // Counting from zero here would leave it standing and overfill.
    s.max_macs = 6;
    s.remember_vf(vec![2], vec![(2, VF_ADMIN)]);
    let newcomer: Mac = [0x02, 0xf1, 0, 0, 0, 9];
    let mut sock4 = FakeSock {
        vf: vec![(2, VF_ADMIN)],
        ..Default::default()
    };
    s.fast_apply(
        &mut sock4,
        &renamed,
        &[(RTM_NEWNEIGH, learned(4, 10, newcomer))],
    )
    .unwrap();
    assert!(
        sock4.removed.iter().any(|(_, m)| *m == quiet),
        "the renamed uplink counted from zero and overfilled its card"
    );

    // And the list of WHICH addresses travelled too: re-learning the
    // newcomer costs no slot, so nothing more may be shed. Without the
    // carried list the re-learn reads as a fresh slot and takes a keep
    // with it - here there are none left, so it would warn instead.
    let mut sock5 = FakeSock {
        vf: vec![(2, VF_ADMIN)],
        ..Default::default()
    };
    s.fast_apply(
        &mut sock5,
        &renamed,
        &[(RTM_NEWNEIGH, learned(4, 10, newcomer))],
    )
    .unwrap();
    assert!(
        sock5.removed.is_empty(),
        "a re-learn after the rename was counted as a new slot"
    );
}

/// A stale removal the card refused evicts its port memory so it cannot
/// harden into a keep - and the pass's own memory merge must not put it
/// straight back. Otherwise the outcome depends on whether the card
/// errored, which is the opposite of what the failure arm intends.
#[test]
fn a_refused_stale_removal_does_not_return_through_the_merge() {
    let dir = scratch("stale-refused-merge");
    let topo = host(mac(1));
    let (_, mut s, _) = registered(&dir);
    assert!(s.load_owned("nic1").contains(&BEHIND_GUEST));

    // The guest's port goes: nothing vouches for the address any more, so
    // the pass wants it gone - and the card refuses to let go.
    let without_veth = Builder::new()
        .add("nic1", 2, Some(mac(1)))
        .master("vmbr1")
        .vfs(1)
        .add("nic2", 3, Some(mac(2)))
        .master("vmbr1")
        .add("vmbr1", 10, Some(mac(1)))
        .bridge()
        .lower("nic1")
        .lower("nic2")
        .build();
    let mut fail = Table::new();
    fail.insert(BEHIND_GUEST, EBUSY);
    let mut sock2 = FakeSock {
        fdb: vec![card_holds(2, BEHIND_GUEST)],
        vf: vec![(2, VF_ADMIN)],
        fail_del: fail,
        ..Default::default()
    };
    s.reconcile(&mut sock2, true, &without_veth, 0)
        .unwrap();
    assert!(
        s.load_owned("nic1").contains(&BEHIND_GUEST),
        "a refused removal keeps its note line for the retry"
    );

    // The port comes back - a container restarting under the same name.
    // With the memory evicted the address is still stale and the retry
    // removes it; with the memory put back by the merge it would be held
    // as a quiet keep instead, and the retry would never come.
    let mut sock3 = FakeSock {
        fdb: vec![card_holds(2, BEHIND_GUEST)],
        vf: vec![(2, VF_ADMIN)],
        ..Default::default()
    };
    s.reconcile(&mut sock3, true, &topo, 0).unwrap();
    assert!(
        sock3.removed.iter().any(|(_, m)| *m == BEHIND_GUEST),
        "the refused removal came back as a keep instead of being retried"
    );
    assert!(
        !s.load_owned("nic1").contains(&BEHIND_GUEST),
        "and the note lets go once the card did"
    );
}

/// When the room needed is more than the quiet can give, the shedder
/// stops rather than reaching into the living: a guest the bridge still
/// knows is one somebody is talking to right now, and taking its entry
/// out to make room for another is the outage this daemon exists to
/// prevent. The ordering alone would not stop it - it would simply carry
/// on into the next-oldest, which is a speaking guest.
#[test]
fn the_shedder_stops_rather_than_take_a_living_guest() {
    let dir = scratch("shed-stops");
    let quiet: Mac = [0x02, 0xf2, 0, 0, 0, 1];
    let live: Mac = [0x02, 0xf2, 0, 0, 0, 2];
    let topo = small_host();
    let mut s = br0_syncer(&dir);
    let mut sock = kernel(vec![learned(4, 10, quiet), learned(4, 10, live)]);
    s.reconcile(&mut sock, true, &topo, 0).unwrap();
    // `quiet` falls silent; `live` keeps talking. Three slots held.
    let mut sock2 = kernel(vec![card_holds(2, quiet), learned(4, 10, live)]);
    s.reconcile(&mut sock2, true, &topo, 0).unwrap();

    // Three slots held, allowed = 7 - 4 = 3, two newcomers: two slots are
    // needed and only one quiet entry can pay. The shedder must stop
    // there rather than carry on into `live`, which the ordering alone
    // would happily do.
    s.max_macs = 7;
    s.remember_vf(vec![2], vec![(2, VF_ADMIN)]);
    let a: Mac = [0x02, 0xf2, 0, 0, 0, 8];
    let b: Mac = [0x02, 0xf2, 0, 0, 0, 9];
    let mut sock3 = FakeSock {
        vf: vec![(2, VF_ADMIN)],
        ..Default::default()
    };
    s.fast_apply(
        &mut sock3,
        &topo,
        &[
            (RTM_NEWNEIGH, learned(4, 10, a)),
            (RTM_NEWNEIGH, learned(4, 10, b)),
        ],
    )
    .unwrap();
    assert!(
        sock3.removed.iter().any(|(_, m)| *m == quiet),
        "the one quiet entry should have been surrendered"
    );
    assert!(
        !sock3.removed.iter().any(|(_, m)| *m == live),
        "a guest the bridge still knows was surrendered for room"
    );
}

/// The over-capacity warning is said once per stay above the limit and
/// re-armed when it clears - and it counts what the CARD holds, foreign
/// entries included, not merely what the daemon wants. Every part of that
/// could be deleted without a test noticing.
#[test]
fn the_over_capacity_warning_counts_the_card_and_says_it_once() {
    let dir = scratch("over-capacity-warning");
    let mine: Mac = [0x02, 0xf3, 0, 0, 0, 1];
    let topo = small_host();
    let mut s = br0_syncer(&dir);
    // Four foreign entries in the card plus our two: six against a limit
    // of five. Wanting two alone would stay under it.
    s.max_macs = 5;
    let foreign: Vec<FdbEntry> = (1..=4u8)
        .map(|i| card_holds(2, [0xaa, 0xf3, 0, 0, 0, i]))
        .collect();
    let mut fdb1 = vec![learned(4, 10, mine)];
    fdb1.extend(foreign.clone());
    let mut sock = kernel(fdb1);
    s.reconcile(&mut sock, true, &topo, 0).unwrap();
    assert!(
        s.said().over.contains("nic1"),
        "the card is over its limit and nothing said so"
    );

    // Said once: a second identical pass must not re-arm it.
    let mut fdb2 = vec![learned(4, 10, mine)];
    fdb2.extend(foreign);
    let mut sock2 = kernel(fdb2);
    s.reconcile(&mut sock2, true, &topo, 0).unwrap();
    assert!(s.said().over.contains("nic1"), "the mark must stand");

    // The foreign entries go: back under the limit, and the warning is
    // armed again for the next time.
    let mut sock3 = kernel(vec![learned(4, 10, mine)]);
    s.reconcile(&mut sock3, true, &topo, 0).unwrap();
    assert!(
        !s.said().over.contains("nic1"),
        "back under the limit has to re-arm the warning"
    );
}

/// A memory file from a build whose numbers meant something else is no
/// memory at all. Without the format line this silently read the old
/// missing-since milliseconds as last-seen nanoseconds, and every
/// carried-over entry looked silent since boot.
#[test]
fn a_memory_file_from_another_format_is_ignored() {
    let dir = scratch("ports-format");
    let topo = host(mac(1));
    let (_, mut s, _) = registered(&dir);
    age_out(&mut s, &topo, BEHIND_GUEST);
    let path = dir.join(".nic1.owned.ports");
    let good = Fs::read_to_string(&path).unwrap();
    drop(s);

    // The same lines under a header this build does not know.
    let body: Vec<&str> = good.lines().skip(1).collect();
    Fs::write(
        &path,
        format!("sriov-mac-sync ports 1\n{}\n", body.join("\n")),
    )
    .unwrap();

    let mut restarted = ready_syncer(&dir);
    let mut aged = fdb_without(BEHIND_GUEST);
    aged.push(card_holds(2, BEHIND_GUEST));
    let mut sock = kernel(aged);
    let reports = restarted
        .reconcile(&mut sock, true, &topo, 0)
        .unwrap();
    assert!(
        sock.removed.iter().any(|(_, m)| *m == BEHIND_GUEST),
        "a file in an unknown format was believed anyway"
    );
    assert_eq!(reports[0].quiet, 0);
    // And the next write leaves it in the format this build does read.
    assert_eq!(
        Fs::read_to_string(&path).unwrap().lines().next(),
        good.lines().next(),
        "the file was not rewritten in this build's own format"
    );
}

/// A bridge forgets an address exactly its ageing time after the last frame,
/// so the deletion dates that frame: where the pass had only "still there
/// when I looked", the deletion says "and it went on speaking after that" -
/// never the reverse, which is what the only-if-later guard is for. The valve
/// evicts by this number.
#[test]
fn a_deletion_says_how_long_after_the_pass_the_guest_spoke() {
    let dir = scratch("delneigh-dates");
    // `spoke_later` sorts FIRST, so the address tie-break alone would
    // name it: only a real date can spare it.
    let spoke_later: Mac = [0x02, 0xf4, 0, 0, 0, 1];
    let just_quiet: Mac = [0x02, 0xf4, 0, 0, 0, 2];
    // A bridge that forgets in 10 ms, so "one ageing time ago" lands
    // inside a test's lifetime rather than five minutes outside it.
    let topo = small_host_ageing(10);
    let mut s = br0_syncer(&dir);
    let mut sock = kernel(vec![
        learned(4, 10, spoke_later),
        learned(4, 10, just_quiet),
    ]);
    s.reconcile(&mut sock, true, &topo, 0).unwrap();

    // Time passes with no pass in it - the window the daemon is blind in.
    dir.sleep(40);

    // The bridge forgets one of them and says so. Its ageing time places
    // that guest's last frame 10 ms ago, well after the pass above.
    s.remember_vf(vec![2], vec![(2, VF_ADMIN)]);
    let mut ev = FakeSock::default();
    s.fast_apply(
        &mut ev,
        &topo,
        &[(RTM_DELNEIGH, learned(4, 10, spoke_later))],
    )
    .unwrap();

    // Both are keeps now, and there is room for one.
    let mut sock2 = kernel(vec![card_holds(2, spoke_later), card_holds(2, just_quiet)]);
    s.reconcile(&mut sock2, true, &topo, 0).unwrap();
    s.max_macs = 7;
    let newcomer: Mac = [0x02, 0xf4, 0, 0, 0, 9];
    let mut sock3 = FakeSock {
        vf: vec![(2, VF_ADMIN)],
        ..Default::default()
    };
    s.fast_apply(
        &mut sock3,
        &topo,
        &[(RTM_NEWNEIGH, learned(4, 10, newcomer))],
    )
    .unwrap();
    assert!(
        sock3.removed.iter().any(|(_, m)| *m == just_quiet),
        "the address nothing vouched for should have paid"
    );
    assert!(
        !sock3.removed.iter().any(|(_, m)| *m == spoke_later),
        "the address the bridge dated as speaking after the pass was evicted"
    );
}

/// The dating never runs backwards. A vlan-aware bridge holds one entry
/// per VLAN and ages them apart, so a deletion can arrive for an address
/// that spoke in another VLAN moments ago - and the later word is the
/// true one. Without the guard the deletion would date it a whole ageing
/// time into the past and the valve would evict the address that is in
/// fact the most recently heard of the two.
#[test]
fn a_deletion_never_makes_an_address_older_than_it_is() {
    let dir = scratch("delneigh-no-regress");
    let a: Mac = [0x02, 0xf5, 0, 0, 0, 1];
    let b: Mac = [0x02, 0xf5, 0, 0, 0, 2];
    let topo = small_host();
    let mut s = br0_syncer(&dir);
    let mut sock = kernel(vec![learned(4, 10, a), learned(4, 10, b)]);
    s.reconcile(&mut sock, true, &topo, 0).unwrap();

    // `b` falls silent; `a` keeps speaking, so the next pass moves only
    // `a`'s stamp forward. `a` is now the more recently heard of the two.
    let mut sock2 = kernel(vec![learned(4, 10, a), card_holds(2, b)]);
    s.reconcile(&mut sock2, true, &topo, 0).unwrap();

    // One of `a`'s VLAN entries ages out and says so. Dating it back a
    // whole ageing time would put it behind `b`, which is the opposite of
    // what the bridge just told us about `a`.
    s.remember_vf(vec![2], vec![(2, VF_ADMIN)]);
    let mut ev = FakeSock::default();
    s.fast_apply(&mut ev, &topo, &[(RTM_DELNEIGH, learned(4, 10, a))])
        .unwrap();
    // Now `a` really does fall silent too, so both are keeps.
    let mut sock3 = kernel(vec![card_holds(2, a), card_holds(2, b)]);
    s.reconcile(&mut sock3, true, &topo, 0).unwrap();

    // Three slots held, allowed = 3, one newcomer: exactly one keep pays,
    // and it has to be `b`.
    s.max_macs = 7;
    let newcomer: Mac = [0x02, 0xf5, 0, 0, 0, 9];
    let mut sock4 = FakeSock {
        vf: vec![(2, VF_ADMIN)],
        ..Default::default()
    };
    s.fast_apply(
        &mut sock4,
        &topo,
        &[(RTM_NEWNEIGH, learned(4, 10, newcomer))],
    )
    .unwrap();
    assert!(
        sock4.removed.iter().any(|(_, m)| *m == b),
        "the address silent since the earlier pass should have paid"
    );
    assert!(
        !sock4.removed.iter().any(|(_, m)| *m == a),
        "a deletion dated an address older than the bridge had just shown it"
    );
}

/// The date is the deletion's moment minus the bridge's ageing time, not
/// the deletion's moment: the bridge gave up now, so the guest spoke one
/// ageing time ago. Taking the moment itself would credit every aged-out
/// address with having just spoken - and the valve would then protect the
/// addresses that have been silent longest.
#[test]
fn the_date_is_one_ageing_time_before_the_deletion() {
    let dir = scratch("delneigh-arithmetic");
    let m: Mac = [0x02, 0xf6, 0, 0, 0, 1];
    // A bridge that forgets after 200 ms, so a test can outlive it.
    let topo = small_host_ageing(200);
    let mut s = br0_syncer(&dir);
    let mut sock = kernel(vec![learned(4, 10, m)]);
    s.reconcile(&mut sock, true, &topo, 0).unwrap();

    // Long enough that the deletion's date lands after the pass, so the
    // only-if-later guard lets it through and the number is really this
    // code's arithmetic rather than the pass's stamp.
    // Twice the ageing time, so that the two answers are far apart: dated,
    // the silence comes out at one ageing time; undated, it is the whole
    // wait. A window that admits both is a window that pins nothing.
    dir.sleep(400);
    s.remember_vf(vec![2], vec![(2, VF_ADMIN)]);
    let mut ev = FakeSock::default();
    s.fast_apply(&mut ev, &topo, &[(RTM_DELNEIGH, learned(4, 10, m))])
        .unwrap();

    let mut sock2 = kernel(vec![card_holds(2, m)]);
    // The per-address half is what --status prints; ask for it.
    s.detail = true;
    let reports = s.reconcile(&mut sock2, true, &topo, 0).unwrap();
    let (_, silent) = reports[0]
        .detail
        .as_ref()
        .expect("the detail was asked for")
        .quiet_ages
        .iter()
        .find(|(a, _)| *a == m)
        .expect("the address should be held quiet");
    assert!(
        (190..=310).contains(silent),
        "the silence should be the bridge's 200 ms ageing time, not the 400 ms \
         since the pass - was {silent} ms"
    );
}

/// Stamps only ever move forward, whoever writes them: the sources do not
/// share a clock reading (a nudged pass stamp can sit ahead of the clock a
/// learn reads moments later, a deletion's date is older than now), and a
/// learn that set a stamp back would make a live guest the valve's first
/// victim.
#[test]
fn a_stamp_never_moves_backwards_whoever_writes_it() {
    let dir = scratch("stamp-monotone");
    let m: Mac = [0x02, 0xf7, 0, 0, 0, 1];
    let topo = small_host();
    let mut s = br0_syncer(&dir);
    let mut sock = kernel(vec![learned(4, 10, m)]);
    s.reconcile(&mut sock, true, &topo, 0).unwrap();

    // A pass stamp is `max(clock, previous + 1)`, so a run of passes
    // inside one millisecond walks ahead of the clock. Two passes back to
    // back usually do that by themselves - usually is not a premise, and
    // for two years of this test's life it silently did not hold - so the
    // predecessor is set a minute ahead and the nudge is certain.
    s.last_pass_at = dir.boot_millis() + 60_000;
    let mut sock2 = kernel(vec![learned(4, 10, m)]);
    s.reconcile(&mut sock2, true, &topo, 0).unwrap();
    let after_pass = s.ports()["nic1"][&m].1;
    assert!(
        after_pass > dir.boot_millis(),
        "the premise: the pass stamp has to be ahead of the clock a learn reads"
    );

    // A learn now: evidence the guest is alive, and it must not read as
    // older than what the pass already recorded.
    s.remember_vf(vec![2], vec![(2, VF_ADMIN)]);
    let mut ev = FakeSock::default();
    s.fast_apply(&mut ev, &topo, &[(RTM_NEWNEIGH, learned(4, 10, m))])
        .unwrap();
    assert!(
        s.ports()["nic1"][&m].1 >= after_pass,
        "a learn set the stamp back: {} then {}",
        after_pass,
        s.ports()["nic1"][&m].1
    );

    // And a deletion, which dates deliberately into the past, cannot
    // either.
    let before_del = s.ports()["nic1"][&m].1;
    let mut ev2 = FakeSock::default();
    s.fast_apply(&mut ev2, &topo, &[(RTM_DELNEIGH, learned(4, 10, m))])
        .unwrap();
    assert!(
        s.ports()["nic1"][&m].1 >= before_del,
        "a deletion set the stamp back"
    );
}

/// A registration the card refused with a hard error is NOT in the card,
/// and must not be recorded as if it were. The grow-gate reads
/// owned-and-present as "re-learning this grows nothing" and skips the
/// fresh driver question - so a wrongly-present address lets the next
/// re-learn write a virtual function's own address into the filter.
#[test]
fn a_refused_registration_is_not_recorded_as_present() {
    let dir = scratch("present-honest");
    let m: Mac = [0x02, 0xf8, 0, 0, 0, 1];
    let topo = small_host();
    let mut s = br0_syncer(&dir);
    s.remember_vf(vec![2], vec![(2, VF_ADMIN)]);

    // The card refuses the add outright. The note keeps the line for the
    // retry - that is the crash posture and deliberate.
    let mut fail = Table::new();
    fail.insert(m, EBUSY);
    let mut sock = FakeSock {
        vf: vec![(2, VF_ADMIN)],
        fail_add: fail,
        ..Default::default()
    };
    s.fast_apply(&mut sock, &topo, &[(RTM_NEWNEIGH, learned(4, 10, m))])
        .unwrap();
    assert!(
        s.load_owned("nic1").contains(&m),
        "a refused add keeps its note line for the retry"
    );
    assert!(
        !s.cards()["nic1"].present.contains(&m),
        "an address the card refused was recorded as present"
    );

    // The re-learn is therefore a growth, and a growth asks the driver.
    let mut sock2 = FakeSock {
        vf: vec![(2, VF_ADMIN)],
        ..Default::default()
    };
    s.fast_apply(&mut sock2, &topo, &[(RTM_NEWNEIGH, learned(4, 10, m))])
        .unwrap();
    assert!(
        sock2.vf_asked >= 1,
        "putting an address the card never took back in is a growth and has to ask"
    );
}

/// The event path's valve surrenders from the same pool the pass's does -
/// the pass's keeps - so it can never reach an address the pass would
/// refuse to shed. A pinned EXTRA that has aged out of the bridge is
/// exactly such an address: `quiet_survivors` skips everything still
/// wanted, so the pass would never surrender it, and neither may a burst.
#[test]
fn the_fast_valve_never_sheds_a_pinned_address() {
    let dir = scratch("shed-spares-pinned");
    let pinned: Mac = [0x02, 0xf9, 0, 0, 0, 1];
    let ordinary: Mac = [0x02, 0xf9, 0, 0, 0, 2];
    let topo = small_host();
    let mut s = br0_syncer(&dir);
    s.extra.insert(pinned);
    let mut sock = kernel(vec![learned(4, 10, pinned), learned(4, 10, ordinary)]);
    s.reconcile(&mut sock, true, &topo, 0).unwrap();

    // Both fall silent. `pinned` stays wanted because EXTRA pins it, so
    // it is not a keep; `ordinary` is.
    let mut sock2 = kernel(vec![card_holds(2, pinned), card_holds(2, ordinary)]);
    s.reconcile(&mut sock2, true, &topo, 0).unwrap();

    // Room for one: `ordinary` has to pay, whatever the addresses sort
    // like - `pinned` sorts first and would go if the pool were the whole
    // port memory.
    s.max_macs = 7;
    s.remember_vf(vec![2], vec![(2, VF_ADMIN)]);
    let newcomer: Mac = [0x02, 0xf9, 0, 0, 0, 9];
    let mut sock3 = FakeSock {
        vf: vec![(2, VF_ADMIN)],
        ..Default::default()
    };
    s.fast_apply(
        &mut sock3,
        &topo,
        &[(RTM_NEWNEIGH, learned(4, 10, newcomer))],
    )
    .unwrap();
    assert!(
        !sock3.removed.iter().any(|(_, m)| *m == pinned),
        "the burst surrendered a pinned address the pass would have kept"
    );
    assert!(
        sock3.removed.iter().any(|(_, m)| *m == ordinary),
        "the ordinary keep should have paid instead"
    );
}

/// A pass that could not read its note refreshes no stamp, so it must not
/// advance the ground stamps are judged against either - every live guest
/// would read as quiet afterwards and the event path would delete a
/// speaking guest's entry to make room.
#[test]
fn a_blind_pass_does_not_move_the_ground() {
    let dir = scratch("blind-pass-ground");
    let m: Mac = [0x02, 0xfa, 0, 0, 0, 1];
    let topo = small_host();
    let mut s = br0_syncer(&dir);
    let mut sock = kernel(vec![learned(4, 10, m)]);
    s.reconcile(&mut sock, true, &topo, 0).unwrap();
    let ground = s.cards()["nic1"].passed_at;

    // The note is replaced by one this daemon cannot read.
    let note = dir.join("nic1.owned");
    let tmp = dir.join(".nic1.owned.swap");
    Fs::write(&tmp, Fs::read_to_string(&note).unwrap()).unwrap();
    Fs::set_readable(&tmp, false);
    Fs::rename(&tmp, &note).unwrap();

    let mut sock2 = kernel(vec![learned(4, 10, m)]);
    s.reconcile(&mut sock2, true, &topo, 0).unwrap();
    assert_eq!(
        s.cards()["nic1"].passed_at, ground,
        "a pass that saw nothing moved the ground its stamps are judged against"
    );
    assert!(
        s.cards()["nic1"].quiet.is_empty(),
        "a pass that could not read its note keeps nothing"
    );
    Fs::set_readable(&note, true);
}

/// The memory only ever learns about addresses this daemon registered.
///
/// A deletion arrives for every address the bridge forgets, and
/// `date_the_silence` dates them all - but an address with no entry gets one
/// only with a port, which a deletion does not carry. Otherwise the
/// neighbour's printer would sit in the memory and the valve would `bridge
/// fdb del` an entry this daemon never put in the card.
#[test]
fn a_deletion_alone_never_puts_an_address_into_the_memory() {
    let dir = scratch("memory-owned-only");
    let ours: Mac = [0x02, 0xfb, 0, 0, 0, 1];
    let stranger: Mac = [0x02, 0xfb, 0, 0, 0, 2];
    let topo = small_host();
    let mut s = br0_syncer(&dir);
    let mut sock = kernel(vec![learned(4, 10, ours)]);
    s.reconcile(&mut sock, true, &topo, 0).unwrap();
    s.remember_vf(vec![2], vec![(2, VF_ADMIN)]);

    // The bridge forgets both: one of ours, and one that was never ours
    // to begin with.
    let mut ev = FakeSock::default();
    s.fast_apply(
        &mut ev,
        &topo,
        &[
            (RTM_DELNEIGH, learned(4, 10, ours)),
            (RTM_DELNEIGH, learned(4, 10, stranger)),
        ],
    )
    .unwrap();
    assert!(
        s.ports()["nic1"].contains_key(&ours),
        "our own address should still be remembered"
    );
    assert!(
        !s.ports()["nic1"].contains_key(&stranger),
        "a deletion put a foreign address into the memory the valve deletes from"
    );
}

/// What the valve surrenders, it also stops counting: the occupancy is what
/// the next burst measures against, and `present` tells the decide phase an
/// address is already in. A shed entry left in either makes the valve believe
/// it freed nothing and shed again, one guest per burst, while the card never
/// gets emptier.
#[test]
fn a_shed_entry_stops_being_counted() {
    let dir = scratch("shed-bookkeeping");
    let old: Mac = [0x02, 0xfc, 0, 0, 0, 1];
    let topo = small_host();
    let mut s = br0_syncer(&dir);
    let mut sock = kernel(vec![learned(4, 10, old)]);
    s.reconcile(&mut sock, true, &topo, 0).unwrap();
    dir.sleep(5);
    let mut sock2 = kernel(vec![card_holds(2, old)]);
    s.reconcile(&mut sock2, true, &topo, 0).unwrap();
    let before = s.cards()["nic1"].present.len();
    assert!(s.cards()["nic1"].present.contains(&old));

    s.max_macs = 5;
    s.remember_vf(vec![2], vec![(2, VF_ADMIN)]);
    let newcomer: Mac = [0x02, 0xfc, 0, 0, 0, 9];
    let mut ev = FakeSock {
        vf: vec![(2, VF_ADMIN)],
        ..Default::default()
    };
    s.fast_apply(&mut ev, &topo, &[(RTM_NEWNEIGH, learned(4, 10, newcomer))])
        .unwrap();
    assert!(
        ev.removed.iter().any(|(_, m)| *m == old),
        "the silent entry should have been surrendered"
    );
    assert!(
        !s.cards()["nic1"].present.contains(&old),
        "a surrendered address is still counted as being in the card"
    );
    assert!(
        !s.cards()["nic1"].quiet.contains(&old),
        "a surrendered address is still offered to the next burst"
    );
    // One out, one in: the count says exactly that.
    assert_eq!(
        s.cards()["nic1"].present.len(),
        before,
        "the occupancy did not follow what the valve did"
    );
}


/// An address registered by the fast path knows its port at once.
///
/// The pass would record it at its next dump, but a daemon that dies in
/// that window leaves the address on the note with no port - and the
/// restart, with no port to check, takes it out of the card as soon as it
/// falls quiet. Which is the outage the memory file exists to prevent.
#[test]
fn a_fast_registration_records_the_port_it_was_learnt_on() {
    let dir = scratch("fast-port-memory");
    let m: Mac = [0x02, 0xc1, 0, 0, 0, 1];
    let topo = small_host();
    let mut s = br0_syncer(&dir);
    // A pass first, so the memory file has been consulted for this uplink.
    let mut sock = kernel(vec![]);
    s.reconcile(&mut sock, true, &topo, 0).unwrap();
    s.remember_vf(vec![2], vec![(2, VF_ADMIN)]);

    let mut ev = FakeSock {
        vf: vec![(2, VF_ADMIN)],
        ..Default::default()
    };
    s.fast_apply(&mut ev, &topo, &[(RTM_NEWNEIGH, learned(4, 10, m))])
        .unwrap();
    assert_eq!(
        s.ports()
            .get("nic1")
            .and_then(|p| p.get(&m))
            .map(|&(i, _)| i),
        Some(4),
        "the fast path registered an address without recording its port"
    );

    // And when the same address arrives twice in one burst, on two
    // different ports, the last learn is where it is now.
    let two_ports = Builder::new()
        .add("nic1", 2, Some(mac(1)))
        .master("br0")
        .vfs(1)
        .add("vetha", 4, Some(mac(4)))
        .master("br0")
        .add("vethb", 5, Some(mac(5)))
        .master("br0")
        .add("br0", 10, Some(mac(3)))
        .bridge()
        .lower("nic1")
        .lower("vetha")
        .lower("vethb")
        .build();
    let elsewhere: Mac = [0x02, 0xc1, 0, 0, 0, 2];
    let mut ev2 = FakeSock {
        vf: vec![(2, VF_ADMIN)],
        ..Default::default()
    };
    s.fast_apply(
        &mut ev2,
        &two_ports,
        &[
            (RTM_NEWNEIGH, learned(4, 10, elsewhere)),
            (RTM_NEWNEIGH, learned(5, 10, elsewhere)),
        ],
    )
    .unwrap();
    assert_eq!(
        s.ports()["nic1"].get(&elsewhere).map(|&(i, _)| i),
        Some(5),
        "the earlier learn of a burst won over the later one"
    );
}

/// A deletion dates the memory of the uplinks its own bridge serves, and no
/// others: the ageing time comes from the bridge that forgot the address, and
/// handing that answer to every uplink let a dual-homed guest drag an
/// hour-old entry forward to five minutes, so the valve surrendered a
/// genuinely quieter guest.
#[test]
fn a_deletion_dates_only_the_bridge_it_came_from() {
    let dir = scratch("dating-per-bridge");
    let m: Mac = [0x02, 0xc2, 0, 0, 0, 1];
    // Two uplinks under two bridges. Both hold the same address - a
    // dual-homed guest - and only br0 ages quickly.
    let topo = Builder::new()
        .add("nic1", 2, Some(mac(1)))
        .master("br0")
        .vfs(1)
        .add("vetha", 4, Some(mac(4)))
        .master("br0")
        .add("br0", 10, Some(mac(3)))
        .bridge()
        .ageing(Some(200))
        .lower("nic1")
        .lower("vetha")
        .add("nic2", 3, Some(mac(2)))
        .master("br1")
        .vfs(1)
        .add("vethb", 5, Some(mac(5)))
        .master("br1")
        .add("br1", 11, Some(mac(6)))
        .bridge()
        .ageing(Some(200))
        .lower("nic2")
        .lower("vethb")
        .build();
    let mut s = S::new(
        vec![
            Pair {
                dev: "nic1".into(),
                bridge: "br0".into(),
            },
            Pair {
                dev: "nic2".into(),
                bridge: "br1".into(),
            },
        ],
        dir.clone(),
    );
    let mut sock = kernel(vec![learned(4, 10, m), learned(5, 11, m)]);
    s.reconcile(&mut sock, true, &topo, 0).unwrap();
    let before = s.ports()["nic2"][&m].1;

    // br0 forgets it. br1 has said nothing.
    dir.sleep(260);
    s.remember_vf(vec![2, 3], vec![(2, VF_ADMIN), (3, VF_ADMIN)]);
    let mut ev = FakeSock::default();
    s.fast_apply(&mut ev, &topo, &[(RTM_DELNEIGH, learned(4, 10, m))])
        .unwrap();
    assert!(
        s.ports()["nic1"][&m].1 > before,
        "the deletion should have dated its own bridge's memory"
    );
    assert_eq!(
        s.ports()["nic2"][&m].1, before,
        "one bridge's deletion dated another bridge's memory"
    );
}

/// An entry the card says it never had frees its slot too.
///
/// A reflection removes an address the wire has taken over. The card can
/// answer ENOENT - it is already gone - and that is a slot free just as
/// much as a successful removal. Counting it as occupied made the next
/// burst measure its room against a slot that was not there.
#[test]
fn a_removal_that_was_already_gone_still_frees_its_slot() {
    let dir = scratch("enoent-frees-slot");
    let m: Mac = [0x02, 0xc3, 0, 0, 0, 1];
    let topo = small_host();
    let mut s = br0_syncer(&dir);
    let mut sock = kernel(vec![learned(4, 10, m)]);
    s.reconcile(&mut sock, true, &topo, 0).unwrap();
    let before = s.cards()["nic1"].present.len();
    assert!(s.cards()["nic1"].present.contains(&m));

    // It turns up on the wire, so the daemon takes it back out - and the
    // card says it was never there.
    s.remember_vf(vec![2], vec![(2, VF_ADMIN)]);
    let mut fail = Table::new();
    fail.insert(m, ENOENT);
    let mut ev = FakeSock {
        vf: vec![(2, VF_ADMIN)],
        fail_del: fail,
        ..Default::default()
    };
    s.fast_apply(&mut ev, &topo, &[(RTM_NEWNEIGH, learned(2, 10, m))])
        .unwrap();
    assert!(
        !s.cards()["nic1"].present.contains(&m),
        "an entry the card said it did not have was still counted as present"
    );
    assert_eq!(
        s.cards()["nic1"].present.len(),
        before - 1,
        "the slot it never occupied was never given back"
    );
}

/// A process that has not read the memory file does not delete it. "Nothing
/// in `carried_ports`" means either nothing to remember or nobody has looked
/// yet - `load_ports` runs only in the pass's pair loop, while the reflection
/// path reaches `save_ports` from a batch. Told apart wrongly, the previous
/// process's keeps are unlinked unread.
#[test]
fn a_reflection_before_the_first_pass_keeps_the_memory_file() {
    let dir = scratch("reflection-keeps-file");
    let quiet: Mac = [0x02, 0xd1, 0, 0, 0, 1];
    let moved: Mac = [0x02, 0xd1, 0, 0, 0, 2];
    let topo = small_host();

    // A previous process: both addresses registered, `quiet` then ages out
    // of the bridge and is kept.
    let mut first = br0_syncer(&dir);
    let mut sock = kernel(vec![learned(4, 10, quiet), learned(4, 10, moved)]);
    first.reconcile(&mut sock, true, &topo, 0).unwrap();
    dir.sleep(5);
    let mut sock2 = kernel(vec![card_holds(2, quiet), learned(4, 10, moved)]);
    first.reconcile(&mut sock2, true, &topo, 0).unwrap();
    drop(first);
    let file = dir.join(".nic1.owned.ports");
    assert!(
        file.is_there(),
        "the previous process should have left a memory"
    );

    // The new process answers a batch before any pass reached load_ports:
    // `moved` turns up on the uplink port itself, so the reflection takes
    // it back out and saves the memory.
    let mut s = br0_syncer(&dir);
    s.remember_vf(vec![2], vec![(2, VF_ADMIN)]);
    let mut ev = FakeSock::default();
    s.fast_apply(&mut ev, &topo, &[(RTM_NEWNEIGH, learned(2, 10, moved))])
        .unwrap();
    assert!(
        file.is_there(),
        "the memory file was deleted by a process that had never read it"
    );

    // And the first pass still takes the keep over.
    let mut sock3 = kernel(vec![card_holds(2, quiet)]);
    let reports = s.reconcile(&mut sock3, true, &topo, 0).unwrap();
    assert_eq!(reports[0].quiet, 1, "the quiet guest should have survived");
    assert!(
        !sock3.removed.iter().any(|(_, m)| *m == quiet),
        "the quiet guest was unregistered after its memory was lost"
    );
}

/// A note left mid-address by an unfinished write is cut back, not built on:
/// `append_owned_locked` works in place, and a write that stops halfway (a
/// full /run, a killed process) leaves the file ending inside an address.
/// Appending glues two addresses into one unreadable line, and the card gets
/// an entry no note names - invariant 3, broken by a full filesystem.
#[test]
fn an_unfinished_note_line_is_cut_back_before_appending() {
    let dir = scratch("note-halfline");
    let whole: Mac = [0x02, 0xd2, 0, 0, 0, 1];
    let added: Mac = [0x02, 0xd2, 0, 0, 0, 2];
    let topo = small_host();
    let mut s = br0_syncer(&dir);
    let mut sock = kernel(vec![learned(4, 10, whole)]);
    s.reconcile(&mut sock, true, &topo, 0).unwrap();

    // The write that did not finish: a whole line, then most of a second.
    let note = dir.join("nic1.owned");
    let text = Fs::read_to_string(&note).unwrap();
    Fs::write(&note, format!("{text}02:d2:00:00:00:0")).unwrap();

    s.remember_vf(vec![2], vec![(2, VF_ADMIN)]);
    let mut ev = FakeSock {
        vf: vec![(2, VF_ADMIN)],
        ..Default::default()
    };
    s.fast_apply(&mut ev, &topo, &[(RTM_NEWNEIGH, learned(4, 10, added))])
        .unwrap();

    // Every line is a whole address, and the note names what the card holds.
    let after = Fs::read_to_string(&note).unwrap();
    for line in after.lines().filter(|l| !l.trim().is_empty()) {
        assert_eq!(
            line.trim().len(),
            17,
            "the note carries a line that is not an address: {line:?} in {after:?}"
        );
    }
    let owned = s.load_owned("nic1");
    assert!(owned.contains(&whole), "the finished line should survive");
    assert!(
        owned.contains(&added),
        "the appended address has to be readable back: {after:?}"
    );
    assert!(
        ev.added.iter().any(|(_, m)| *m == added),
        "and it should have reached the card"
    );
}

/// The fast path does not make a port memory before the file was read:
/// `load_ports` bails out when a map is already carried, so whoever creates
/// the map first decides whether the previous process's file is ever read -
/// and a batch reaches `fast_apply` before the pass's pair loop. Without the
/// guard the empty map wins and the keeps are lost unread.
#[test]
fn a_batch_before_the_first_pass_does_not_shadow_the_memory_file() {
    let dir = scratch("fastpath-shadow");
    let quiet: Mac = [0x02, 0xd3, 0, 0, 0, 1];
    let newcomer: Mac = [0x02, 0xd3, 0, 0, 0, 2];
    let topo = small_host();

    // A previous process leaves a memory with one quiet guest.
    let mut first = br0_syncer(&dir);
    let mut sock = kernel(vec![learned(4, 10, quiet)]);
    first.reconcile(&mut sock, true, &topo, 0).unwrap();
    dir.sleep(5);
    let mut sock2 = kernel(vec![card_holds(2, quiet)]);
    first.reconcile(&mut sock2, true, &topo, 0).unwrap();
    drop(first);

    // The new process answers a batch first - the pass that would have read
    // the file skipped this pair, or was refused.
    let mut s = br0_syncer(&dir);
    s.remember_vf(vec![2], vec![(2, VF_ADMIN)]);
    let mut ev = FakeSock {
        vf: vec![(2, VF_ADMIN)],
        ..Default::default()
    };
    s.fast_apply(&mut ev, &topo, &[(RTM_NEWNEIGH, learned(4, 10, newcomer))])
        .unwrap();

    // Now the first pass. It must still find the file.
    let mut sock3 = kernel(vec![card_holds(2, quiet), card_holds(2, newcomer)]);
    let reports = s.reconcile(&mut sock3, true, &topo, 0).unwrap();
    assert!(
        s.ports()["nic1"].contains_key(&quiet),
        "the previous process's memory was shadowed by the batch"
    );
    assert_eq!(reports[0].quiet, 1, "the quiet guest should have been kept");
    assert!(
        !sock3.removed.iter().any(|(_, m)| *m == quiet),
        "the quiet guest was unregistered because its memory went unread"
    );
}

/// A rename that happened while nothing was running still carries the keeps.
/// The warm case (daemon watched the rename) is the easy one, the memory is
/// in RAM. The cold case is the one a rename actually happens in (udev, `ip
/// link set name` between service boots), and there `load_ports` only runs
/// for a name that is still a pair, so the old name's map is empty and
/// `migrate_note` unlinks the file it would have come from.
#[test]
fn a_rename_while_stopped_carries_the_quiet_memory_too() {
    let dir = scratch("rename-cold");
    let quiet: Mac = [0x02, 0xd4, 0, 0, 0, 1];
    let before = small_host();

    // A process registers the guest and lets it go quiet.
    let mut first = br0_syncer(&dir);
    let mut sock = kernel(vec![learned(4, 10, quiet)]);
    first
        .reconcile(&mut sock, true, &before, 0)
        .unwrap();
    dir.sleep(5);
    let mut sock2 = kernel(vec![card_holds(2, quiet)]);
    first
        .reconcile(&mut sock2, true, &before, 0)
        .unwrap();
    drop(first);
    assert!(dir.join(".nic1.owned.ports").is_there());

    // Nothing runs, and the interface is renamed. A fresh process comes up
    // and sees only the new name - it never had nic1 in RAM.
    let after = Builder::new()
        .add("nicX", 2, Some(mac(1)))
        .master("br0")
        .vfs(1)
        .add("vetha", 4, Some(mac(4)))
        .master("br0")
        .add("br0", 10, Some(mac(3)))
        .bridge()
        .lower("nicX")
        .lower("vetha")
        .build();
    let mut s = S::new(
        vec![Pair {
            dev: "nicX".into(),
            bridge: "br0".into(),
        }],
        dir.clone(),
    );
    s.authoritative = true;
    s.remember_vf(vec![2], vec![(2, VF_ADMIN)]);
    let mut sock3 = kernel(vec![card_holds(2, quiet)]);
    let reports = s.reconcile(&mut sock3, true, &after, 0).unwrap();

    assert!(
        s.ports()
            .get("nicX")
            .is_some_and(|p| p.contains_key(&quiet)),
        "the rename lost the quiet memory: {:?}",
        s.ports().keys().collect::<Vec<_>>()
    );
    assert!(
        s.loaded().contains("nicX"),
        "the new name has to count as read, or the fast path stops stamping it"
    );
    assert_eq!(reports[0].quiet, 1, "the quiet guest should have been kept");
    assert!(
        !sock3.removed.iter().any(|(_, m)| *m == quiet),
        "the quiet guest was unregistered across the rename"
    );
}

/// A rename whose pass never reaches the pair loop still marks the new name
/// as read. Normally `load_ports` does that at the top of the pair loop,
/// which makes the line in the rename block look redundant - but the loop has
/// three fail-closed exits before it, and a pass that migrates the note and
/// bails on one of them leaves a carried memory nothing counts as read: the
/// fast path stops stamping it while the valve judges it, and a guest that
/// just spoke is named longest-silent.
#[test]
fn a_rename_marks_the_new_name_even_when_the_pass_bails() {
    let dir = scratch("rename-bails");
    let quiet: Mac = [0x02, 0xd5, 0, 0, 0, 1];
    let before = small_host();
    let mut first = br0_syncer(&dir);
    let mut sock = kernel(vec![learned(4, 10, quiet)]);
    first
        .reconcile(&mut sock, true, &before, 0)
        .unwrap();
    drop(first);

    // The interface is renamed AND its bridge is missing from this reading -
    // an ifreload caught halfway. drop_orphans migrates the note; the pair
    // loop then gives up on the missing bridge before load_ports.
    let half = Builder::new()
        .add("nicX", 2, Some(mac(1)))
        .vfs(1)
        .add("vetha", 4, Some(mac(4)))
        .build();
    let mut s = S::new(
        vec![Pair {
            dev: "nicX".into(),
            bridge: "br0".into(),
        }],
        dir.clone(),
    );
    s.authoritative = true;
    s.remember_vf(vec![2], vec![(2, VF_ADMIN)]);
    let mut sock2 = kernel(vec![]);
    s.reconcile(&mut sock2, true, &half, 0).unwrap();

    assert!(
        s.ports().contains_key("nicX"),
        "the memory should have moved with the note"
    );
    assert!(
        s.loaded().contains("nicX"),
        "the migrated name was never counted as read, so nothing stamps it"
    );
}

/// A keep the card never took frees no slot, and the valve says so:
/// candidates come from the note, which deliberately keeps an address whose
/// registration failed (the crash posture), and reporting its deletion as
/// freed made the caller believe it had made room, so the over-limit warning
/// stayed silent.
#[test]
fn a_keep_the_card_never_took_frees_no_slot() {
    let dir = scratch("phantom-keep");
    let phantom: Mac = [0x02, 0xd6, 0, 0, 0, 1];
    let topo = small_host();
    let mut s = br0_syncer(&dir);
    let mut sock = kernel(vec![learned(4, 10, phantom)]);
    s.reconcile(&mut sock, true, &topo, 0).unwrap();

    // The card loses it and refuses to take it back - noted, but absent.
    dir.sleep(5);
    let mut fail = Table::new();
    fail.insert(phantom, EINVAL);
    let mut sock2 = FakeSock {
        fail_add: fail,
        ..Default::default()
    };
    s.reconcile(&mut sock2, true, &topo, 0).unwrap();
    assert!(s.load_owned("nic1").contains(&phantom), "still noted");
    assert!(
        !s.cards()["nic1"].present.contains(&phantom),
        "and not in the card"
    );

    // Now a newcomer arrives with no room. The phantom is the only
    // candidate; surrendering it frees nothing, so the warning has to come.
    s.max_macs = 5;
    s.remember_vf(vec![2], vec![(2, VF_ADMIN)]);
    let newcomer: Mac = [0x02, 0xd6, 0, 0, 0, 9];
    let mut ev = FakeSock {
        vf: vec![(2, VF_ADMIN)],
        ..Default::default()
    };
    s.fast_apply(&mut ev, &topo, &[(RTM_NEWNEIGH, learned(4, 10, newcomer))])
        .unwrap();
    assert!(
        s.said().tight.contains("nic1"),
        "the valve reported a slot it did not free, so the warning stayed silent"
    );
}

/// The two warnings keep their own marks.
///
/// They speak at different thresholds - the pass at "past max_macs", the
/// batch at "past max_macs minus the headroom" - so a shared say-once mark
/// meant every pass in the four-slot band between them cleared what the
/// batch had just set, and "once per uplink per stay" became once per batch.
#[test]
fn the_two_capacity_warnings_do_not_clear_each_other() {
    let dir = scratch("two-warnings");
    let old: Mac = [0x02, 0xd7, 0, 0, 0, 1];
    let topo = small_host();
    let mut s = br0_syncer(&dir);
    let mut sock = kernel(vec![learned(4, 10, old)]);
    s.reconcile(&mut sock, true, &topo, 0).unwrap();

    // A batch that cannot make room sets the tight-fit mark.
    s.max_macs = 5;
    s.remember_vf(vec![2], vec![(2, VF_ADMIN)]);
    let mut ev = FakeSock {
        vf: vec![(2, VF_ADMIN)],
        ..Default::default()
    };
    s.fast_apply(
        &mut ev,
        &topo,
        &[(RTM_NEWNEIGH, learned(4, 10, [0x02, 0xd7, 0, 0, 0, 9]))],
    )
    .unwrap();
    assert!(
        s.said().tight.contains("nic1"),
        "the batch should have said it"
    );

    // A pass follows while the list is still inside the headroom band. It
    // has nothing of its own to say - occupied is under max_macs - but it
    // must not clear the batch's mark either.
    let mut sock2 = kernel(vec![learned(4, 10, old)]);
    s.reconcile(&mut sock2, true, &topo, 0).unwrap();
    assert!(
        s.said().tight.contains("nic1"),
        "the pass cleared a mark set at a threshold it does not measure"
    );

    // Room again: now it re-arms.
    s.max_macs = 128;
    let mut sock3 = kernel(vec![learned(4, 10, old)]);
    s.reconcile(&mut sock3, true, &topo, 0).unwrap();
    assert!(
        !s.said().tight.contains("nic1"),
        "with the list well under the limit the warning has to re-arm"
    );
}

/// The pass records what the card holds, not what it wanted: `holds` is the
/// read-back plus what the registrations landed, minus what the stale loop
/// took out. Recording intent, or forgetting the removals, leaves the count
/// high - and the count decides the next burst's room and whether an ageing
/// batch is answered at the fast rate.
#[test]
fn a_pass_records_the_card_not_its_intent() {
    let dir = scratch("holds-observed");
    let stale: Mac = [0x02, 0xd8, 0, 0, 0, 1];
    let live: Mac = [0x02, 0xd8, 0, 0, 0, 2];
    // Two guest ports, so that one can go without taking the other with it.
    let topo = Builder::new()
        .add("nic1", 2, Some(mac(1)))
        .master("br0")
        .vfs(1)
        .add("vetha", 4, Some(mac(4)))
        .master("br0")
        .add("vethb", 5, Some(mac(5)))
        .master("br0")
        .add("br0", 10, Some(mac(3)))
        .bridge()
        .lower("nic1")
        .lower("vetha")
        .lower("vethb")
        .build();
    let mut s = br0_syncer(&dir);
    let mut sock = kernel(vec![learned(5, 10, stale), learned(4, 10, live)]);
    s.reconcile(&mut sock, true, &topo, 0).unwrap();
    let both = s.cards()["nic1"].present.len();

    // `stale` leaves the bridge AND its port goes, so the pass removes it.
    // `live` stays learnt behind vetha.
    let gone = Builder::new()
        .add("nic1", 2, Some(mac(1)))
        .master("br0")
        .vfs(1)
        .add("vetha", 4, Some(mac(4)))
        .master("br0")
        .add("br0", 10, Some(mac(3)))
        .bridge()
        .lower("nic1")
        .lower("vetha")
        .build();
    let mut sock2 = FakeSock {
        fdb: vec![card_holds(2, stale), learned(4, 10, live)],
        ..Default::default()
    };
    s.reconcile(&mut sock2, true, &gone, 0).unwrap();

    assert!(
        sock2.removed.iter().any(|(_, m)| *m == stale),
        "the address whose port went should have been removed"
    );
    assert!(
        !s.cards()["nic1"].present.contains(&stale),
        "a removed address is still counted as being in the card"
    );
    assert_eq!(
        s.cards()["nic1"].present.len(),
        both - 1,
        "the count did not follow the removal"
    );
}

/// The notes never copy a foreign file into the journal: `noted_devices` used
/// to ask only what a name ended in, so a symlink `<x>.owned` pointing
/// elsewhere was read as a note by a root daemon and every unparsable line
/// went into the warning verbatim. Such an entry is skipped, and an
/// unreadable line is reported by number and length.
#[test]
fn a_foreign_file_in_the_state_directory_is_not_read_out_loud() {
    let dir = scratch("state-symlink");
    let secret = dir.join("secret");
    Fs::write(&secret, "root:$6$verytopsecrethash:20000:0:99999:7:::\n").unwrap();
    Fs::symlink(&secret, dir.join("zzz.owned")).unwrap();

    let mut s = S::new(Vec::new(), dir.clone());
    assert!(
        !s.noted_devices_or_none().iter().any(|d| d == "zzz"),
        "a symlink was taken for one of our notes"
    );
    assert_eq!(
        s.registered(),
        0,
        "and nothing was counted out of somebody else's file"
    );
    assert_eq!(
        Fs::read_to_string(&secret).unwrap(),
        "root:$6$verytopsecrethash:20000:0:99999:7:::\n",
        "the file it pointed at must be untouched"
    );
}

/// A note that is gone takes its cached index record with it: the record
/// lives beside the note and a second-terminal `--flush` unlinks both.
/// Keeping the cached index makes `note_index` short-circuit for life, the
/// record is never rewritten, and a later rename reads as a disappearance.
#[test]
fn a_vanished_note_clears_the_cached_index() {
    let dir = scratch("index-cache");
    let m: Mac = [0x02, 0xd9, 0, 0, 0, 1];
    let topo = small_host();
    let mut s = br0_syncer(&dir);
    let mut sock = kernel(vec![learned(4, 10, m)]);
    s.reconcile(&mut sock, true, &topo, 0).unwrap();
    assert!(
        dir.join(".nic1.owned.index").is_there(),
        "the record is written"
    );

    // Somebody else flushes: note and index record both go. That is the
    // "readable but it moved" branch - with no file at all, the stat before
    // and the stat after are both None and the read is not steady.
    Fs::remove_file(dir.join("nic1.owned")).unwrap();
    Fs::remove_file(dir.join(".nic1.owned.index")).unwrap();
    let _ = s.load_owned("nic1");

    // Registering again has to write the record afresh.
    let mut sock2 = kernel(vec![learned(4, 10, m)]);
    s.reconcile(&mut sock2, true, &topo, 0).unwrap();
    assert!(
        dir.join(".nic1.owned.index").is_there(),
        "the index record was never written again, so a rename would read as a loss"
    );
}

// ------------------------------------------------- what holds of everything

const GUEST: Mac = [0x02, 0xd9, 0, 0, 0, 1];
const OTHER: Mac = [0x02, 0xd9, 0, 0, 0, 2];

/// An entry in nic1's own filter.
fn in_filter(mac: Mac) -> FdbEntry {
    FdbEntry { ifindex: 2, master: None, mac, state: 0x80, flags: 0x02 }
}

fn touches_the_card(trace: &[String]) -> bool {
    trace.iter().any(|l| l.starts_with("add ") || l.starts_with("del "))
}

#[test]
fn the_note_takes_an_address_before_the_card_does() {
    let dir = scratch("order");
    let mut s = br0_syncer(&dir);
    let mut sock = kernel(vec![learned(4, 10, GUEST)]);
    s.reconcile(&mut sock, true, &small_host(), 0).unwrap();
    let noted = sock.trace.iter().position(|l| l == "append nic1.owned").unwrap();
    let first = sock.trace.iter().position(|l| l.starts_with("add ")).unwrap();
    assert!(noted < first);
    assert_eq!(
        Fs::read_to_string(dir.join(".nic1.owned.index")).unwrap(),
        "2\n"
    );
}

#[test]
fn a_note_that_cannot_be_written_keeps_the_card_untouched() {
    let dir = scratch("held-back");
    let mut s = br0_syncer(&dir);
    let mut sock = kernel(vec![learned(4, 10, GUEST)]);
    sock.fail_put = Some(EIO);
    let reports = s.reconcile(&mut sock, true, &small_host(), 0).unwrap();
    assert!(!touches_the_card(&sock.trace));
    assert_eq!(reports[0].added, 0);
    assert_eq!(
        s.timings.failures,
        vec!["nic1: note unusable, 2 registration(s) held back".to_string()]
    );
}

#[test]
fn a_refused_removal_keeps_its_line_and_is_reported() {
    let dir = scratch("refused-removal");
    let mut s = br0_syncer(&dir);
    let mut first = kernel(vec![learned(4, 10, GUEST)]);
    s.reconcile(&mut first, true, &small_host(), 0).unwrap();

    // The guest is out on the wire now, and the card will not let it go.
    let mut sock = kernel(vec![learned(2, 10, GUEST), in_filter(GUEST), in_filter(mac(3))]);
    sock.fail_del.insert(GUEST, EBUSY);
    let reports = s.reconcile(&mut sock, true, &small_host(), 0).unwrap();
    assert_eq!(reports[0].removed, 0);
    assert_eq!(
        s.timings.failures,
        vec!["nic1: unregister 02:d9:00:00:00:01: Device or resource busy (os error 16)".to_string()]
    );
    assert!(s.load_owned("nic1").contains(&GUEST));
    assert!(!s.ports()["nic1"].contains_key(&GUEST));
}

#[test]
fn a_pass_fails_where_the_table_or_the_driver_does() {
    let dir = scratch("pass-errors");
    let mut s = br0_syncer(&dir);
    let mut sock = kernel(vec![learned(4, 10, GUEST)]);
    sock.fail_fdb = Some(ENOBUFS);
    assert_eq!(
        s.reconcile(&mut sock, true, &small_host(), 0).err(),
        Some(Errno(ENOBUFS))
    );
    sock.fail_vf = Some(EIO);
    assert_eq!(
        s.reconcile(&mut sock, true, &small_host(), 0).err(),
        Some(Errno(EIO))
    );
    let learn = [(RTM_NEWNEIGH, learned(4, 10, GUEST))];
    sock.fail_vf = Some(EBUSY);
    assert_eq!(
        s.fast_apply(&mut sock, &small_host(), &learn).err(),
        Some(Errno(EBUSY))
    );
    assert!(sock.trace.is_empty());
}

#[test]
fn a_flush_fails_where_the_host_or_the_notes_cannot_be_listed() {
    let dir = scratch("flush-errors");
    let mut s = br0_syncer(&dir);
    let mut sock = kernel(Vec::new());
    sock.fail_links = Some(ENOBUFS);
    assert_eq!(s.flush(&mut sock).err(), Some(Errno(ENOBUFS)));
    dir.unlistable();
    assert_eq!(s.flush(&mut sock).err(), Some(Errno(ENOTDIR)));
}

#[test]
fn a_clean_flush_takes_out_what_was_noted_and_nothing_else() {
    let dir = scratch("flush-all");
    let mut s = br0_syncer(&dir);
    let mut sock = kernel(vec![learned(4, 10, GUEST)]);
    s.reconcile(&mut sock, true, &small_host(), 0).unwrap();
    let mut added: Vec<(u32, Mac)> = sock.added.clone();

    sock.links = vec![(2, "nic1".to_string())];
    assert_eq!(s.flush(&mut sock), Ok(true));
    let mut removed: Vec<(u32, Mac)> = sock.removed.clone();
    added.sort();
    removed.sort();
    assert_eq!(added, vec![(2, mac(3)), (2, GUEST)]);
    assert_eq!(removed, added);
    assert!(dir.snapshot().is_empty());
}

#[test]
fn what_only_looks_changes_nothing() {
    let dir = scratch("looks");
    let topo = small_host();
    let mut s = br0_syncer(&dir);
    let mut sock = kernel(vec![learned(4, 10, GUEST)]);
    s.reconcile(&mut sock, true, &topo, 0).unwrap();
    let before = dir.snapshot();

    let mut later = br0_syncer(&dir);
    let mut sock = kernel(vec![learned(4, 10, OTHER)]);
    sock.links = vec![(2, "nic1".to_string())];
    let report = &later.reconcile(&mut sock, false, &topo, 0).unwrap()[0];
    // the guest is kept, its port being there still; the other one would be put in
    assert_eq!((report.added, report.removed), (3, 0));
    later.dry_run = true;
    later.reconcile(&mut sock, true, &topo, 0).unwrap();
    assert_eq!(later.flush(&mut sock), Ok(true));
    let learn = [(RTM_NEWNEIGH, learned(4, 10, OTHER))];
    assert_eq!(later.fast_apply(&mut sock, &topo, &learn), Ok(Urgency::Now));
    assert!(sock.trace.is_empty());
    assert_eq!(dir.snapshot(), before);
}

#[test]
fn a_settled_pair_is_left_alone() {
    let dir = scratch("settled");
    let topo = small_host();
    let mut s = br0_syncer(&dir);
    let mut sock = kernel(vec![learned(4, 10, GUEST)]);
    s.reconcile(&mut sock, true, &topo, 0).unwrap();

    let mut sock = kernel(vec![learned(4, 10, GUEST), in_filter(GUEST), in_filter(mac(3))]);
    let reports = s.reconcile(&mut sock, true, &topo, 0).unwrap();
    assert!(!touches_the_card(&sock.trace));
    assert_eq!((reports[0].added, reports[0].removed), (0, 0));
    assert_eq!((reports[0].wanted, reports[0].owned, reports[0].foreign), (2, 2, 0));
    assert_eq!(s.fullest_filter(), 2);
}

#[test]
fn a_restart_takes_the_memory_over() {
    let dir = scratch("restart");
    let topo = small_host();
    let mut s = br0_syncer(&dir);
    let mut sock = kernel(vec![learned(4, 10, GUEST)]);
    s.reconcile(&mut sock, true, &topo, 0).unwrap();
    let at = s.last_pass_at;
    assert_eq!(
        Fs::read_to_string(dir.join(".nic1.owned.ports")).unwrap(),
        format!("sriov-mac-sync ports 3\n02:d9:00:00:00:01 vetha 4 {at}\n")
    );

    // The next process finds the bridge silent, and keeps the guest.
    dir.sleep(1000);
    let mut next = br0_syncer(&dir);
    let mut sock = kernel(vec![in_filter(GUEST), in_filter(mac(3))]);
    let reports = next.reconcile(&mut sock, true, &topo, 0).unwrap();
    assert_eq!(next.ports()["nic1"][&GUEST], (4, at));
    assert_eq!((reports[0].quiet, reports[0].removed), (1, 0));
    assert!(!touches_the_card(&sock.trace));
}

#[test]
fn the_longest_silent_are_surrendered_first() {
    let dir = scratch("valve");
    let topo = small_host();
    let mut s = br0_syncer(&dir);
    // The other guest speaks last, a second after the first.
    let mut sock = kernel(vec![learned(4, 10, GUEST)]);
    s.reconcile(&mut sock, true, &topo, 0).unwrap();
    dir.sleep(1000);
    let mut sock = kernel(vec![learned(4, 10, OTHER), in_filter(GUEST), in_filter(mac(3))]);
    s.reconcile(&mut sock, true, &topo, 0).unwrap();
    assert_eq!(s.cards()["nic1"].quiet, [GUEST].into_iter().collect());

    // Both are silent, and there is room for one of them: four slots stay free.
    dir.sleep(1000);
    s.max_macs = 6;
    let mut sock = kernel(vec![in_filter(GUEST), in_filter(OTHER), in_filter(mac(3))]);
    s.reconcile(&mut sock, true, &topo, 0).unwrap();
    assert_eq!(sock.removed, vec![(2, GUEST)]);
    assert_eq!(s.cards()["nic1"].quiet, [OTHER].into_iter().collect());
}

#[test]
fn a_lost_port_ends_the_keep() {
    let dir = scratch("port-gone");
    let mut s = br0_syncer(&dir);
    let mut sock = kernel(vec![learned(4, 10, GUEST)]);
    s.reconcile(&mut sock, true, &small_host(), 0).unwrap();

    let without = Builder::new()
        .add("nic1", 2, Some(mac(1)))
        .master("br0")
        .vfs(1)
        .add("br0", 10, Some(mac(3)))
        .bridge()
        .lower("nic1")
        .build();
    let mut sock = kernel(vec![in_filter(GUEST), in_filter(mac(3))]);
    s.reconcile(&mut sock, true, &without, 0).unwrap();
    assert_eq!(sock.removed, vec![(2, GUEST)]);
}

#[test]
fn deletions_ask_nothing_of_the_card() {
    let dir = scratch("deletions");
    let topo = small_host();
    let mut s = br0_syncer(&dir);
    let mut sock = kernel(vec![learned(4, 10, GUEST)]);
    s.reconcile(&mut sock, true, &topo, 0).unwrap();
    let mut sock = kernel(Vec::new());
    let gone = [(RTM_DELNEIGH, learned(4, 10, GUEST))];
    assert_eq!(s.fast_apply(&mut sock, &topo, &gone), Ok(Urgency::WhenConvenient));
    assert_eq!(s.fast_apply(&mut sock, &topo, &[]), Ok(Urgency::Nothing));
    assert!(sock.trace.is_empty());
    assert_eq!(sock.vf_asked, 0);
}

#[test]
fn an_orphan_is_believed_once_its_grace_is_over() {
    let dir = scratch("grace");
    let mut s = S::new(vec![pair()], dir);
    s.authoritative = true;
    s.orphan_grace = 500;
    let noted = vec!["nic1".to_string(), "nic9".to_string()];
    assert!(s.overdue_among(&noted, 1000).is_empty());
    assert!(s.overdue_among(&noted, 1499).is_empty());
    assert_eq!(s.overdue_among(&noted, 1500), vec!["nic9".to_string()]);
    // One whose note went meanwhile starts afresh.
    assert!(s.overdue_among(&vec!["nic1".to_string()], 1600).is_empty());
    assert!(s.overdue_among(&noted, 1700).is_empty());
    assert_eq!(s.overdue_among(&noted, 2200), vec!["nic9".to_string()]);
}

#[test]
fn a_note_that_names_them_all_is_not_touched() {
    let dir = scratch("named-all");
    let mut s = br0_syncer(&dir);
    let text = "02:d9:00:00:00:02\n02:d9:00:00:00:01";
    Fs::write(dir.join("nic1.owned"), text).unwrap();
    assert!(s.append_owned("nic1", &[GUEST, OTHER]));
    assert_eq!(Fs::read_to_string(dir.join("nic1.owned")).unwrap(), text);
    // A new one goes behind the last finished line, and nothing named is lost.
    assert!(s.append_owned("nic1", &[GUEST, mac(9)]));
    assert_eq!(
        Fs::read_to_string(dir.join("nic1.owned")).unwrap(),
        "02:d9:00:00:00:02\n02:d9:00:00:00:01\n00:11:22:33:44:09\n"
    );
}

#[test]
fn a_probe_leaves_no_trace_in_a_note() {
    let dir = scratch("probe-trace");
    let mut s = br0_syncer(&dir);
    let text = "02:d9:00:00:00:02\n02:d9:00:00:00:01\n";
    Fs::write(dir.join("nic1.owned"), text).unwrap();
    let probe = mac(9);
    assert!(s.note_check_probe("nic1", 2, &probe));
    assert!(s.load_owned("nic1").contains(&probe));
    s.forget_check_probe("nic1", &probe);
    assert_eq!(Fs::read_to_string(dir.join("nic1.owned")).unwrap(), text);
}

#[test]
fn a_line_outlives_the_entry_it_names() {
    let dir = scratch("outlives");
    let topo = small_host();
    let mut s = br0_syncer(&dir);
    let mut sock = kernel(vec![learned(4, 10, GUEST)]);
    s.reconcile(&mut sock, true, &topo, 0).unwrap();

    // The guest moves out onto the wire: out of the card, and then off the note.
    let mut sock = kernel(vec![learned(2, 10, GUEST), in_filter(GUEST), in_filter(mac(3))]);
    s.reconcile(&mut sock, true, &topo, 0).unwrap();
    let at = |trace: &[String], what: &str| trace.iter().position(|l| l == what).unwrap();
    assert!(
        at(&sock.trace, "del 02:d9:00:00:00:01") < at(&sock.trace, "put nic1.owned"),
        "{:?}",
        sock.trace
    );
    assert_eq!(s.load_owned("nic1"), [mac(3)].into_iter().collect());

    // And so does everything else when the card is cleared.
    let mut sock = kernel(Vec::new());
    sock.links = vec![(2, "nic1".to_string())];
    assert_eq!(s.flush(&mut sock), Ok(true));
    assert!(
        at(&sock.trace, "del 00:11:22:33:44:03") < at(&sock.trace, "remove nic1.owned"),
        "{:?}",
        sock.trace
    );
}

#[test]
fn a_pass_without_failures_leaves_the_filter_as_wanted() {
    let dir = scratch("as-wanted");
    let topo = small_host();
    let mut s = br0_syncer(&dir);
    let mut sock = kernel(vec![learned(4, 10, GUEST), learned(4, 10, OTHER)]);
    s.reconcile(&mut sock, true, &topo, 0).unwrap();
    assert!(s.timings.failures.is_empty());
    assert_eq!(
        s.cards()["nic1"].present,
        [mac(3), GUEST, OTHER].into_iter().collect()
    );

    // One moves out onto the wire: it is taken out, and the others stay.
    let mut sock = kernel(vec![
        learned(2, 10, OTHER),
        learned(4, 10, GUEST),
        in_filter(GUEST),
        in_filter(OTHER),
        in_filter(mac(3)),
    ]);
    s.reconcile(&mut sock, true, &topo, 0).unwrap();
    assert!(s.timings.failures.is_empty());
    assert_eq!(s.cards()["nic1"].present, [mac(3), GUEST].into_iter().collect());

    // What the card refuses is reported, and does not count as there.
    let mut sock = kernel(vec![
        learned(4, 10, GUEST),
        learned(4, 10, OTHER),
        in_filter(GUEST),
        in_filter(mac(3)),
    ]);
    sock.fail_add.insert(OTHER, EBUSY);
    s.reconcile(&mut sock, true, &topo, 0).unwrap();
    assert_eq!(
        s.timings.failures,
        vec!["nic1: register 02:d9:00:00:00:02: Device or resource busy (os error 16)".to_string()]
    );
    assert!(!s.cards()["nic1"].present.contains(&OTHER));
}

#[test]
fn a_flush_that_was_refused_is_not_clean() {
    let dir = scratch("flush-refused");
    let mut s = br0_syncer(&dir);
    let mut sock = kernel(vec![learned(4, 10, GUEST)]);
    s.reconcile(&mut sock, true, &small_host(), 0).unwrap();
    sock.links = vec![(2, "nic1".to_string())];
    sock.fail_del.insert(GUEST, EBUSY);
    assert_eq!(s.flush(&mut sock), Ok(false));
    assert_eq!(s.load_owned("nic1"), [GUEST].into_iter().collect());
}

#[test]
fn the_names_of_the_interfaces_decide_nothing() {
    let renamed = Builder::new()
        .add("zz", 2, Some(mac(1)))
        .master("aa")
        .vfs(1)
        .add("mm", 4, Some(mac(4)))
        .master("aa")
        .add("aa", 10, Some(mac(3)))
        .bridge()
        .lower("zz")
        .lower("mm")
        .build();
    let table = vec![learned(4, 10, GUEST), learned(2, 10, OTHER)];
    let mut plain_sock = kernel(table.clone());
    br0_syncer(&scratch("plain"))
        .reconcile(&mut plain_sock, true, &small_host(), 0)
        .unwrap();
    let pair = Pair { dev: "zz".into(), bridge: "aa".into() };
    let mut s = S::new(vec![pair], scratch("renamed"));
    let mut sock = kernel(table);
    s.reconcile(&mut sock, true, &renamed, 0).unwrap();
    let sorted = |v: &Vec<(u32, Mac)>| v.iter().copied().collect::<Macs<_>>();
    assert_eq!(sorted(&sock.added), [(2, GUEST), (2, mac(3))].into_iter().collect());
    assert_eq!(sorted(&sock.added), sorted(&plain_sock.added));
}

#[test]
fn the_cost_of_reading_the_host_counts_into_the_pass() {
    let mut s = br0_syncer(&scratch("cost"));
    let mut sock = kernel(vec![learned(4, 10, GUEST)]);
    s.reconcile(&mut sock, true, &small_host(), 7_000).unwrap();
    assert_eq!(s.timings.topology, 7_000);
    assert!(s.timings.total > 7_000);
    // The clock moves by one at every reading, and each question is between two.
    assert_eq!((s.timings.fdb, s.timings.vf_macs), (1, 1));

    let mut none = S::new(Vec::new(), scratch("cost-none"));
    none.reconcile(&mut sock, true, &small_host(), 7_000).unwrap();
    let t = &none.timings;
    assert_eq!((t.topology, t.fdb, t.vf_macs, t.orphans, t.pairs), (7_000, 0, 0, 0, 0));
    assert_eq!(t.total, 7_001);
}

// ------------------------------------------------------- what a note is given

const FIRST: Mac = [0x02, 0, 0, 0, 0, 0x01];
const SECOND: Mac = [0x02, 0, 0, 0, 0, 0x02];

#[test]
fn an_address_asked_for_twice_gets_one_line() {
    let dir = scratch("twice");
    let mut s = S::new(Vec::new(), dir.clone());
    assert_eq!(s.append_owned_locked("nic1", &[FIRST, FIRST]), Some(vec![FIRST]));
    assert_eq!(Fs::read_to_string(dir.join("nic1.owned")), Ok("02:00:00:00:00:01\n".to_string()));

    assert_eq!(s.append_owned_locked("nic1", &[SECOND, FIRST, SECOND]), Some(vec![SECOND]));
    assert_eq!(
        Fs::read_to_string(dir.join("nic1.owned")),
        Ok("02:00:00:00:00:01\n02:00:00:00:00:02\n".to_string())
    );
}

#[test]
fn an_address_on_a_torn_line_is_written_again_but_is_not_new() {
    let dir = scratch("torn");
    Fs::write(dir.join("nic1.owned"), "02:00:00:00:00:01").unwrap();
    let mut s = S::new(Vec::new(), dir.clone());
    assert_eq!(s.append_owned_locked("nic1", &[FIRST, SECOND]), Some(vec![SECOND]));
    assert_eq!(
        Fs::read_to_string(dir.join("nic1.owned")),
        Ok("02:00:00:00:00:01\n02:00:00:00:00:02\n".to_string())
    );
}

#[test]
fn a_line_finished_by_somebody_else_survives_an_append() {
    let dir = scratch("append-race");
    let mut s = S::new(Vec::new(), dir.clone());
    assert_eq!(s.append_owned_locked("nic1", &[FIRST]), Some(vec![FIRST]));
    s.desk.meanwhile_append = Some((dir.join("nic1.owned"), BEHIND_NIC));
    assert_eq!(s.append_owned_locked("nic1", &[SECOND]), Some(vec![SECOND]));
    let named = s.load_owned("nic1");
    assert_eq!(named, [FIRST, SECOND, BEHIND_NIC].into_iter().collect());
}

#[test]
fn a_memory_that_is_gone_counts_as_removed() {
    let dir = scratch("gone-memory");
    let topo = small_host();
    let mut s = br0_syncer(&dir);
    Fs::write(dir.join(".nic1.owned.ports"), "whatever\n").unwrap();
    let dev = "nic1".to_string();
    let _ = s.syncer.memory.loaded.insert(dev.clone());
    s.desk.fail_remove = Some(EIO);
    let syncer = &mut s.syncer;
    with(&mut s.desk, |d| {
        syncer.memory.save_ports(&mut syncer.book, d, &dev, &topo, 0, false)
    });
    assert!(!dir.join(".nic1.owned.ports").is_there());
    assert!(
        s.syncer.memory.written.contains_key(&dev),
        "the file is gone, whatever the removal was answered with"
    );
}

#[test]
fn a_pass_adds_nothing_that_the_card_holds_already() {
    let dir = scratch("already-there");
    let topo = small_host();
    let mut s = br0_syncer(&dir);
    let mut sock = kernel(vec![learned(4, 10, FIRST), learned(4, 10, SECOND), card_holds(2, FIRST)]);
    s.reconcile(&mut sock, true, &topo, 0).unwrap();
    assert!(sock.added.contains(&(2, SECOND)));
    assert!(!sock.added.contains(&(2, FIRST)), "the dump shows it in the filter");
    assert!(!s.load_owned("nic1").contains(&FIRST), "and it is somebody else's");
}

// ------------------------------------------------------------------ the journal

#[test]
fn a_filter_over_its_limit_is_said_once_with_its_numbers() {
    let dir = scratch("journal-over");
    let topo = small_host();
    let mut s = br0_syncer(&dir);
    s.max_macs = 2;
    let learns: Vec<FdbEntry> =
        (1..=4u8).map(|i| learned(4, 10, [0x02, 0xe0, 0, 0, 0, i])).collect();
    s.reconcile(&mut kernel(learns.clone()), true, &topo, 0).unwrap();
    let over = "warning: nic1: 5 unicast entries against the 2 the vport list holds - some \
                will be dropped silently, and not by choice";
    assert_eq!(s.take_journal(), vec![over.to_string()]);

    s.reconcile(&mut kernel(learns.clone()), true, &topo, 0).unwrap();
    assert!(s.take_journal().is_empty(), "once is enough");

    s.max_macs = 128;
    s.reconcile(&mut kernel(learns.clone()), true, &topo, 0).unwrap();
    assert!(s.take_journal().is_empty());
    s.max_macs = 2;
    s.reconcile(&mut kernel(learns), true, &topo, 0).unwrap();
    assert_eq!(s.take_journal(), vec![over.to_string()], "a new situation is news");
}

#[test]
fn a_burst_without_room_is_said_once_with_its_numbers() {
    let dir = scratch("journal-tight");
    let topo = small_host();
    let mut s = br0_syncer(&dir);
    s.reconcile(&mut kernel(vec![learned(4, 10, FIRST)]), true, &topo, 0).unwrap();
    let _ = s.take_journal();
    s.max_macs = 6;
    let mut sock = kernel(Vec::new());
    s.fast_apply(&mut sock, &topo, &[(RTM_NEWNEIGH, learned(4, 10, SECOND))]).unwrap();
    assert_eq!(
        s.take_journal(),
        vec![
            "warning: nic1: no room for 1 new address(es) and no quiet ones left to release - \
             the list is within 4 of the 6 the card holds, and past that it drops silently"
                .to_string()
        ]
    );
    s.fast_apply(&mut sock, &topo, &[(RTM_NEWNEIGH, learned(4, 10, BEHIND_NIC))]).unwrap();
    assert!(s.take_journal().is_empty());
}

#[test]
fn quiet_and_surrendered_addresses_are_counted_in_the_journal() {
    let dir = scratch("journal-quiet");
    let topo = small_host();
    let mut s = br0_syncer(&dir);
    let macs: Vec<Mac> = (1..=3u8).map(|i| [0x02, 0xe0, 0, 0, 0, i]).collect();
    let learns = macs.iter().map(|m| learned(4, 10, *m)).collect();
    s.reconcile(&mut kernel(learns), true, &topo, 0).unwrap();
    assert!(s.take_journal().is_empty());

    let held: Vec<FdbEntry> = macs.iter().map(|m| card_holds(2, *m)).collect();
    s.reconcile(&mut kernel(held.clone()), true, &topo, 0).unwrap();
    assert_eq!(
        s.take_journal(),
        vec![
            "nic1: 3 address(es) aged out of the bridge but their ports live on; kept [quiet]"
                .to_string()
        ]
    );

    s.max_macs = 6;
    s.reconcile(&mut kernel(held), true, &topo, 0).unwrap();
    assert_eq!(
        s.take_journal(),
        vec!["nic1: filter nearing its 6 limit, released 2 quiet address(es) [pressure]".to_string()]
    );
}

#[test]
fn a_pinned_address_that_is_excluded_is_said_once() {
    let dir = scratch("journal-pinned");
    let topo = small_host();
    let mut s = br0_syncer(&dir);
    s.extra = keys(&[FIRST].into_iter().collect());
    s.exclude = keys(&[FIRST].into_iter().collect());
    for first in [true, false] {
        s.reconcile(&mut kernel(Vec::new()), true, &topo, 0).unwrap();
        let lines = s.take_journal();
        if first {
            assert_eq!(
                lines,
                vec![
                    "warning: nic1: pinned address 02:00:00:00:00:01 not registered - it is \
                     excluded, multicast, the host's own, or the bridge has it out on the wire"
                        .to_string()
                ]
            );
        } else {
            assert!(lines.is_empty());
        }
    }
}

#[test]
fn an_unknowable_virtual_function_is_spelled_out_in_the_journal() {
    let dir = scratch("journal-vf");
    let topo = host(mac(1));
    let mut s = ready_syncer(&dir);
    s.warn_about_unknowable_vfs(&topo, "nic1", &[]);
    s.warn_about_unknowable_vfs(&topo, "nic1", &[]);
    assert_eq!(
        s.take_journal(),
        vec![
            "warning: nic1: 1 of nic1's 1 virtual function(s) have no address set from this \
             host and no interface here, so their addresses cannot be excluded - a guest \
             holding one would have its own traffic sent past it if this bridge ever learns \
             that address. Set them with `ip link set nic1 vf N mac ...`, or list them in \
             EXCLUDE."
                .to_string()
        ]
    );
}

#[test]
fn a_pair_left_alone_is_said_with_its_reason() {
    let dir = scratch("journal-alone");
    let topo = small_host();
    let alone = |dev: &str, bridge: &str| {
        let pair = Pair { dev: dev.into(), bridge: bridge.into() };
        let mut s = S::new(vec![pair], dir.clone());
        s.reconcile(&mut kernel(Vec::new()), true, &topo, 0).unwrap();
        s.take_journal()
    };
    assert!(alone("gone", "br0").is_empty(), "its filter went with it");
    assert_eq!(
        alone("nic1", "br9"),
        vec!["warning: nic1: bridge br9 not found, leaving the filter alone".to_string()]
    );
    assert_eq!(
        alone("nic1", "vetha"),
        vec![
            "warning: nic1: not under bridge vetha in this reading, leaving the filter alone"
                .to_string()
        ]
    );
}

#[test]
fn what_the_card_refuses_is_said_with_the_error() {
    let dir = scratch("journal-refused");
    let topo = small_host();
    let mut s = br0_syncer(&dir);
    let mut sock = kernel(vec![learned(4, 10, FIRST), learned(4, 10, SECOND)]);
    sock.fail_add.insert(FIRST, ENOBUFS);
    s.reconcile(&mut sock, true, &topo, 0).unwrap();
    assert_eq!(
        s.take_journal(),
        vec!["warning: nic1: cannot register 02:00:00:00:00:01: No buffer space available (os error 105)".to_string()]
    );
    assert_eq!(
        s.timings.failures,
        vec!["nic1: register 02:00:00:00:00:01: No buffer space available (os error 105)".to_string()]
    );

    let mut batch = kernel(Vec::new());
    s.fast_apply(&mut batch, &topo, &[(RTM_NEWNEIGH, learned(2, 10, SECOND))]).unwrap();
    assert_eq!(
        s.take_journal(),
        vec![
            "nic1: 02:00:00:00:00:02 moved out onto the wire, unregistered [reflection]"
                .to_string()
        ]
    );
}

#[test]
fn a_flush_says_what_it_did_and_a_dry_one_what_it_would() {
    let dir = scratch("journal-flush");
    let mut s = S::new(Vec::new(), dir.clone());
    s.save_owned("nic1", &[FIRST, SECOND].into_iter().collect());
    let host = || FakeSock {
        links: vec![(2, "nic1".to_string())],
        ..Default::default()
    };
    s.dry_run = true;
    assert_eq!(s.flush(&mut host()), Ok(true));
    assert_eq!(s.take_journal(), vec!["nic1: would remove 2 address(es)".to_string()]);

    s.dry_run = false;
    let mut sock = host();
    sock.fail_del.insert(FIRST, EBUSY);
    assert_eq!(s.flush(&mut sock), Ok(false));
    assert_eq!(
        s.take_journal(),
        vec![
            "warning: nic1: cannot unregister 02:00:00:00:00:01: Device or resource busy (os error 16)".to_string(),
            "nic1: removed 1 address(es), 1 could not be removed and stay on record".to_string(),
        ]
    );

    assert_eq!(s.flush(&mut host()), Ok(true));
    assert_eq!(s.take_journal(), vec!["nic1: removed 1 address(es)".to_string()]);
}

#[test]
fn an_orphan_is_said_before_and_after() {
    let dir = scratch("journal-orphan");
    let topo = small_host();
    let mut s = br0_syncer(&dir);
    s.save_owned("vetha", &[FIRST].into_iter().collect());
    let mut failures = Vec::new();
    s.drop_orphans(&mut kernel(Vec::new()), &topo, false, &mut failures);
    assert_eq!(
        s.take_journal(),
        vec!["vetha: no longer an uplink, 1 address(es) still registered".to_string()]
    );
    s.drop_orphans(&mut kernel(Vec::new()), &topo, true, &mut failures);
    assert_eq!(
        s.take_journal(),
        vec!["vetha: no longer an uplink, removed 1 address(es)".to_string()]
    );
}

#[test]
fn trouble_with_a_note_is_said_once_each_time_it_starts_or_ends() {
    let dir = scratch("journal-note");
    let mut s = S::new(Vec::new(), dir.clone());
    s.save_owned("nic1", &[FIRST].into_iter().collect());
    Fs::write(dir.join("nic1.owned"), "02:00:00:00:00:01\n02:00:00:00:00:02\n").unwrap();
    Fs::set_readable(&dir.join("nic1.owned"), false);
    s.load_owned("nic1");
    s.load_owned("nic1");
    assert_eq!(
        s.take_journal(),
        vec![
            "warning: cannot read /run/sriov-mac-sync/nic1.owned: Operation not permitted (os \
             error 1) - leaving that device alone until it can be read"
                .to_string()
        ]
    );
    Fs::set_readable(&dir.join("nic1.owned"), true);
    s.load_owned("nic1");
    assert_eq!(
        s.take_journal(),
        vec![
            "/run/sriov-mac-sync/nic1.owned: readable again, nic1 is back in the reckoning"
                .to_string()
        ]
    );
    s.desk.fail_put = Some(EIO);
    assert_eq!(s.append_owned_locked("nic1", &[BEHIND_NIC]), None);
    assert_eq!(
        s.take_journal(),
        vec![
            "warning: cannot add to the ownership note for nic1: Input/output error (os error 5)"
                .to_string()
        ]
    );
    dir.unlistable();
    s.noted_devices_or_none();
    s.noted_devices_or_none();
    assert_eq!(
        s.take_journal(),
        vec![
            "warning: cannot list /run/sriov-mac-sync: Not a directory (os error 20) - the notes \
             in it, if any, are out of reach until it can be listed"
                .to_string()
        ],
        "an unlistable directory is said once"
    );
}

#[test]
fn a_missing_uplink_is_said_with_how_long_it_is_waited_for() {
    let dir = scratch("journal-waiting");
    let mut s = br0_syncer(&dir);
    s.save_owned("vetha", &[FIRST].into_iter().collect());
    for (grace, span) in [
        (60_000_000_000, "60s"),
        (1_500_000_000, "1.5s"),
        (2_050_000, "2.05ms"),
        (7_001, "7.001µs"),
        (999, "999ns"),
    ] {
        s.absent_since = sriov_mac_sync::keyed::KeyMap::new();
        s.orphan_grace = grace;
        assert!(s.orphaned().is_empty());
        assert!(s.orphaned().is_empty() || grace < 1_000_000);
        assert_eq!(
            s.take_journal(),
            vec![format!(
                "vetha: no longer among the uplinks; waiting {span} before taking its \
                 addresses back out"
            )]
        );
    }
    s.absent_since = sriov_mac_sync::keyed::KeyMap::new();
    s.orphan_grace = 0;
    assert_eq!(s.orphaned(), vec!["vetha".to_string()]);
    assert!(s.take_journal().is_empty(), "nothing is waited for");
}

#[test]
fn a_memory_taken_over_is_said_by_the_process_that_manages_the_card() {
    let dir = scratch("journal-takeover");
    let topo = small_host();
    let mut s = br0_syncer(&dir);
    s.reconcile(&mut kernel(vec![learned(4, 10, FIRST)]), true, &topo, 0).unwrap();
    let told = "nic1: took over the last run's memory of 1 address(es)".to_string();

    let mut looks = br0_syncer(&dir);
    looks.reconcile(&mut kernel(vec![learned(4, 10, FIRST)]), false, &topo, 0).unwrap();
    assert!(!looks.take_journal().contains(&told));

    let mut next = br0_syncer(&dir);
    next.reconcile(&mut kernel(vec![learned(4, 10, FIRST)]), true, &topo, 0).unwrap();
    assert_eq!(next.take_journal(), vec![told]);
}

#[test]
fn a_mangled_line_is_said_by_its_number_and_length() {
    let dir = scratch("journal-mangled");
    Fs::write(dir.join("nic1.owned"), "02:00:00:00:00:01\n\nno address é\n").unwrap();
    let mut s = S::new(Vec::new(), dir.clone());
    assert_eq!(s.load_owned("nic1"), [FIRST].into_iter().collect());
    assert_eq!(
        s.take_journal(),
        vec![
            "warning: /run/sriov-mac-sync/nic1.owned: unreadable line 3 (13 bytes) in the \
             ownership note, the entry it named is now nobody's"
                .to_string()
        ]
    );
}

#[test]
fn names_of_any_length_are_told_apart() {
    let names = ["", "a", "aa", "enp65s0f0np0", "exactly_fifteen", "sixteen_chars_ab", "sixteen_chars_ac", "é", "日本"];
    let mut set: KeySet<String> = KeySet::new();
    for n in names {
        assert!(set.insert(n.to_string()), "{n:?} is new");
        assert!(!set.insert(n.to_string()), "{n:?} is there");
    }
    assert_eq!(set.len(), names.len());
    for n in names {
        assert!(set.remove(&n.to_string()));
        assert!(!set.contains(&n.to_string()));
    }
    assert!(set.is_empty());
}

#[test]
fn a_large_set_finds_everything_again() {
    let macs: Vec<Mac> = (0..20_000u32)
        .map(|i| [0x02, 0, 0, (i >> 16) as u8, (i >> 8) as u8, i as u8])
        .collect();
    let mut set: KeySet<Mac> = KeySet::of_list(&macs);
    assert_eq!(set.len(), macs.len());
    for m in macs.iter().step_by(2) {
        assert!(set.remove(m));
    }
    for (i, m) in macs.iter().enumerate() {
        assert_eq!(set.contains(m), i % 2 == 1);
    }
}

#[test]
fn an_address_that_a_fresh_answer_keeps_out_is_said_for_every_learn() {
    let dir = scratch("journal-kept-out");
    let topo = host(mac(1));
    let mut s = ready_syncer(&dir);
    s.remember_vf(vec![2], Vec::new());
    let mut sock = FakeSock { vf: vec![(2, VF_ADMIN)], ..Default::default() };
    let learn = (RTM_NEWNEIGH, learned(3, 10, VF_ADMIN));
    s.fast_apply(&mut sock, &topo, &[learn, learn]).unwrap();
    assert!(sock.added.is_empty());
    let line = "nic1: 02:11:22:33:44:01 is a virtual function's address by the driver's fresh \
                answer, kept out [vf refresh]"
        .to_string();
    assert_eq!(s.take_journal(), vec![line.clone(), line]);
}

/// What is ours and in the card was vetted when it went in: a fresh answer that
/// calls it a virtual function's does not keep it out of anything.
#[test]
fn an_address_in_the_card_is_not_said_to_be_kept_out() {
    let dir = scratch("journal-not-kept-out");
    let topo = host(mac(1));
    let mut s = ready_syncer(&dir);
    let mut sock = kernel(vec![learned(3, 10, FIRST)]);
    sock.vf = Vec::new();
    s.reconcile(&mut sock, true, &topo, 0).unwrap();
    assert!(s.load_owned("nic1").contains(&FIRST));
    s.remember_vf(vec![2], Vec::new());
    let _ = s.take_journal();

    // a second address grows the filter, so the driver is asked
    let mut batch = FakeSock { vf: vec![(2, FIRST), (2, SECOND)], ..Default::default() };
    let events = [FIRST, SECOND].map(|m| (RTM_NEWNEIGH, learned(3, 10, m)));
    s.fast_apply(&mut batch, &topo, &events).unwrap();
    assert_eq!(batch.vf_asked, 1);
    assert_eq!(
        s.take_journal(),
        vec![
            "nic1: 02:00:00:00:00:02 is a virtual function's address by the driver's fresh \
             answer, kept out [vf refresh]"
                .to_string()
        ]
    );
}

#[test]
fn a_lock_that_cannot_be_had_is_said_with_its_reason() {
    let lost = " unlocked, so a --once or --flush run by hand at the same moment can lose \
                entries from it";
    let dir = scratch("journal-lock");
    Fs::create_dir(dir.join(".nic1.owned.lock")).unwrap();
    let mut s = S::new(Vec::new(), dir.clone());
    s.desk.unlockable.insert("nic2".to_string());
    for dev in ["nic1", "nic2", "nic1", "nic2"] {
        s.save_owned(dev, &[FIRST].into_iter().collect());
    }
    assert_eq!(
        s.take_journal(),
        vec![
            format!(
                "warning: cannot lock /run/sriov-mac-sync/.nic1.owned.lock: Is a directory (os \
                 error 21) - writing the ownership note for nic1{lost}"
            ),
            format!(
                "warning: cannot take the lock on /run/sriov-mac-sync/.nic2.owned.lock: \
                 Input/output error (os error 5) - writing the ownership note for nic2{lost}"
            ),
        ]
    );
}

#[test]
fn a_refused_write_is_said_with_the_error() {
    let dir = scratch("journal-write");
    let topo = small_host();
    let mut s = br0_syncer(&dir);
    s.desk.fail_put = Some(EIO);
    s.save_owned("nic1", &[FIRST].into_iter().collect());
    s.note_index("nic1", 2);
    let dev = "nic1".to_string();
    let _ = s.syncer.memory.loaded.insert(dev.clone());
    let mut ports = sriov_mac_sync::keyed::KeyMap::new();
    ports.insert(FIRST, (4u32, 7u64));
    s.syncer.memory.carried.insert(dev.clone(), ports);
    let syncer = &mut s.syncer;
    with(&mut s.desk, |d| {
        syncer.memory.save_ports(&mut syncer.book, d, &dev, &topo, 0, false)
    });
    assert_eq!(
        s.take_journal(),
        vec![
            "warning: cannot write the ownership note for nic1: Input/output error (os error 5)"
                .to_string(),
            "warning: cannot record which interface nic1 is: Input/output error (os error 5) - a \
             rename of it would not be followed"
                .to_string(),
            "warning: cannot write the quiet-keep memory for nic1: Input/output error (os error \
             5) - addresses held while their port lives will be forgotten if this daemon restarts"
                .to_string(),
        ]
    );
}

#[test]
fn a_flush_says_how_it_came_out_after_the_note_was_written() {
    let dir = scratch("journal-flush-order");
    let mut s = S::new(Vec::new(), dir.clone());
    s.save_owned("nic1", &[FIRST, SECOND].into_iter().collect());
    let mut sock = FakeSock {
        links: vec![(2, "nic1".to_string())],
        fail_put: Some(EIO),
        ..Default::default()
    };
    sock.fail_del.insert(FIRST, EBUSY);
    assert_eq!(s.flush(&mut sock), Ok(false));
    assert_eq!(
        s.take_journal(),
        vec![
            "warning: nic1: cannot unregister 02:00:00:00:00:01: Device or resource busy (os \
             error 16)"
                .to_string(),
            "warning: cannot write the ownership note for nic1: Input/output error (os error 5)"
                .to_string(),
            "nic1: removed 1 address(es), 1 could not be removed and stay on record".to_string(),
        ]
    );
}

#[test]
fn a_mangled_line_is_said_before_a_note_is_readable_again() {
    let dir = scratch("journal-readable-order");
    Fs::write(dir.join("nic1.owned"), "nonsense\n").unwrap();
    Fs::set_readable(&dir.join("nic1.owned"), false);
    let mut s = S::new(Vec::new(), dir.clone());
    s.load_owned("nic1");
    let _ = s.take_journal();
    Fs::set_readable(&dir.join("nic1.owned"), true);
    s.load_owned("nic1");
    assert_eq!(
        s.take_journal(),
        vec![
            "warning: /run/sriov-mac-sync/nic1.owned: unreadable line 1 (8 bytes) in the \
             ownership note, the entry it named is now nobody's"
                .to_string(),
            "/run/sriov-mac-sync/nic1.owned: readable again, nic1 is back in the reckoning"
                .to_string(),
        ]
    );
}
