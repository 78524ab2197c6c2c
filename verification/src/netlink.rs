//! What the kernel says and is asked: links, forwarding entries, the card's
//! filter and the state files, as plain values.

use vstd::prelude::*;

use crate::mac::{is_unicast, unicast, Mac};

verus! {

/// The notification for a forwarding entry that is new or changed.
pub const RTM_NEWNEIGH: u16 = 28;

/// The notification for a forwarding entry that is gone.
pub const RTM_DELNEIGH: u16 = 29;

/// The state bit of an entry nobody learnt: it was put there and stays.
pub const NUD_PERMANENT: u16 = 0x80;

/// The flag bit of an entry in an interface's own filter.
pub const NTF_SELF: u8 = 0x02;

/// An operating system error number.
#[derive(Clone, Copy, PartialEq, Eq, Structural, Debug)]
pub struct Errno(pub i32);

/// There is no such entry.
pub const ENOENT: i32 = 2;

/// There is such an entry already.
pub const EEXIST: i32 = 17;

/// One forwarding entry, in a bridge's table or in an interface's own filter.
#[derive(Clone, Copy, Debug)]
pub struct FdbEntry {
    pub ifindex: u32,
    /// the bridge whose table holds it; none for an interface's own filter
    pub master: Option<u32>,
    pub mac: Mac,
    pub state: u16,
    pub flags: u8,
}

impl FdbEntry {
    /// Whether it stands in an interface's own filter.
    pub open spec fn own(self) -> bool {
        self.flags & NTF_SELF != 0
    }

    /// Whether a bridge learnt it from traffic.
    pub open spec fn learnt(self) -> bool {
        self.state & NUD_PERMANENT == 0 && !self.own()
    }

    /// Whether it stands in an interface's own filter.
    pub fn is_self(&self) -> (r: bool)
        ensures
            r == self.own(),
    {
        self.flags & NTF_SELF != 0
    }

    /// Whether a bridge learnt it from traffic.
    pub fn is_learned(&self) -> (r: bool)
        ensures
            r == self.learnt(),
    {
        self.state & NUD_PERMANENT == 0 && !self.is_self()
    }

    /// Whether its address names one station rather than a group.
    pub fn is_unicast(&self) -> (r: bool)
        ensures
            r == unicast(self.mac),
    {
        is_unicast(&self.mac)
    }
}

/// One interface as the link dump describes it.
pub struct LinkInfo {
    pub index: u32,
    pub name: String,
    pub mac: Option<Mac>,
    /// what it is enslaved to
    pub master: Option<u32>,
    /// what it is stacked on, or peered with, depending on its kind
    pub link: Option<u32>,
    /// what kind of software interface it is; none for one with a driver
    pub kind: Option<String>,
    /// the bus device behind it
    pub parent_dev: Option<String>,
    /// how long a bridge remembers a silent address, in hundredths of a second
    pub ageing: Option<u32>,
}

/// A time of day.
#[derive(Clone, Copy, PartialEq, Eq, Structural, Debug)]
pub struct Wall {
    pub secs: i64,
    pub nanos: i64,
}

impl Wall {
    /// Whether `self` is strictly earlier than `other`.
    pub open spec fn earlier(self, other: Wall) -> bool {
        self.secs < other.secs || (self.secs == other.secs && self.nanos < other.nanos)
    }

    /// Whether `self` is strictly earlier than `other`.
    pub fn is_before(&self, other: &Wall) -> (r: bool)
        ensures
            r == self.earlier(*other),
    {
        self.secs < other.secs || (self.secs == other.secs && self.nanos < other.nanos)
    }
}

/// What tells one state of a file from another.
#[derive(Clone, Copy, PartialEq, Eq, Structural, Debug)]
pub struct Meta {
    pub ino: u64,
    pub len: u64,
    /// when it was last written
    pub mtime: Wall,
}

/// One reading of the clocks.
#[derive(Clone, Copy, Debug)]
pub struct Moment {
    /// milliseconds since boot, suspends included
    pub boot_millis: u64,
    /// nanoseconds on a clock that only measures intervals
    pub nanos: u64,
    /// the time of day
    pub wall: Wall,
}

/// Why the host refused a request: its number, and the system's own words for
/// it.
pub struct Refusal {
    pub errno: Errno,
    pub words: String,
}

/// What a `Refusal` says.
pub struct Refused {
    pub errno: Errno,
    pub words: Seq<char>,
}

impl View for Refusal {
    type V = Refused;

    open spec fn view(&self) -> Refused {
        Refused { errno: self.errno, words: self.words@ }
    }
}

/// Why a lock could not be had: its file could not be opened, or could but not be
/// locked.
pub struct LockRefusal {
    pub opened: bool,
    pub why: Refusal,
}

/// What a `LockRefusal` says.
pub struct LockRefused {
    pub opened: bool,
    pub why: Refused,
}

impl View for LockRefusal {
    type V = LockRefused;

    open spec fn view(&self) -> LockRefused {
        LockRefused { opened: self.opened, why: self.why@ }
    }
}

/// What became of reading a file.
pub enum Reading {
    /// there is no such file
    Missing,
    /// it could not be read, in the system's words
    Unreadable(String),
    /// what it says
    Text(String),
}

/// What a `Reading` says.
pub enum Found {
    Missing,
    Unreadable(Seq<char>),
    Text(Seq<char>),
}

impl View for Reading {
    type V = Found;

    open spec fn view(&self) -> Found {
        match *self {
            Reading::Missing => Found::Missing,
            Reading::Unreadable(w) => Found::Unreadable(w@),
            Reading::Text(t) => Found::Text(t@),
        }
    }
}

/// One entry of the state directory.
pub struct DirEntry {
    pub name: String,
    /// an ordinary file, not a symlink or anything else
    pub regular: bool,
}

/// Why a request was refused; nothing when it was done.
pub open spec fn refusal(r: Result<(), Errno>) -> Option<Errno> {
    match r {
        Ok(_) => None,
        Err(e) => Some(e),
    }
}

/// The same where the host says why.
pub open spec fn refused_by(r: Result<(), Refusal>) -> Option<Refused> {
    match r {
        Ok(_) => None,
        Err(e) => Some(e@),
    }
}

/// The same for a lock.
pub open spec fn lock_refused_by(r: Result<(), LockRefusal>) -> Option<LockRefused> {
    match r {
        Ok(_) => None,
        Err(e) => Some(e@),
    }
}

/// One request to the kernel, together with its answer.
pub enum Op {
    /// the whole forwarding table
    DumpFdb { table: Result<Seq<FdbEntry>, Errno> },
    /// every interface
    DumpLinks { links: Result<Seq<LinkInfo>, Errno> },
    /// the addresses of the virtual functions behind these interfaces
    VfMacs { functions: Seq<u32>, answer: Result<Seq<(u32, Mac)>, Errno> },
    /// an entry into an interface's own filter, or out of it
    Card { ifindex: u32, mac: Mac, add: bool, refused: Option<Refused> },
    /// what a state file looks like; nothing when it is not there
    Stat { name: Seq<char>, meta: Option<Meta> },
    /// what a state file says
    Read { name: Seq<char>, found: Found },
    /// a state file replaced as a whole
    Put { name: Seq<char>, text: Seq<char>, refused: Option<Refused> },
    /// a state file continued behind its last finished line
    Append { name: Seq<char>, text: Seq<char>, refused: Option<Refused> },
    /// a state file removed
    Remove { name: Seq<char>, refused: Option<Errno> },
    /// the entries of the state directory
    List { entries: Result<Seq<DirEntry>, Refused> },
    /// a device's note held against everybody else
    Lock { dev: Seq<char>, refused: Option<LockRefused> },
    /// and let go again
    Unlock { dev: Seq<char> },
    /// what the clocks say
    Clock { reading: Moment },
}

/// What the syncer needs from the host, as a trait so that the bookkeeping can
/// run against a fake: the real one is a netlink socket and a directory. Nothing
/// is promised of any answer.
pub trait FdbWriter {
    /// The whole forwarding table.
    fn dump_fdb(&mut self) -> Result<Vec<FdbEntry>, Errno>;

    /// Every interface.
    fn dump_links(&mut self) -> Result<Vec<LinkInfo>, Errno>;

    /// The addresses of the virtual functions behind these interfaces, each
    /// with the interface it was read from.
    fn vf_macs_of(&mut self, indices: &Vec<u32>) -> Result<Vec<(u32, Mac)>, Errno>;

    /// Puts an address into an interface's own filter, or takes it out.
    fn set_self_fdb(&mut self, ifindex: u32, mac: &Mac, add: bool) -> Result<(), Refusal>;

    /// What a state file looks like; nothing when it is not there.
    fn stat_file(&mut self, name: &String) -> Option<Meta>;

    /// What a state file says.
    fn read_file(&mut self, name: &String) -> Reading;

    /// Replaces a state file as a whole, or makes it.
    fn put_file(&mut self, name: &String, text: &String) -> Result<(), Refusal>;

    /// Cuts away what the state file holds behind its last newline, a line that
    /// a write did not finish, and writes `text` behind that; or makes the file.
    fn append_file(&mut self, name: &String, text: &String) -> Result<(), Refusal>;

    /// Removes a state file.
    fn remove_file(&mut self, name: &String) -> Result<(), Errno>;

    /// The entries of the state directory.
    fn list_dir(&mut self) -> Result<Vec<DirEntry>, Refusal>;

    /// Holds a device's note against everybody else.
    fn lock(&mut self, dev: &String) -> Result<(), LockRefusal>;

    /// Lets go of a device's note again.
    fn unlock(&mut self, dev: &String);

    /// What the clocks say.
    fn now(&mut self) -> Moment;
}

/// A host together with a record of everything it was asked, in order, so that
/// what the syncer asks for can be stated. The record exists in proofs only.
pub struct Recorded<W: FdbWriter> {
    inner: W,
    log: Ghost<Seq<Op>>,
    marks: Ghost<Seq<Moment>>,
}

impl<W: FdbWriter> Recorded<W> {
    /// Every request made so far, with its answer.
    pub closed spec fn log(&self) -> Seq<Op> {
        self.log@
    }

    /// Every reading of the clocks that was taken to measure by.
    pub closed spec fn marks(&self) -> Seq<Moment> {
        self.marks@
    }

    /// The host itself.
    pub closed spec fn host(&self) -> W {
        self.inner
    }

    /// A host that has not been asked anything yet.
    pub fn new(inner: W) -> (r: Self)
        ensures
            r.host() == inner,
            r.log() == Seq::<Op>::empty(),
            r.marks() == Seq::<Moment>::empty(),
    {
        Recorded { inner, log: Ghost(Seq::empty()), marks: Ghost(Seq::empty()) }
    }

    /// The host itself.
    pub fn into_inner(self) -> (r: W)
        ensures
            r == self.host(),
    {
        self.inner
    }

    /// The whole forwarding table.
    pub fn dump_fdb(&mut self) -> (r: Result<Vec<FdbEntry>, Errno>)
        ensures
            final(self).marks() == old(self).marks(),
            final(self).log() == old(self).log().push(
                Op::DumpFdb {
                    table: match r {
                        Ok(v) => Ok(v@),
                        Err(e) => Err(e),
                    },
                },
            ),
    {
        let r = self.inner.dump_fdb();
        proof {
            let table: Result<Seq<FdbEntry>, Errno> = match r {
                Ok(ref v) => Ok(v@),
                Err(e) => Err(e),
            };
            self.log@ = self.log@.push(Op::DumpFdb { table });
        }
        r
    }

    /// Every interface.
    pub fn dump_links(&mut self) -> (r: Result<Vec<LinkInfo>, Errno>)
        ensures
            final(self).marks() == old(self).marks(),
            final(self).log() == old(self).log().push(
                Op::DumpLinks {
                    links: match r {
                        Ok(v) => Ok(v@),
                        Err(e) => Err(e),
                    },
                },
            ),
    {
        let r = self.inner.dump_links();
        proof {
            let links: Result<Seq<LinkInfo>, Errno> = match r {
                Ok(ref v) => Ok(v@),
                Err(e) => Err(e),
            };
            self.log@ = self.log@.push(Op::DumpLinks { links });
        }
        r
    }

    /// The addresses of the virtual functions behind these interfaces, each
    /// with the interface it was read from.
    pub fn vf_macs_of(&mut self, indices: &Vec<u32>) -> (r: Result<Vec<(u32, Mac)>, Errno>)
        ensures
            final(self).marks() == old(self).marks(),
            final(self).log() == old(self).log().push(
                Op::VfMacs {
                    functions: indices@,
                    answer: match r {
                        Ok(v) => Ok(v@),
                        Err(e) => Err(e),
                    },
                },
            ),
    {
        let r = self.inner.vf_macs_of(indices);
        proof {
            let answer: Result<Seq<(u32, Mac)>, Errno> = match r {
                Ok(ref v) => Ok(v@),
                Err(e) => Err(e),
            };
            self.log@ = self.log@.push(Op::VfMacs { functions: indices@, answer });
        }
        r
    }

    /// Puts an address into an interface's own filter, or takes it out.
    pub fn set_self_fdb(&mut self, ifindex: u32, mac: &Mac, add: bool) -> (r: Result<(), Refusal>)
        ensures
            final(self).marks() == old(self).marks(),
            final(self).log() == old(self).log().push(
                Op::Card { ifindex, mac: *mac, add, refused: refused_by(r) },
            ),
    {
        let r = self.inner.set_self_fdb(ifindex, mac, add);
        proof {
            self.log@ = self.log@.push(
                Op::Card { ifindex, mac: *mac, add, refused: refused_by(r) },
            );
        }
        r
    }

    /// What a state file looks like; nothing when it is not there.
    pub fn stat_file(&mut self, name: &String) -> (r: Option<Meta>)
        ensures
            final(self).marks() == old(self).marks(),
            final(self).log() == old(self).log().push(Op::Stat { name: name@, meta: r }),
    {
        let r = self.inner.stat_file(name);
        proof {
            self.log@ = self.log@.push(Op::Stat { name: name@, meta: r });
        }
        r
    }

    /// What a state file says.
    pub fn read_file(&mut self, name: &String) -> (r: Reading)
        ensures
            final(self).marks() == old(self).marks(),
            final(self).log() == old(self).log().push(Op::Read { name: name@, found: r@ }),
    {
        let r = self.inner.read_file(name);
        proof {
            self.log@ = self.log@.push(Op::Read { name: name@, found: r@ });
        }
        r
    }

    /// Replaces a state file as a whole, or makes it.
    pub fn put_file(&mut self, name: &String, text: &String) -> (r: Result<(), Refusal>)
        ensures
            final(self).marks() == old(self).marks(),
            final(self).log() == old(self).log().push(
                Op::Put { name: name@, text: text@, refused: refused_by(r) },
            ),
    {
        let r = self.inner.put_file(name, text);
        proof {
            self.log@ = self.log@.push(Op::Put { name: name@, text: text@, refused: refused_by(r) });
        }
        r
    }

    /// Continues a state file behind its last finished line, or makes it.
    pub fn append_file(
        &mut self,
        name: &String,
        text: &String,
    ) -> (r: Result<(), Refusal>)
        ensures
            final(self).marks() == old(self).marks(),
            final(self).log() == old(self).log().push(
                Op::Append { name: name@, text: text@, refused: refused_by(r) },
            ),
    {
        let r = self.inner.append_file(name, text);
        proof {
            self.log@ = self.log@.push(
                Op::Append { name: name@, text: text@, refused: refused_by(r) },
            );
        }
        r
    }

    /// Removes a state file.
    pub fn remove_file(&mut self, name: &String) -> (r: Result<(), Errno>)
        ensures
            final(self).marks() == old(self).marks(),
            final(self).log() == old(self).log().push(
                Op::Remove { name: name@, refused: refusal(r) },
            ),
    {
        let r = self.inner.remove_file(name);
        proof {
            self.log@ = self.log@.push(Op::Remove { name: name@, refused: refusal(r) });
        }
        r
    }

    /// The entries of the state directory.
    pub fn list_dir(&mut self) -> (r: Result<Vec<DirEntry>, Refusal>)
        ensures
            final(self).marks() == old(self).marks(),
            final(self).log() == old(self).log().push(
                Op::List {
                    entries: match r {
                        Ok(v) => Ok(v@),
                        Err(e) => Err(e@),
                    },
                },
            ),
    {
        let r = self.inner.list_dir();
        proof {
            let entries: Result<Seq<DirEntry>, Refused> = match r {
                Ok(ref v) => Ok(v@),
                Err(ref e) => Err(e@),
            };
            self.log@ = self.log@.push(Op::List { entries });
        }
        r
    }

    /// Holds a device's note against everybody else.
    pub fn lock(&mut self, dev: &String) -> (r: Result<(), LockRefusal>)
        ensures
            final(self).marks() == old(self).marks(),
            final(self).log() == old(self).log().push(Op::Lock { dev: dev@, refused: lock_refused_by(r) }),
    {
        let r = self.inner.lock(dev);
        proof {
            self.log@ = self.log@.push(Op::Lock { dev: dev@, refused: lock_refused_by(r) });
        }
        r
    }

    /// Lets go of a device's note again.
    pub fn unlock(&mut self, dev: &String)
        ensures
            final(self).marks() == old(self).marks(),
            final(self).log() == old(self).log().push(Op::Unlock { dev: dev@ }),
    {
        self.inner.unlock(dev);
        proof {
            self.log@ = self.log@.push(Op::Unlock { dev: dev@ });
        }
    }

    /// What the clocks say.
    pub fn now(&mut self) -> (r: Moment)
        ensures
            final(self).marks() == old(self).marks(),
            final(self).log() == old(self).log().push(Op::Clock { reading: r }),
    {
        let r = self.inner.now();
        proof {
            self.log@ = self.log@.push(Op::Clock { reading: r });
        }
        r
    }

    /// What the clocks say, for measuring how long something takes: nothing
    /// that is decided goes by it, and it is recorded apart from the requests.
    pub fn mark(&mut self) -> (r: Moment)
        ensures
            final(self).log() == old(self).log(),
            final(self).marks() == old(self).marks().push(r),
    {
        let r = self.inner.now();
        proof {
            self.marks@ = self.marks@.push(r);
        }
        r
    }
}

} // verus!
