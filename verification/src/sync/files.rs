//! The state files as they were last read or written.

use vstd::prelude::*;
use vstd::utf8::encode_utf8;

use crate::keyed::KeyMap;
use crate::netlink::{Errno, FdbWriter, Found, Meta, Op, Reading, Recorded, Refusal, Wall, ENOENT};
use crate::sync::record::{finished, finished_len};
use crate::text::{chars_of, push_text, slice_of, string_of};
use crate::topology::opt_text;

verus! {

/// One state file as it was last read or written.
pub struct FileNode {
    /// what it says; nothing when it could not be read
    pub text: Option<String>,
    pub meta: Meta,
    /// When this was read; nothing for a copy that is not to be believed. A
    /// file written in the same clock tick as the read cannot be told from one
    /// written before it, so a copy whose file is not strictly older than the
    /// moment it was read is never believed either.
    pub read_at: Option<Wall>,
}

impl FileNode {
    /// Whether a file that looks like `meta` is still the one this was read
    /// from, untouched since.
    pub open spec fn still(self, meta: Meta) -> bool {
        self.meta == meta && (self.read_at matches Some(at) && meta.mtime.earlier(at))
    }

    /// Whether a file that looks like `meta` is still the one this was read
    /// from, untouched since: the same inode, the same size, the same
    /// timestamp, and that timestamp strictly older than the reading.
    pub fn is_still(&self, meta: &Meta) -> (r: bool)
        ensures
            r == self.still(*meta),
    {
        match &self.read_at {
            Some(at) => self.meta == *meta && meta.mtime.is_before(at),
            None => false,
        }
    }
}

/// What the state files say as far as anybody here knows, by name: `None` is a
/// file that could not be read, no entry one that is not there.
pub type Files = Map<Seq<char>, Option<Seq<char>>>;

/// The state files as they were last read or written.
pub struct StateDir {
    files: KeyMap<String, FileNode>,
}

impl View for StateDir {
    type V = Files;

    closed spec fn view(&self) -> Files {
        self.files@.map_values(|n: FileNode| opt_text(n.text))
    }
}

/// What the file of each copy that may be believed looked like when the copy was
/// made, and when that was.
pub type Copies = Map<Seq<char>, (Meta, Wall)>;

/// Whether the copy of a file can stand for a file that looks like this now: it
/// is the same one, untouched since, and strictly older than the copy.
pub open spec fn current(copies: Copies, name: Seq<char>, looks: Option<Meta>) -> bool {
    looks matches Some(m) && copies.contains_key(name) && copies[name].0 == m && m.mtime.earlier(
        copies[name].1,
    )
}

/// The copies once one has been made at this time, of a file that looked like
/// this; no copy is believed of one that was not there or did not hold still.
pub open spec fn copied(
    copies: Copies,
    name: Seq<char>,
    looks: Option<Meta>,
    at: Wall,
) -> Copies {
    match looks {
        Some(m) => copies.insert(name, (m, at)),
        None => copies.remove(name),
    }
}

/// The time of day that a reading of the clocks gave.
pub open spec fn time_of(op: Op) -> Wall {
    match op {
        Op::Clock { reading } => reading.wall,
        _ => Wall { secs: 0, nanos: 0 },
    }
}

/// What a look at a file showed.
pub open spec fn shown(op: Op) -> Option<Meta> {
    match op {
        Op::Stat { meta, .. } => meta,
        _ => None,
    }
}

/// Whether a file that was read with a look before and after held still.
pub open spec fn held_still(ops: Seq<Op>) -> bool {
    ops[1] matches Op::Stat { meta: a, .. } && (ops[3] matches Op::Stat { meta: b, .. } && a is Some
        && a == b)
}

/// What becomes of the copies when one is brought up to date: one that is
/// current is believed, any other is made anew, to be believed where the file
/// held still.
pub open spec fn look_copied(
    copies: Copies,
    name: Seq<char>,
    ops: Seq<Op>,
    copies2: Copies,
) -> bool {
    if current(copies, name, shown(ops[0])) {
        ops.len() == 1 && copies2 == copies
    } else {
        &&& ops.len() == 5
        &&& copies2 == copied(
            copies,
            name,
            if held_still(ops) && (ops[2] matches Op::Read { found, .. } && found is Text) {
                shown(ops[3])
            } else {
                None
            },
            time_of(ops[4]),
        )
    }
}

/// What becomes of the copies when a file is read afresh, or removed: what a
/// copy is believed by stays as long as the file can be read.
pub open spec fn kept_copies(copies: Copies, op: Op) -> Copies {
    match op {
        Op::Read { name, found } => if found is Text {
            copies
        } else {
            copies.remove(name)
        },
        Op::Remove { name, .. } => copies.remove(name),
        _ => copies,
    }
}

/// What becomes of the copies when a file is replaced: the copy is what was
/// written.
pub open spec fn put_copied(
    copies: Copies,
    name: Seq<char>,
    ops: Seq<Op>,
    r: bool,
    copies2: Copies,
) -> bool {
    copies2 == copied(
        copies,
        name,
        if r {
            shown(ops[1])
        } else {
            None
        },
        time_of(ops[2]),
    )
}

/// What becomes of the copies when a file is continued: the copy is what it says
/// now, unless its size shows that somebody else wrote it in between.
pub open spec fn append_copied(
    copies: Copies,
    name: Seq<char>,
    text: Seq<char>,
    ops: Seq<Op>,
    r: bool,
    copies2: Copies,
) -> bool {
    let looks = if r {
        shown(ops[1])
    } else {
        None
    };
    copies2 == copied(
        copies,
        name,
        match looks {
            Some(m) => if copies.contains_key(name) && m.len != copies[name].0.len + encode_utf8(
                text,
            ).len() {
                None
            } else {
                Some(m)
            },
            None => None,
        },
        time_of(ops[2]),
    )
}

/// What a file says; nothing when it is not there or cannot be read.
pub open spec fn file_text(dir: Files, name: Seq<char>) -> Seq<char> {
    if dir.contains_key(name) {
        match dir[name] {
            Some(t) => t,
            None => Seq::empty(),
        }
    } else {
        Seq::empty()
    }
}

/// What is known of the files once a request has been answered.
pub open spec fn replayed(dir: Files, op: Op) -> Files {
    match op {
        Op::Read { name, found: Found::Missing } => dir.remove(name),
        Op::Read { name, found: Found::Unreadable(_) } => dir.insert(name, None),
        Op::Read { name, found: Found::Text(t) } => dir.insert(name, Some(t)),
        Op::Put { name, text, refused: None } => dir.insert(name, Some(text)),
        Op::Append { name, text, refused: None } => dir.insert(
            name,
            Some(finished(file_text(dir, name)) + text),
        ),
        Op::Remove { name, refused: None } => dir.remove(name),
        Op::Remove { name, refused: Some(e) } => if e == Errno(ENOENT) {
            dir.remove(name)
        } else {
            dir
        },
        _ => dir,
    }
}

/// What is known of the files once a row of requests has been answered.
pub open spec fn replay(dir: Files, ops: Seq<Op>) -> Files
    decreases ops.len(),
{
    if ops.len() == 0 {
        dir
    } else {
        replayed(replay(dir, ops.drop_last()), ops.last())
    }
}

/// What is asked between two states of the log.
pub open spec fn since(before: Seq<Op>, after: Seq<Op>) -> Seq<Op> {
    after.skip(before.len() as int)
}

/// Whether the log only grew.
pub open spec fn grew(before: Seq<Op>, after: Seq<Op>) -> bool {
    before.len() <= after.len() && after.take(before.len() as int) == before
}

/// A log grows by what it is extended with.
pub proof fn lemma_grew_push(before: Seq<Op>, mid: Seq<Op>, op: Op)
    requires
        grew(before, mid),
    ensures
        grew(before, mid.push(op)),
        since(before, mid.push(op)) == since(before, mid).push(op),
{
    assert(mid.push(op).take(before.len() as int) =~= mid.take(before.len() as int));
    assert(since(before, mid.push(op)) =~= since(before, mid).push(op));
}

/// A log that did not move has grown by nothing.
pub proof fn lemma_grew_same(log: Seq<Op>)
    ensures
        grew(log, log),
        since(log, log) == Seq::<Op>::empty(),
{
    assert(log.take(log.len() as int) =~= log);
    assert(since(log, log) =~= Seq::<Op>::empty());
}

/// Two stretches of a log make one.
pub proof fn lemma_grew_trans(a: Seq<Op>, b: Seq<Op>, c: Seq<Op>)
    requires
        grew(a, b),
        grew(b, c),
    ensures
        grew(a, c),
        since(a, c) == since(a, b) + since(b, c),
{
    assert(c.take(a.len() as int) =~= c.take(b.len() as int).take(a.len() as int));
    assert forall|i: int| 0 <= i < since(a, c).len() implies since(a, c)[i] == (since(a, b)
        + since(b, c))[i] by {
        let j = i + a.len();
        if j < b.len() {
            assert(c.take(b.len() as int)[j] == b[j]);
        }
    }
    assert(since(a, c) =~= since(a, b) + since(b, c));
}

/// Replaying one stretch and then another is replaying both.
pub proof fn lemma_replay_add(dir: Files, a: Seq<Op>, b: Seq<Op>)
    ensures
        replay(dir, a + b) == replay(replay(dir, a), b),
    decreases b.len(),
{
    if b.len() == 0 {
        assert(a + b =~= a);
    } else {
        lemma_replay_add(dir, a, b.drop_last());
        assert((a + b).drop_last() =~= a + b.drop_last());
        assert((a + b).last() == b.last());
    }
}

/// Replaying one more request.
pub proof fn lemma_replay_push(dir: Files, ops: Seq<Op>, op: Op)
    ensures
        replay(dir, ops.push(op)) == replayed(replay(dir, ops), op),
{
    assert(ops.push(op).drop_last() =~= ops);
}

/// The file that a request is about.
pub open spec fn op_name(op: Op) -> Option<Seq<char>> {
    match op {
        Op::Stat { name, .. } => Some(name),
        Op::Read { name, .. } => Some(name),
        Op::Put { name, .. } => Some(name),
        Op::Append { name, .. } => Some(name),
        Op::Remove { name, .. } => Some(name),
        _ => None,
    }
}

/// Whether none of these requests is about this file.
pub open spec fn leaves_alone(ops: Seq<Op>, name: Seq<char>) -> bool {
    forall|i: int| 0 <= i < ops.len() ==> op_name(#[trigger] ops[i]) != Some(name)
}

/// Whether two states of the files agree about one of them.
pub open spec fn same_file(a: Files, b: Files, name: Seq<char>) -> bool {
    a.contains_key(name) == b.contains_key(name) && (a.contains_key(name) ==> a[name] == b[name])
}

/// A file that no request is about stays as it is.
pub proof fn lemma_left_alone(dir: Files, ops: Seq<Op>, name: Seq<char>)
    requires
        leaves_alone(ops, name),
    ensures
        same_file(replay(dir, ops), dir, name),
    decreases ops.len(),
{
    if ops.len() > 0 {
        assert(leaves_alone(ops.drop_last(), name)) by {
            assert forall|i: int| 0 <= i < ops.drop_last().len() implies op_name(
                #[trigger] ops.drop_last()[i],
            ) != Some(name) by {
                assert(ops.drop_last()[i] == ops[i]);
            }
        }
        lemma_left_alone(dir, ops.drop_last(), name);
        assert(op_name(ops[ops.len() - 1]) != Some(name));
    }
}

impl StateDir {
    /// Nothing read yet.
    pub fn new() -> (r: Self)
        ensures
            r@ == Map::<Seq<char>, Option<Seq<char>>>::empty(),
            r.copies() == Map::<Seq<char>, (Meta, Wall)>::empty(),
    {
        let r = StateDir { files: KeyMap::new() };
        assert(r@ =~= Map::empty());
        assert(r.copies() =~= Map::empty());
        r
    }

    /// What the copies are believed by.
    pub closed spec fn copies(&self) -> Copies {
        Map::new(
            |n: Seq<char>|
                self.files@.contains_key(n) && self.files@[n].text is Some
                    && self.files@[n].read_at is Some,
            |n: Seq<char>| (self.files@[n].meta, self.files@[n].read_at->0),
        )
    }

    /// What the copy of a file says; nothing when there is none or the file
    /// could not be read.
    pub fn text(&self, name: &String) -> (r: Option<&String>)
        ensures
            match r {
                Some(t) => self@.contains_key(name@) && self@[name@] == Some(t@),
                None => !self@.contains_key(name@) || self@[name@] is None,
            },
    {
        match self.files.get(name) {
            Some(n) => match &n.text {
                Some(t) => Some(t),
                None => None,
            },
            None => None,
        }
    }

    /// Brings the copy of a file up to date. A copy that can be believed costs
    /// one look at the file; otherwise it is read, and looked at before and
    /// after, so that a file that moved under the reading is read again next
    /// time. Returns whether the copy was believed, and if not, whether the
    /// file held still, and why it could not be read.
    pub fn look<W: FdbWriter>(&mut self, sock: &mut Recorded<W>, name: &String) -> (r: (
        bool,
        bool,
        Option<String>,
    ))
        ensures
            final(sock).marks() == old(sock).marks(),
            looked_at(
                old(self)@,
                old(sock).log(),
                name@,
                final(self)@,
                final(sock).log(),
                (r.0, r.1),
            ),
            r.0 ==> r.2 is None,
            !r.0 ==> told_unreadable(since(old(sock).log(), final(sock).log())[2], r.2),
            look_copied(
                old(self).copies(),
                name@,
                since(old(sock).log(), final(sock).log()),
                final(self).copies(),
            ),
    {
        let ghost log = sock.log();
        let first = sock.stat_file(name);
        let ghost l1 = sock.log();
        proof {
            lemma_grew_same(log);
            lemma_grew_push(log, log, l1.last());
            assert(since(log, l1) =~= seq![l1.last()]);
        }
        let usable = match first {
            Some(m) => match self.files.get(name) {
                Some(n) => n.text.is_some() && n.is_still(&m),
                None => false,
            },
            None => false,
        };
        if usable {
            return (true, true, None);
        }
        let before = sock.stat_file(name);
        let ghost l2 = sock.log();
        let reading = sock.read_file(name);
        let ghost l3 = sock.log();
        let after = sock.stat_file(name);
        let ghost l4 = sock.log();
        let now = sock.now();
        let ghost l5 = sock.log();
        proof {
            lemma_grew_push(log, l1, l2.last());
            lemma_grew_push(log, l2, l3.last());
            lemma_grew_push(log, l3, l4.last());
            lemma_grew_push(log, l4, l5.last());
            assert(since(log, l5) =~= seq![
                l1.last(),
                l2.last(),
                l3.last(),
                l4.last(),
                l5.last(),
            ]);
        }
        let mut steady = false;
        let mut meta = Meta { ino: 0, len: 0, mtime: now.wall };
        if let (Some(a), Some(b)) = (before, after) {
            steady = a == b;
            meta = b;
        }
        let ghost was = self.copies();
        let mut trouble: Option<String> = None;
        match reading {
            Reading::Missing => {
                let _ = self.files.remove(name);
                assert(self@ =~= old(self)@.remove(name@));
                assert(self.copies() =~= was.remove(name@));
            },
            Reading::Unreadable(w) => {
                trouble = Some(w);
                self.files.insert(name.clone(), FileNode { text: None, meta, read_at: None });
                assert(self@ =~= old(self)@.insert(name@, None));
                assert(self.copies() =~= was.remove(name@));
            },
            Reading::Text(t) => {
                let read_at = if steady {
                    Some(now.wall)
                } else {
                    None
                };
                let ghost said = t@;
                self.files.insert(name.clone(), FileNode { text: Some(t), meta, read_at });
                assert(self@ =~= old(self)@.insert(name@, Some(said)));
                if steady {
                    assert(self.copies() =~= was.insert(name@, (meta, now.wall)));
                } else {
                    assert(self.copies() =~= was.remove(name@));
                }
            },
        }
        (false, steady, trouble)
    }

    /// Reads a file afresh, whatever the copy says. Why it could not be read.
    pub fn fetch<W: FdbWriter>(
        &mut self,
        sock: &mut Recorded<W>,
        name: &String,
    ) -> (r: Option<String>)
        ensures
            told_unreadable(final(sock).log().last(), r),
            final(sock).marks() == old(sock).marks(),
            final(sock).log() == old(sock).log().push(final(sock).log().last()),
            final(sock).log().last() matches Op::Read { name: n, .. } && n == name@,
            final(self)@ == replayed(old(self)@, final(sock).log().last()),
            final(self).copies() == kept_copies(old(self).copies(), final(sock).log().last()),
    {
        let ghost was = self.copies();
        let mut meta = Meta { ino: 0, len: 0, mtime: Wall { secs: 0, nanos: 0 } };
        let mut read_at: Option<Wall> = None;
        if let Some(n) = self.files.get(name) {
            if n.text.is_some() {
                meta = n.meta;
                read_at = n.read_at;
            }
        }
        let mut trouble: Option<String> = None;
        match sock.read_file(name) {
            Reading::Missing => {
                let _ = self.files.remove(name);
                assert(self@ =~= old(self)@.remove(name@));
                assert(self.copies() =~= was.remove(name@));
            },
            Reading::Unreadable(w) => {
                trouble = Some(w);
                self.files.insert(name.clone(), FileNode { text: None, meta, read_at: None });
                assert(self@ =~= old(self)@.insert(name@, None));
                assert(self.copies() =~= was.remove(name@));
            },
            Reading::Text(t) => {
                let ghost said = t@;
                self.files.insert(name.clone(), FileNode { text: Some(t), meta, read_at });
                assert(self@ =~= old(self)@.insert(name@, Some(said)));
                assert(self.copies() =~= was);
            },
        }
        trouble
    }

    /// Keeps what was just written as the copy of a file, with what the file
    /// looks like now. Where its size is not the expected one somebody else
    /// wrote it in between, and the copy is not believed.
    fn remember<W: FdbWriter>(
        &mut self,
        sock: &mut Recorded<W>,
        name: &String,
        text: String,
        expected: Option<u128>,
    )
        ensures
            final(sock).marks() == old(sock).marks(),
            grew(old(sock).log(), final(sock).log()),
            since(old(sock).log(), final(sock).log()).len() == 2,
            since(old(sock).log(), final(sock).log())[0] matches Op::Stat { name: n, .. } && n
                == name@,
            since(old(sock).log(), final(sock).log())[1] is Clock,
            final(self)@ == old(self)@.insert(name@, Some(text@)),
            final(self).copies() == copied(
                old(self).copies(),
                name@,
                match shown(since(old(sock).log(), final(sock).log())[0]) {
                    Some(m) => if expected matches Some(e) && m.len != e {
                        None
                    } else {
                        Some(m)
                    },
                    None => None,
                },
                time_of(since(old(sock).log(), final(sock).log())[1]),
            ),
    {
        let ghost was = self.copies();
        let ghost log = sock.log();
        let looks = sock.stat_file(name);
        let ghost l1 = sock.log();
        let now = sock.now();
        proof {
            lemma_two(log, l1, sock.log());
        }
        let mut read_at: Option<Wall> = None;
        let mut meta = Meta { ino: 0, len: 0, mtime: now.wall };
        if let Some(m) = looks {
            meta = m;
            let agrees = match expected {
                Some(e) => e == m.len as u128,
                None => true,
            };
            if agrees {
                read_at = Some(now.wall);
            }
        }
        let ghost said = text@;
        self.files.insert(name.clone(), FileNode { text: Some(text), meta, read_at });
        proof {
            assert(self@ =~= old(self)@.insert(name@, Some(said)));
            if read_at is Some {
                assert(self.copies() =~= was.insert(name@, (meta, now.wall)));
            } else {
                assert(self.copies() =~= was.remove(name@));
            }
        }
    }

    /// The copy of a file is not believed any more.
    pub fn distrust(&mut self, name: &String)
        ensures
            final(self)@ == old(self)@,
            final(self).copies() == old(self).copies().remove(name@),
    {
        if let Some(n) = self.files.remove(name) {
            let FileNode { text, meta, .. } = n;
            self.files.insert(name.clone(), FileNode { text, meta, read_at: None });
        }
        assert(self@ =~= old(self)@);
        assert(self.copies() =~= old(self).copies().remove(name@));
    }

    /// Replaces a file as a whole, or makes it.
    pub fn put<W: FdbWriter>(
        &mut self,
        sock: &mut Recorded<W>,
        name: &String,
        text: &String,
    ) -> (r: Result<(), Refusal>)
        ensures
            final(sock).marks() == old(sock).marks(),
            wrote(
                old(self)@,
                old(sock).log(),
                Op::Put { name: name@, text: text@, refused: None },
                final(self)@,
                final(sock).log(),
                r is Ok,
            ),
            put_copied(
                old(self).copies(),
                name@,
                since(old(sock).log(), final(sock).log()),
                r is Ok,
                final(self).copies(),
            ),
            r matches Err(e) ==> e@.words == words_in(since(old(sock).log(), final(sock).log())[0]),
    {
        let ghost log = sock.log();
        match sock.put_file(name, text) {
            Ok(()) => {
                let ghost l1 = sock.log();
                self.remember(sock, name, text.clone(), None);
                proof {
                    lemma_one(log, l1);
                    lemma_grew_trans(log, l1, sock.log());
                    assert(since(log, sock.log()) =~= seq![l1.last()] + since(l1, sock.log()));
                }
                Ok(())
            },
            Err(e) => {
                self.distrust(name);
                proof {
                    lemma_one(log, sock.log());
                }
                Err(e)
            },
        }
    }

    /// Continues a file behind its last finished line, or makes it.
    pub fn append<W: FdbWriter>(
        &mut self,
        sock: &mut Recorded<W>,
        name: &String,
        text: &String,
    ) -> (r: Result<(), Refusal>)
        ensures
            final(sock).marks() == old(sock).marks(),
            wrote(
                old(self)@,
                old(sock).log(),
                Op::Append { name: name@, text: text@, refused: None },
                final(self)@,
                final(sock).log(),
                r is Ok,
            ),
            append_copied(
                old(self).copies(),
                name@,
                text@,
                since(old(sock).log(), final(sock).log()),
                r is Ok,
                final(self).copies(),
            ),
            r matches Err(e) ==> e@.words == words_in(since(old(sock).log(), final(sock).log())[0]),
    {
        let ghost log = sock.log();
        let was: Option<u64> = match self.files.get(name) {
            Some(n) => if n.text.is_some() && n.read_at.is_some() {
                Some(n.meta.len)
            } else {
                None
            },
            None => None,
        };
        let base: Vec<char> = match self.text(name) {
            Some(t) => chars_of(t),
            None => Vec::new(),
        };
        assert(base@ =~= file_text(old(self)@, name@));
        match sock.append_file(name, text) {
            Ok(()) => {
                let ghost l1 = sock.log();
                let size: u64 = text.as_str().as_bytes().len() as u64;
                let expected: Option<u128> = match was {
                    Some(w) => Some(w as u128 + size as u128),
                    None => None,
                };
                let keep = finished_len(&base);
                let mut whole = string_of(&slice_of(&base, 0, keep));
                assert(base@.subrange(0, keep as int) =~= base@.take(keep as int));
                push_text(&mut whole, text);
                assert(whole@ =~= finished(file_text(old(self)@, name@)) + text@);
                self.remember(sock, name, whole, expected);
                proof {
                    lemma_one(log, l1);
                    lemma_grew_trans(log, l1, sock.log());
                    assert(since(log, sock.log()) =~= seq![l1.last()] + since(l1, sock.log()));
                }
                Ok(())
            },
            Err(e) => {
                self.distrust(name);
                proof {
                    lemma_one(log, sock.log());
                }
                Err(e)
            },
        }
    }

    /// Removes a file. Whether it is known to be gone.
    pub fn erase<W: FdbWriter>(&mut self, sock: &mut Recorded<W>, name: &String) -> (r: bool)
        ensures
            final(sock).marks() == old(sock).marks(),
            final(sock).log() == old(sock).log().push(final(sock).log().last()),
            final(sock).log().last() matches Op::Remove { name: n, refused } && n == name@ && r
                == (refused is None || refused == Some(Errno(ENOENT))),
            final(self)@ == replayed(old(self)@, final(sock).log().last()),
            final(self).copies() == kept_copies(old(self).copies(), final(sock).log().last()),
    {
        let gone = match sock.remove_file(name) {
            Ok(()) => true,
            Err(e) => e == Errno(ENOENT),
        };
        if gone {
            let _ = self.files.remove(name);
            assert(self@ =~= old(self)@.remove(name@));
            assert(self.copies() =~= old(self).copies().remove(name@));
        } else {
            self.distrust(name);
        }
        gone
    }
}

/// Bringing the copy of a file up to date: one look where the copy is believed;
/// otherwise a look, and a reading with a look before and after.
pub open spec fn looked_at(
    dir: Files,
    log: Seq<Op>,
    name: Seq<char>,
    dir2: Files,
    log2: Seq<Op>,
    r: (bool, bool),
) -> bool {
    let ops = since(log, log2);
    &&& grew(log, log2)
    &&& ops.len() == if r.0 {
        1nat
    } else {
        5nat
    }
    &&& ops[0] matches Op::Stat { name: n, .. } && n == name
    &&& if r.0 {
        dir2 == dir && dir.contains_key(name) && dir[name] is Some
    } else {
        &&& ops[1] matches Op::Stat { name: n, .. } && n == name
        &&& ops[2] matches Op::Read { name: n, .. } && n == name
        &&& ops[3] matches Op::Stat { name: n, .. } && n == name
        &&& ops[4] is Clock
        &&& ops[1] matches Op::Stat { meta: a, .. } && (ops[3] matches Op::Stat { meta: b, .. }
            && r.1 == (a is Some && a == b))
        &&& dir2 == replayed(dir, ops[2])
    }
}

/// The system's words for what was wrong with a request.
pub open spec fn words_in(op: Op) -> Seq<char> {
    match op {
        Op::Put { refused: Some(e), .. } => e.words,
        Op::Append { refused: Some(e), .. } => e.words,
        Op::Read { found: Found::Unreadable(w), .. } => w,
        _ => Seq::empty(),
    }
}

/// Whether these are the system's words for why a file could not be read;
/// nothing where it could, or was not there.
pub open spec fn told_unreadable(op: Op, words: Option<String>) -> bool {
    match words {
        Some(w) => op matches Op::Read { found: Found::Unreadable(x), .. } && x == w@,
        None => !(op matches Op::Read { found: Found::Unreadable(_), .. }),
    }
}

/// Writing a file: the request, and where it worked a look at the file and at
/// the clocks.
pub open spec fn wrote(
    dir: Files,
    log: Seq<Op>,
    op: Op,
    dir2: Files,
    log2: Seq<Op>,
    r: bool,
) -> bool {
    let ops = since(log, log2);
    &&& grew(log, log2)
    &&& if r {
        &&& ops.len() == 3
        &&& ops[0] == op
        &&& ops[1] matches Op::Stat { name, .. } && Some(name) == op_name(op)
        &&& ops[2] is Clock
        &&& dir2 == replayed(dir, op)
    } else {
        &&& ops.len() == 1
        &&& match (op, ops[0]) {
            (Op::Put { name, text, .. }, Op::Put { name: n, text: t, refused: Some(_) }) => n == name
                && t == text,
            (
                Op::Append { name, text, .. },
                Op::Append { name: n, text: t, refused: Some(_) },
            ) => n == name && t == text,
            _ => false,
        }
        &&& dir2 == dir
    }
}

proof fn lemma_one(log: Seq<Op>, log2: Seq<Op>)
    requires
        log2 == log.push(log2.last()),
    ensures
        grew(log, log2),
        since(log, log2) == seq![log2.last()],
{
    lemma_grew_same(log);
    lemma_grew_push(log, log, log2.last());
    assert(since(log, log2) =~= seq![log2.last()]);
}

proof fn lemma_two(log: Seq<Op>, mid: Seq<Op>, log2: Seq<Op>)
    requires
        mid == log.push(mid.last()),
        log2 == mid.push(log2.last()),
    ensures
        grew(log, log2),
        since(log, log2) == seq![mid.last(), log2.last()],
{
    lemma_one(log, mid);
    lemma_grew_push(log, mid, log2.last());
    assert(since(log, log2) =~= seq![mid.last(), log2.last()]);
}

} // verus!
