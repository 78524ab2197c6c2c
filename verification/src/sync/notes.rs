//! The ownership notes: which addresses this daemon put into which card.
//!
//! One invariant: an entry this daemon added must always have a line on record
//! saying so, or nothing will ever take it back out. The files in the state
//! directory are the truth. They are read under their locks before anything
//! here is asked, and every change goes to the disk before anything rests on
//! it.

use vstd::prelude::*;
use vstd::relations::total_ordering;
use vstd::seq_lib::lemma_sorted_unique;

use crate::keyed::{lemma_mac_models, lemma_push_contains, KeyMap, KeySet};
use crate::mac::{mac_text, spelling_is_unique, spells, written_mac_spells_it, Mac};
use crate::netlink::{
    DirEntry, Errno, FdbWriter, Found, LockRefused, Meta, Op, Recorded, Refusal, Refused, Wall,
    ENOENT,
};
use crate::order::{
    in_order, lemma_lex_same, lemma_lex_total, lemma_lex_trans, lex_le, name_le, sorted, Ordered,
};
use crate::sync::files::{
    append_copied, file_text, grew, held_still, kept_copies, leaves_alone, lemma_grew_push,
    lemma_grew_same, lemma_grew_trans, lemma_left_alone, lemma_replay_add, lemma_replay_push,
    look_copied, looked_at, op_name, put_copied, replay, replayed, since, words_in, wrote, Copies,
    Files, StateDir,
};
use crate::sync::journal::{
    bad_lines, index_refused_text, memory_refused_text, on_hold_text, readable_text, say_bad_lines,
    say_index_refused, say_memory_refused, say_on_hold, say_readable, say_unadded, say_unlisted,
    say_unlocked, say_unopened, say_unreadable, say_unwritten, unadded_text, unlisted_text,
    unlocked_text, unopened_text, unreadable_text, unwritten_text,
};
use crate::sync::place::{lock_file, lock_name, path_in, state_path};
use crate::sync::record::{
    appended_note_names_both, finished, finished_len, lemma_finished, lemma_lines_add,
    lemma_lines_text, lemma_mac_text, lemma_named_add, lines_text, lines_without, memory_list,
    memory_of, memory_text, named_in, note_macs, note_reads_back, read_memory, read_note,
    take_line_out, text_of_lines, write_lines, write_text, Remembered, PORTS_FORMAT,
};
use crate::sync::said::{Marks, Said};
use crate::text::{
    chars_of, digits, in_run, lemma_digits, lemma_run_len, lines, number_reads_back, number_up_to,
    parse_u32, push_number, push_text, slice_of, string_of, trim, trimmed, views, Run,
};
use crate::topology::detect::texts;

verus! {

/// The file that holds a device's note.
pub open spec fn note_name(dev: Seq<char>) -> Seq<char> {
    dev + ".owned"@
}

/// The file that holds which interface a device's note is about.
pub open spec fn index_name(dev: Seq<char>) -> Seq<char> {
    "."@ + dev + ".owned.index"@
}

/// The file that holds a device's quiet memory.
pub open spec fn ports_name(dev: Seq<char>) -> Seq<char> {
    "."@ + dev + ".owned.ports"@
}

/// Notes of different devices are different files.
pub proof fn lemma_note_name(a: Seq<char>, b: Seq<char>)
    requires
        note_name(a) == note_name(b),
    ensures
        a == b,
{
    let n = note_name(a).len() - ".owned"@.len();
    assert(a =~= note_name(a).take(n));
    assert(b =~= note_name(b).take(n));
}

/// No two devices share a file: neither the note, nor the index recorded beside
/// it, nor the quiet memory.
pub proof fn devices_share_no_file(a: Seq<char>, b: Seq<char>)
    requires
        a != b,
    ensures
        note_name(a) != note_name(b),
        index_name(a) != index_name(b),
        ports_name(a) != ports_name(b),
{
    if note_name(a) == note_name(b) {
        lemma_note_name(a, b);
    }
    let k = "."@.len() as int;
    if index_name(a) == index_name(b) {
        let n = index_name(a).len() - ".owned.index"@.len();
        assert(a =~= index_name(a).subrange(k, n as int));
        assert(b =~= index_name(b).subrange(k, n as int));
    }
    if ports_name(a) == ports_name(b) {
        let n = ports_name(a).len() - ".owned.ports"@.len();
        assert(a =~= ports_name(a).subrange(k, n as int));
        assert(b =~= ports_name(b).subrange(k, n as int));
    }
}

/// A note, an index record and a quiet memory are never the same file.
pub proof fn lemma_kinds_differ(a: Seq<char>, b: Seq<char>)
    ensures
        note_name(a) != index_name(b),
        note_name(a) != ports_name(b),
        index_name(a) != ports_name(b),
{
    reveal_strlit(".owned");
    reveal_strlit(".owned.index");
    reveal_strlit(".owned.ports");
    assert(note_name(a).last() == 'd');
    assert(index_name(b).last() == 'x');
    assert(index_name(a).last() == 'x');
    assert(ports_name(b).last() == 's');
}

/// What a device's note names, as far as anybody here knows; nothing when there
/// is none or it cannot be read.
pub open spec fn owned_in(dir: Files, dev: Seq<char>) -> Set<Mac> {
    note_macs(file_text(dir, note_name(dev)))
}

/// The notes, and what has been said about them.
pub struct Notebook {
    /// where the state directory is
    pub place: String,
    /// the files as they were last read or written
    pub dir: StateDir,
    /// The interface index last recorded beside each note, so that the record
    /// is written when the answer changes rather than once per pass.
    pub indices: KeyMap<String, u32>,
    /// Everything said once per device.
    pub said: Said,
    /// Whether an unlistable state directory has been said out loud.
    pub dir_list_warned: bool,
    /// What is to be printed, in order, and nobody has taken yet.
    pub journal: Vec<String>,
}

/// What a `Notebook` holds.
pub struct BookModel {
    pub place: Seq<char>,
    pub dir: Files,
    /// what the copies of the files are believed by
    pub copies: Copies,
    pub indices: Map<Seq<char>, u32>,
    pub said: Marks,
    pub dir_list_warned: bool,
    pub journal: Seq<Seq<char>>,
}

impl View for Notebook {
    type V = BookModel;

    open spec fn view(&self) -> BookModel {
        BookModel {
            place: self.place@,
            dir: self.dir@,
            copies: self.dir.copies(),
            indices: self.indices@,
            said: self.said@,
            dir_list_warned: self.dir_list_warned,
            journal: texts(self.journal@),
        }
    }
}

impl BookModel {
    /// The same with one more line for the journal.
    pub open spec fn saying(self, line: Seq<char>) -> BookModel {
        BookModel { journal: self.journal.push(line), ..self }
    }

    /// The same with one more line for the journal, where there is reason to.
    pub open spec fn saying_if(self, yes: bool, line: Seq<char>) -> BookModel {
        if yes {
            self.saying(line)
        } else {
            self
        }
    }

    /// The same with more lines for the journal.
    pub open spec fn saying_all(self, lines: Seq<Seq<char>>) -> BookModel {
        BookModel { journal: self.journal + lines, ..self }
    }

    /// The same with other files.
    pub open spec fn with_files(self, dir: Files, copies: Copies) -> BookModel {
        BookModel { dir, copies, ..self }
    }

    /// The same once a file has been read afresh, or removed.
    pub open spec fn after(self, op: Op) -> BookModel {
        self.with_files(replayed(self.dir, op), kept_copies(self.copies, op))
    }

    /// Whether a device's note could be read when it was last looked at.
    pub open spec fn readable(self, dev: Seq<char>) -> bool {
        !self.said.unreadable.contains(dev)
    }

    /// The same with a note's readability remembered. That it cannot be read, or
    /// can be again, is said once.
    pub open spec fn marked(self, dev: Seq<char>, found: Found) -> BookModel {
        let path = state_path(self.place, note_name(dev));
        BookModel {
            said: Marks {
                unreadable: if found is Unreadable {
                    self.said.unreadable.insert(dev)
                } else {
                    self.said.unreadable.remove(dev)
                },
                ..self.said
            },
            ..match found {
                Found::Unreadable(words) => self.saying_if(
                    self.readable(dev),
                    unreadable_text(path, words),
                ),
                _ => self.saying_if(!self.readable(dev), readable_text(path, dev)),
            }
        }
    }
}

/// What is said of a note whose lines do not all name an address.
pub open spec fn bad_in(place: Seq<char>, dir: Files, dev: Seq<char>) -> Seq<Seq<char>> {
    bad_lines(state_path(place, note_name(dev)), lines(file_text(dir, note_name(dev))))
}

/// A note has been read afresh: whether it could be is remembered.
pub open spec fn note_read(
    b: BookModel,
    log: Seq<Op>,
    dev: Seq<char>,
    b2: BookModel,
    log2: Seq<Op>,
) -> bool {
    &&& log2 == log.push(log2.last())
    &&& log2.last() matches Op::Read { name, found } && name == note_name(dev) && b2
        == b.saying_all(bad_in(b.place, b2.dir, dev)).marked(dev, found).after(log2.last())
}

/// A note has been looked at: a copy that can be believed costs one look at the
/// file, otherwise the file is read. Where there is no note that held still
/// while it was read, the index recorded beside it is not believed any more:
/// somebody else may have removed both.
pub open spec fn note_looked(
    b: BookModel,
    log: Seq<Op>,
    dev: Seq<char>,
    b2: BookModel,
    log2: Seq<Op>,
) -> bool {
    let ops = since(log, log2);
    let believed = ops.len() == 1;
    &&& looked_at(b.dir, log, note_name(dev), b2.dir, log2, (believed, held_still(ops)))
    &&& look_copied(b.copies, note_name(dev), ops, b2.copies)
    &&& if believed {
        b2 == b
    } else {
        ops[2] matches Op::Read { found, .. } && b2 == (BookModel {
            dir: b2.dir,
            copies: b2.copies,
            indices: if !(found is Unreadable) && held_still(ops) {
                b.indices
            } else {
                b.indices.remove(dev)
            },
            ..b.saying_all(bad_in(b.place, b2.dir, dev)).marked(dev, found)
        })
    }
}

/// What is said of a lock that could not be had.
pub open spec fn lock_text(path: Seq<char>, dev: Seq<char>, e: LockRefused) -> Seq<char> {
    if e.opened {
        unlocked_text(path, dev, e.why.words)
    } else {
        unopened_text(path, dev, e.why.words)
    }
}

/// The lock of a note has been asked for. Where it could not be taken the note
/// is still written, and that is remembered as said.
pub open spec fn lock_asked(
    b: BookModel,
    log: Seq<Op>,
    dev: Seq<char>,
    b2: BookModel,
    log2: Seq<Op>,
) -> bool {
    &&& log2 == log.push(log2.last())
    &&& log2.last() matches Op::Lock { dev: d, refused } && d == dev && b2 == (BookModel {
        said: Marks {
            lock: if refused is Some {
                b.said.lock.insert(dev)
            } else {
                b.said.lock
            },
            ..b.said
        },
        ..match refused {
            Some(e) => b.saying_if(
                !b.said.lock.contains(dev),
                lock_text(state_path(b.place, lock_name(dev)), dev, e),
            ),
            None => b,
        }
    })
}

/// Addresses in the order of their bytes.
pub open spec fn mac_le(a: Mac, b: Mac) -> bool {
    lex_le(a@, b@)
}

/// Whether a list holds exactly these addresses, each once, in order.
pub open spec fn sorted_list(ms: Seq<Mac>, s: Set<Mac>) -> bool {
    ms.no_duplicates() && in_order(ms) && ms.to_set() == s
}

/// The addresses of a set in order.
pub open spec fn sorted_macs(s: Set<Mac>) -> Seq<Mac> {
    choose|ms: Seq<Mac>| sorted_list(ms, s)
}

/// There is one way to put addresses in order.
pub proof fn lemma_sorted_macs(ms: Seq<Mac>, s: Set<Mac>)
    requires
        sorted_list(ms, s),
    ensures
        sorted_macs(s) == ms,
{
    let other = sorted_macs(s);
    let leq = |a: Mac, b: Mac| mac_le(a, b);
    assert(total_ordering(leq)) by {
        assert forall|a: Mac| #[trigger] leq(a, a) by {
            lemma_lex_total(a@, a@);
        }
        assert forall|a: Mac, b: Mac| #[trigger] leq(a, b) && #[trigger] leq(b, a) implies a
            == b by {
            lemma_lex_same(a@, b@);
            assert(a =~= b);
        }
        assert forall|a: Mac, b: Mac, c: Mac| #[trigger] leq(a, b) && #[trigger] leq(
            b,
            c,
        ) implies leq(a, c) by {
            lemma_lex_trans(a@, b@, c@);
        }
        assert forall|a: Mac, b: Mac| #[trigger] leq(a, b) || #[trigger] leq(b, a) by {
            lemma_lex_total(a@, b@);
        }
    }
    assert forall|i: int, j: int| 0 <= i < j < ms.len() implies #[trigger] leq(
        ms[i],
        ms[j],
    ) by {
        assert(ms[i].leq(&ms[j]));
    }
    assert forall|i: int, j: int| 0 <= i < j < other.len() implies #[trigger] leq(
        other[i],
        other[j],
    ) by {
        assert(other[i].leq(&other[j]));
    }
    lemma_same_multiset(ms, other);
    lemma_sorted_unique(ms, other, leq);
}

/// Two lists without repetitions that hold the same are the same in any order.
proof fn lemma_same_multiset(a: Seq<Mac>, b: Seq<Mac>)
    requires
        a.no_duplicates(),
        b.no_duplicates(),
        a.to_set() == b.to_set(),
    ensures
        a.to_multiset() == b.to_multiset(),
{
    broadcast use vstd::seq_lib::group_to_multiset_ensures;

    a.lemma_multiset_has_no_duplicates();
    b.lemma_multiset_has_no_duplicates();
    assert forall|x: Mac| a.to_multiset().count(x) == b.to_multiset().count(x) by {
        assert(a.contains(x) <==> a.to_set().contains(x));
        assert(b.contains(x) <==> b.to_set().contains(x));
        if a.contains(x) {
            assert(a.to_multiset().contains(x));
            assert(b.to_multiset().contains(x));
        }
    }
    assert(a.to_multiset() =~= b.to_multiset());
}

/// The addresses of a set in order.
pub fn list_in_order(set: &KeySet<Mac>) -> (r: Vec<Mac>)
    ensures
        sorted_list(r@, set@),
        r@ == sorted_macs(set@),
{
    let list = set.list();
    proof {
        lemma_mac_models(list@);
    }
    let mut copy: Vec<Mac> = Vec::new();
    let mut i: usize = 0;
    while i < list.len()
        invariant
            i <= list@.len(),
            copy@ == list@.take(i as int),
        decreases list@.len() - i,
    {
        copy.push(list[i]);
        assert(list@.take(i + 1) =~= list@.take(i as int).push(list@[i as int]));
        i += 1;
    }
    assert(list@.take(i as int) =~= list@);
    let out = sorted(copy);
    proof {
        assert forall|m: Mac| out@.to_set().contains(m) <==> set@.contains(m) by {
            assert(out@.contains(m) <==> list@.contains(m));
            assert(list@.to_set().contains(m) <==> set@.contains(m));
        }
        assert(out@.to_set() =~= set@);
        lemma_sorted_macs(out@, set@);
    }
    out
}

/// The note that names exactly these addresses, in order.
pub open spec fn note_of(s: Set<Mac>) -> Seq<char> {
    lines_text(sorted_macs(s))
}

/// A list with each address at its first place only.
pub open spec fn firsts(s: Seq<Mac>) -> Seq<Mac>
    decreases s.len(),
{
    if s.len() == 0 {
        s
    } else {
        let head = firsts(s.drop_last());
        if head.contains(s.last()) {
            head
        } else {
            head.push(s.last())
        }
    }
}

/// Which addresses of a list a note gets a line for, each once: none where it
/// names them all, otherwise those that its finished lines do not name.
pub open spec fn unnamed(t: Seq<char>, added: Seq<Mac>) -> Seq<Mac> {
    if all_named(t, added) {
        Seq::empty()
    } else {
        firsts(added.filter(|m: Mac| !note_macs(finished(t)).contains(m)))
    }
}

/// Which of those are new to the note. What a line names that a write left
/// unfinished gets its line again and is not new.
pub open spec fn newly_named(t: Seq<char>, added: Seq<Mac>) -> Seq<Mac> {
    unnamed(t, added).filter(|m: Mac| !note_macs(t).contains(m))
}

proof fn lemma_firsts(s: Seq<Mac>)
    ensures
        firsts(s).no_duplicates(),
        forall|m: Mac| #[trigger] firsts(s).contains(m) <==> s.contains(m),
    decreases s.len(),
{
    if s.len() > 0 {
        let front = s.drop_last();
        lemma_firsts(front);
        assert(s =~= front.push(s.last()));
        lemma_push_contains(front, s.last());
        lemma_push_contains(firsts(front), s.last());
        if !firsts(front).contains(s.last()) {
            let all = firsts(front).push(s.last());
            assert forall|i: int, j: int|
                0 <= i < all.len() && 0 <= j < all.len() && i != j implies all[i] != all[j] by {
                if i == firsts(front).len() {
                    assert(firsts(front).contains(all[j]));
                } else if j == firsts(front).len() {
                    assert(firsts(front).contains(all[i]));
                }
            }
        }
    }
}

/// How many of these lines name an address.
pub open spec fn lines_naming(ls: Seq<Seq<char>>, m: Mac) -> nat
    decreases ls.len(),
{
    if ls.len() == 0 {
        0
    } else {
        lines_naming(ls.drop_last(), m) + if spells(trim(ls.last()), m) {
            1nat
        } else {
            0nat
        }
    }
}

proof fn lemma_naming_add(a: Seq<Seq<char>>, b: Seq<Seq<char>>, m: Mac)
    ensures
        lines_naming(a + b, m) == lines_naming(a, m) + lines_naming(b, m),
    decreases b.len(),
{
    if b.len() == 0 {
        assert(a + b =~= a);
    } else {
        lemma_naming_add(a, b.drop_last(), m);
        assert((a + b).drop_last() =~= a + b.drop_last());
    }
}

proof fn lemma_naming_none(ls: Seq<Seq<char>>, m: Mac)
    ensures
        !named_in(ls).contains(m) ==> lines_naming(ls, m) == 0,
        named_in(ls).contains(m) ==> lines_naming(ls, m) >= 1,
    decreases ls.len(),
{
    if ls.len() > 0 {
        let front = ls.drop_last();
        lemma_naming_none(front, m);
        assert(ls =~= front + seq![ls.last()]);
        lemma_named_add(front, seq![ls.last()]);
        let one = seq![ls.last()];
        assert(named_in(one).contains(m) <==> spells(trim(ls.last()), m)) by {
            assert(one[0] == ls.last());
        }
    }
}

proof fn lemma_naming_texts(ms: Seq<Mac>, m: Mac)
    requires
        ms.no_duplicates(),
    ensures
        lines_naming(ms.map_values(|x: Mac| mac_text(x)), m) <= 1,
        !ms.contains(m) ==> lines_naming(ms.map_values(|x: Mac| mac_text(x)), m) == 0,
    decreases ms.len(),
{
    let ls = ms.map_values(|x: Mac| mac_text(x));
    if ms.len() > 0 {
        let front = ms.drop_last();
        let last = ms.last();
        lemma_naming_texts(front, m);
        assert(ls.drop_last() =~= front.map_values(|x: Mac| mac_text(x)));
        assert(ms =~= front.push(last));
        lemma_push_contains(front, last);
        lemma_mac_text(last);
        written_mac_spells_it(last);
        if spells(trim(ls.last()), m) {
            spelling_is_unique(mac_text(last), m, last);
            assert(!front.contains(m)) by {
                if front.contains(m) {
                    let i = choose|i: int| 0 <= i < front.len() && front[i] == m;
                    assert(ms[i] == ms[ms.len() - 1]);
                }
            }
        }
    }
}

/// Adding to a note never gives it a second line for an address: no address has
/// more lines afterwards than it had, but for one that had none and has one now.
/// What is returned as new is each address once, and none that was named.
pub proof fn an_append_repeats_no_line(t: Seq<char>, added: Seq<Mac>, m: Mac)
    ensures
        lines_naming(lines(finished(t) + lines_text(unnamed(t, added))), m) <= if lines_naming(
            lines(t),
            m,
        ) >= 1 {
            lines_naming(lines(t), m)
        } else {
            1
        },
        unnamed(t, added).no_duplicates(),
        newly_named(t, added).no_duplicates(),
        newly_named(t, added).contains(m) ==> added.contains(m) && !note_macs(t).contains(m),
{
    let p = |x: Mac| !note_macs(finished(t)).contains(x);
    let q = |x: Mac| !note_macs(t).contains(x);
    let ms = unnamed(t, added);
    lemma_firsts(added.filter(p));
    lemma_filter(added, p, m);
    lemma_filter(ms, q, m);
    lemma_filter_unique(ms, q);
    lemma_finished(t);
    let rest = t.skip(finished(t).len() as int);
    assert(finished(t) + rest =~= t);
    lemma_lines_add(finished(t), rest);
    lemma_naming_add(lines(finished(t)), lines(rest), m);
    lemma_lines_add(finished(t), lines_text(ms));
    lemma_naming_add(lines(finished(t)), lines(lines_text(ms)), m);
    lemma_lines_text(ms);
    lemma_naming_texts(ms, m);
    lemma_naming_none(lines(finished(t)), m);
}

proof fn lemma_filter_unique(s: Seq<Mac>, p: spec_fn(Mac) -> bool)
    requires
        s.no_duplicates(),
    ensures
        s.filter(p).no_duplicates(),
    decreases s.len(),
{
    reveal(Seq::filter);
    if s.len() > 0 {
        let front = s.drop_last();
        lemma_filter_unique(front, p);
        lemma_filter(front, p, s.last());
        let head = front.filter(p);
        assert(!front.contains(s.last())) by {
            if front.contains(s.last()) {
                let i = choose|i: int| 0 <= i < front.len() && front[i] == s.last();
                assert(s[i] == s[s.len() - 1]);
            }
        }
        let all = s.filter(p);
        assert forall|i: int, j: int|
            0 <= i < all.len() && 0 <= j < all.len() && i != j implies all[i] != all[j] by {
            if i == head.len() {
                assert(head.contains(all[j]));
            } else if j == head.len() {
                assert(head.contains(all[i]));
            }
        }
    }
}

/// Whether a note names every address of a list.
pub open spec fn all_named(t: Seq<char>, added: Seq<Mac>) -> bool {
    forall|m: Mac| #[trigger] added.contains(m) ==> note_macs(t).contains(m)
}

/// What an optional list holds.
pub open spec fn opt_list(v: Option<Vec<Mac>>) -> Option<Seq<Mac>> {
    match v {
        Some(l) => Some(l@),
        None => None,
    }
}

/// Which addresses of a list the finished lines of a note do not name, each once.
fn lines_to_add(cs: &Vec<char>, added: &Vec<Mac>) -> (r: Vec<Mac>)
    ensures
        r@ == firsts(added@.filter(|m: Mac| !note_macs(finished(cs@)).contains(m))),
{
    let ghost t = cs@;
    let keep = finished_len(cs);
    let named = read_note(&string_of(&slice_of(cs, 0, keep)));
    assert(cs@.subrange(0, keep as int) =~= finished(t));
    let ghost p = |m: Mac| !note_macs(finished(t)).contains(m);
    let mut out: Vec<Mac> = Vec::new();
    let mut seen: KeySet<Mac> = KeySet::new();
    let mut i: usize = 0;
    proof {
        reveal(Seq::filter);
        assert(added@.take(0) =~= Seq::empty());
        assert(out@.to_set() =~= Set::empty());
    }
    while i < added.len()
        invariant
            i <= added@.len(),
            named@ == note_macs(finished(t)),
            p == (|m: Mac| !note_macs(finished(t)).contains(m)),
            out@ == firsts(added@.take(i as int).filter(p)),
            seen@ == out@.to_set(),
        decreases added@.len() - i,
    {
        let m = added[i];
        proof {
            reveal(Seq::filter);
            let next = added@.take(i + 1);
            assert(next.drop_last() =~= added@.take(i as int));
            assert(next.last() == m);
            let head = added@.take(i as int).filter(p);
            assert(head.push(m).drop_last() =~= head);
            assert(seen@.contains(m) <==> out@.contains(m));
        }
        if !named.contains(&m) {
            let ghost before = out@;
            if seen.insert(m) {
                out.push(m);
                proof {
                    lemma_push_contains(before, m);
                    assert(seen@ =~= out@.to_set());
                }
            } else {
                assert(seen@ =~= out@.to_set());
            }
        }
        i += 1;
    }
    assert(added@.take(i as int) =~= added@);
    out
}

/// The addresses of a list that a set does not hold.
fn not_among(v: &Vec<Mac>, owned: &KeySet<Mac>) -> (r: Vec<Mac>)
    ensures
        r@ == v@.filter(|m: Mac| !owned@.contains(m)),
{
    let ghost p = |m: Mac| !owned@.contains(m);
    let mut out: Vec<Mac> = Vec::new();
    let mut i: usize = 0;
    proof {
        reveal(Seq::filter);
        assert(v@.take(0) =~= Seq::empty());
    }
    while i < v.len()
        invariant
            i <= v@.len(),
            p == (|m: Mac| !owned@.contains(m)),
            out@ == v@.take(i as int).filter(p),
        decreases v@.len() - i,
    {
        proof {
            reveal(Seq::filter);
            let next = v@.take(i + 1);
            assert(next.drop_last() =~= v@.take(i as int));
            assert(next.last() == v@[i as int]);
        }
        if !owned.contains(&v[i]) {
            out.push(v[i]);
        }
        i += 1;
    }
    assert(v@.take(i as int) =~= v@);
    out
}

/// Whether a set holds every address of a list.
fn names_all(owned: &KeySet<Mac>, added: &Vec<Mac>) -> (r: bool)
    ensures
        r == forall|m: Mac| #[trigger] added@.contains(m) ==> owned@.contains(m),
{
    let mut i: usize = 0;
    while i < added.len()
        invariant
            i <= added@.len(),
            forall|j: int| 0 <= j < i ==> owned@.contains(#[trigger] added@[j]),
        decreases added@.len() - i,
    {
        if !owned.contains(&added[i]) {
            assert(added@.contains(added@[i as int]));
            return false;
        }
        i += 1;
    }
    true
}

/// The file that holds a device's note.
fn note_file(dev: &String) -> (r: String)
    ensures
        r@ == note_name(dev@),
{
    let mut s = dev.clone();
    push_text(&mut s, ".owned");
    s
}

/// The file that holds which interface a device's note is about.
fn index_file(dev: &String) -> (r: String)
    ensures
        r@ == index_name(dev@),
{
    let mut s = ".".to_owned();
    push_text(&mut s, dev);
    push_text(&mut s, ".owned.index");
    s
}

/// The file that holds a device's quiet memory.
fn ports_file(dev: &String) -> (r: String)
    ensures
        r@ == ports_name(dev@),
{
    let mut s = ".".to_owned();
    push_text(&mut s, dev);
    push_text(&mut s, ".owned.ports");
    s
}

/// The second half of `note_written`: what is done once the note has been
/// looked at.
pub open spec fn note_put(
    b: BookModel,
    log: Seq<Op>,
    dev: Seq<char>,
    set: Set<Mac>,
    b2: BookModel,
    log2: Seq<Op>,
    r: bool,
) -> bool {
    if !b.readable(dev) {
        !r && b2 == b.saying(on_hold_text(dev)) && log2 == log
    } else if owned_in(b.dir, dev) == set {
        r && b2 == b && log2 == log
    } else {
        &&& wrote(
            b.dir,
            log,
            Op::Put { name: note_name(dev), text: note_of(set), refused: None },
            b2.dir,
            log2,
            r,
        )
        &&& put_copied(b.copies, note_name(dev), since(log, log2), r, b2.copies)
        &&& b2 == b.with_files(b2.dir, b2.copies).saying_if(
            !r,
            unwritten_text(dev, words_in(since(log, log2)[0])),
        )
        &&& r ==> owned_in(b2.dir, dev) == set
    }
}

/// What is written to a note that has to name `set`, and whether it says so
/// afterwards: nothing is written over a note that cannot be read, nor where
/// the note names these addresses already.
pub open spec fn note_written(
    b: BookModel,
    log: Seq<Op>,
    dev: Seq<char>,
    set: Set<Mac>,
    b2: BookModel,
    log2: Seq<Op>,
    r: bool,
) -> bool {
    if !b.readable(dev) {
        !r && b2 == b.saying(on_hold_text(dev)) && log2 == log
    } else {
        exists|b1: BookModel, l1: Seq<Op>| #[trigger]
            note_looked(b, log, dev, b1, l1) && note_put(b1, l1, dev, set, b2, log2, r)
    }
}

/// The second half of `note_extended`: what is done once the note has been
/// looked at.
pub open spec fn note_appended(
    b: BookModel,
    log: Seq<Op>,
    dev: Seq<char>,
    added: Seq<Mac>,
    b2: BookModel,
    log2: Seq<Op>,
    r: Option<Seq<Mac>>,
) -> bool {
    let t = file_text(b.dir, note_name(dev));
    let fresh = unnamed(t, added);
    if !b.readable(dev) {
        r is None && b2 == b && log2 == log
    } else if fresh.len() == 0 {
        r == Some(newly_named(t, added)) && b2 == b && log2 == log
    } else {
        &&& wrote(
            b.dir,
            log,
            Op::Append {
                name: note_name(dev),
                text: lines_text(fresh),
                refused: None,
            },
            b2.dir,
            log2,
            r is Some,
        )
        &&& append_copied(
            b.copies,
            note_name(dev),
            lines_text(fresh),
            since(log, log2),
            r is Some,
            b2.copies,
        )
        &&& b2 == b.with_files(b2.dir, b2.copies).saying_if(
            r is None,
            unadded_text(dev, words_in(since(log, log2)[0])),
        )
        &&& r is Some ==> r == Some(newly_named(t, added))
    }
}

/// What is added to a note, and which of the addresses were not on it: those
/// are the ones that go to its end, behind its finished lines. Nothing is
/// added to a note that cannot be read.
pub open spec fn note_extended(
    b: BookModel,
    log: Seq<Op>,
    dev: Seq<char>,
    added: Seq<Mac>,
    b2: BookModel,
    log2: Seq<Op>,
    r: Option<Seq<Mac>>,
) -> bool {
    exists|b1: BookModel, l1: Seq<Op>| #[trigger]
        note_looked(b, log, dev, b1, l1) && note_appended(b1, l1, dev, added, b2, log2, r)
}

/// Once addresses have been added to a note, it names them all.
pub proof fn appended_addresses_are_named(
    b: BookModel,
    log: Seq<Op>,
    dev: Seq<char>,
    added: Seq<Mac>,
    b2: BookModel,
    log2: Seq<Op>,
    r: Option<Seq<Mac>>,
)
    requires
        note_extended(b, log, dev, added, b2, log2, r),
    ensures
        r is Some ==> forall|m: Mac| #[trigger] added.contains(m) ==> owned_in(
            b2.dir,
            dev,
        ).contains(m),
{
    let (b1, l1) = choose|b1: BookModel, l1: Seq<Op>| #[trigger]
        note_looked(b, log, dev, b1, l1) && note_appended(b1, l1, dev, added, b2, log2, r);
    lemma_appended(b1, l1, dev, added, b2, log2, r);
}

/// What a note names once addresses have been added: those, and what its
/// finished lines named; or it is as it was.
pub proof fn lemma_appended(
    b: BookModel,
    log: Seq<Op>,
    dev: Seq<char>,
    added: Seq<Mac>,
    b2: BookModel,
    log2: Seq<Op>,
    r: Option<Seq<Mac>>,
)
    requires
        note_appended(b, log, dev, added, b2, log2, r),
    ensures
        r is Some ==> forall|m: Mac| #[trigger] added.contains(m) ==> owned_in(
            b2.dir,
            dev,
        ).contains(m),
        b2.dir == b.dir || owned_in(b2.dir, dev) == note_macs(
            finished(file_text(b.dir, note_name(dev))),
        ).union(added.to_set()),
        r is None ==> b2.dir == b.dir,
{
    let t = file_text(b.dir, note_name(dev));
    let p = |m: Mac| !note_macs(finished(t)).contains(m);
    let fresh = unnamed(t, added);
    appended_note_names_both(t, fresh);
    lemma_finished(t);
    if !all_named(t, added) {
        lemma_firsts(added.filter(p));
        assert forall|m: Mac| fresh.to_set().contains(m) <==> added.contains(m) && p(m) by {
            lemma_filter(added, p, m);
            assert(fresh.contains(m) <==> added.filter(p).contains(m));
        }
        if fresh.len() == 0 {
            let rest = t.skip(finished(t).len() as int);
            lemma_lines_add(finished(t), rest);
            assert(finished(t) + rest =~= t);
            lemma_named_add(lines(finished(t)), lines(rest));
            assert forall|m: Mac| #[trigger] added.contains(m) implies note_macs(t).contains(m) by {
                if p(m) {
                    assert(fresh.to_set().contains(m));
                }
            }
        } else {
            assert(note_macs(finished(t)).union(fresh.to_set()) =~= note_macs(finished(t)).union(
                added.to_set(),
            ));
        }
    }
}

/// What a filter lets through.
pub proof fn lemma_filter(s: Seq<Mac>, p: spec_fn(Mac) -> bool, m: Mac)
    ensures
        s.filter(p).contains(m) <==> s.contains(m) && p(m),
    decreases s.len(),
{
    reveal(Seq::filter);
    if s.len() > 0 {
        let front = s.drop_last();
        lemma_filter(front, p, m);
        assert(s =~= front.push(s.last()));
        lemma_push_contains(front, s.last());
        lemma_push_contains(front.filter(p), s.last());
    }
}

/// What is left of a note, and whether it says so, when `macs` are taken off.
pub open spec fn note_reduced(
    b: BookModel,
    log: Seq<Op>,
    dev: Seq<char>,
    macs: Set<Mac>,
    b2: BookModel,
    log2: Seq<Op>,
    r: bool,
) -> bool {
    if !b.readable(dev) {
        !r && b2 == b && log2 == log
    } else {
        exists|b1: BookModel, l1: Seq<Op>| #[trigger]
            note_looked(b, log, dev, b1, l1) && if owned_in(b1.dir, dev).disjoint(macs) {
                r && b2 == b1 && log2 == l1
            } else {
                note_written(b1, l1, dev, owned_in(b1.dir, dev).difference(macs), b2, log2, r)
            }
    }
}

/// A note without `dropped`, against what it says now.
pub open spec fn note_forgets(
    b: BookModel,
    log: Seq<Op>,
    dev: Seq<char>,
    dropped: Seq<Mac>,
    b2: BookModel,
    log2: Seq<Op>,
) -> bool {
    if dropped.len() == 0 {
        b2 == b && log2 == log
    } else {
        exists|b1: BookModel, l1: Seq<Op>, r: bool|
            #![trigger note_written(
                b1,
                l1,
                dev,
                owned_in(b1.dir, dev).difference(dropped.to_set()),
                b2,
                log2,
                r,
            )]
            note_read(b, log, dev, b1, l1) && note_written(
                b1,
                l1,
                dev,
                owned_in(b1.dir, dev).difference(dropped.to_set()),
                b2,
                log2,
                r,
            )
    }
}

/// The difference between `before` and `after`, made to `current`.
pub open spec fn merged_set(current: Set<Mac>, before: Set<Mac>, after: Set<Mac>) -> Set<Mac> {
    current.union(after.difference(before)).difference(before.difference(after))
}

/// What is on the note when a merge is made, and is in neither of its sets,
/// stays on it: a line that somebody else added meanwhile survives.
pub proof fn merging_keeps_other_lines(
    current: Set<Mac>,
    before: Set<Mac>,
    after: Set<Mac>,
    m: Mac,
)
    requires
        current.contains(m),
        !before.contains(m),
    ensures
        merged_set(current, before, after).contains(m),
{
}

/// A note rewritten under its lock as the difference between `before` and
/// `after`, against what it says then.
pub open spec fn note_merged(
    b: BookModel,
    log: Seq<Op>,
    dev: Seq<char>,
    before: Set<Mac>,
    after: Set<Mac>,
    b2: BookModel,
    log2: Seq<Op>,
) -> bool {
    exists|bl: BookModel, ll: Seq<Op>, b1: BookModel, l1: Seq<Op>, l2: Seq<Op>, r: bool|
        {
            &&& #[trigger] lock_asked(b, log, dev, bl, ll)
            &&& #[trigger] note_read(bl, ll, dev, b1, l1)
            &&& #[trigger] note_written(
                b1,
                l1,
                dev,
                merged_set(owned_in(b1.dir, dev), before, after),
                b2,
                l2,
                r,
            )
            &&& log2 == l2.push(Op::Unlock { dev })
        }
}

/// The requests that remove a note with everything beside it.
pub open spec fn removes_note(ops: Seq<Op>, dev: Seq<char>) -> bool {
    &&& ops.len() == 3
    &&& ops[0] matches Op::Remove { name, .. } && name == note_name(dev)
    &&& ops[1] matches Op::Remove { name, .. } && name == index_name(dev)
    &&& ops[2] matches Op::Remove { name, .. } && name == ports_name(dev)
}

/// What removing a note leaves behind.
pub open spec fn note_removed(
    b: BookModel,
    log: Seq<Op>,
    dev: Seq<char>,
    b2: BookModel,
    log2: Seq<Op>,
) -> bool {
    &&& grew(log, log2)
    &&& removes_note(since(log, log2), dev)
    &&& b2 == (BookModel {
        dir: replay(b.dir, since(log, log2)),
        copies: b.copies.remove(note_name(dev)).remove(index_name(dev)).remove(ports_name(dev)),
        indices: b.indices.remove(dev),
        ..b
    })
}

/// What removing the quiet memory leaves behind, and whether it is known to be
/// gone: where the removal was refused, a look tells.
pub open spec fn ports_removed(
    b: BookModel,
    log: Seq<Op>,
    dev: Seq<char>,
    b2: BookModel,
    log2: Seq<Op>,
    r: bool,
) -> bool {
    let name = ports_name(dev);
    let first = log2[log.len() as int];
    &&& first matches Op::Remove { name: n, refused } && n == name && if refused is None || refused
        == Some(Errno(ENOENT)) {
        r && log2 == log.push(first)
    } else {
        &&& log2 == log.push(first).push(log2.last())
        &&& log2.last() matches Op::Stat { name: n, meta } && n == name && r == (meta is None)
    }
    &&& b2 == b.after(first)
}

/// One of the files has been read afresh.
pub open spec fn file_read(
    b: BookModel,
    log: Seq<Op>,
    name: Seq<char>,
    b2: BookModel,
    log2: Seq<Op>,
) -> bool {
    &&& log2 == log.push(log2.last())
    &&& log2.last() matches Op::Read { name: n, .. } && n == name
    &&& b2 == b.after(log2.last())
}

/// The second half of `line_dropped`: what is done once the note has been read.
pub open spec fn line_cut(
    b: BookModel,
    log: Seq<Op>,
    dev: Seq<char>,
    mac: Mac,
    b2: BookModel,
    log2: Seq<Op>,
) -> bool {
    let name = note_name(dev);
    let kept = lines_without(lines(file_text(b.dir, name)), mac);
    if !b.dir.contains_key(name) || b.dir[name] is None {
        b2 == b && log2 == log
    } else if kept.len() == 0 {
        note_removed(b, log, dev, b2, log2)
    } else {
        exists|r: bool|
            wrote(
                b.dir,
                log,
                Op::Put { name, text: text_of_lines(kept), refused: None },
                b2.dir,
                log2,
                r,
            ) && b2 == b.with_files(b2.dir, b.copies.remove(name)).saying_if(
                !r,
                unwritten_text(dev, words_in(since(log, log2)[0])),
            )
    }
}

/// What taking one line out of a note leaves behind: the others as they are,
/// or, where there are none, no note at all.
pub open spec fn line_dropped(
    b: BookModel,
    log: Seq<Op>,
    dev: Seq<char>,
    mac: Mac,
    b2: BookModel,
    log2: Seq<Op>,
) -> bool {
    exists|b1: BookModel, l1: Seq<Op>| #[trigger]
        file_read(b, log, note_name(dev), b1, l1) && line_cut(b1, l1, dev, mac, b2, log2)
}

/// The record of which interface a note is about.
pub open spec fn index_text(index: u32) -> Seq<char> {
    digits(index as nat).push('\n')
}

/// What recording an index leaves behind: the record is written where it is
/// not known to say this already, and counts as said even where it could not
/// be written.
pub open spec fn index_noted(
    b: BookModel,
    log: Seq<Op>,
    dev: Seq<char>,
    index: u32,
    b2: BookModel,
    log2: Seq<Op>,
) -> bool {
    if b.indices.contains_key(dev) && b.indices[dev] == index {
        b2 == b && log2 == log
    } else {
        exists|r: bool| #[trigger]
            wrote(
                b.dir,
                log,
                Op::Put { name: index_name(dev), text: index_text(index), refused: None },
                b2.dir,
                log2,
                r,
            ) && put_copied(b.copies, index_name(dev), since(log, log2), r, b2.copies) && b2 == (
            BookModel {
                dir: b2.dir,
                copies: b2.copies,
                indices: b.indices.insert(dev, index),
                ..b.saying_if(!r, index_refused_text(dev, words_in(since(log, log2)[0])))
            })
    }
}

/// The index recorded beside a note, if there is one that can be read.
pub open spec fn index_in(dir: Files, dev: Seq<char>) -> Option<nat> {
    if dir.contains_key(index_name(dev)) {
        match dir[index_name(dev)] {
            Some(t) => number_up_to(trim(t), u32::MAX as nat),
            None => None,
        }
    } else {
        None
    }
}

/// What is recorded for an interface is read back as its index.
pub proof fn recorded_index_reads_back(dir: Files, dev: Seq<char>, index: u32)
    requires
        dir.contains_key(index_name(dev)),
        dir[index_name(dev)] == Some(index_text(index)),
    ensures
        index_in(dir, dev) == Some(index as nat),
{
    lemma_digits(index as nat);
    number_reads_back(index as nat);
    let d = digits(index as nat);
    let t = index_text(index);
    assert(t[0] == d[0]);
    assert(in_run(Run::Digits, d[0]));
    assert(in_run(Run::Digits, d[d.len() - 1]));
    lemma_run_len(Run::Blank, t, 0);
    assert(t.skip(0) =~= t);
    let back = t.reverse();
    assert(back[0] == '\n');
    assert(back[1] == d[d.len() - 1]);
    lemma_run_len(Run::Blank, back, 1);
    assert(t.take(t.len() - 1) =~= d);
}

/// Whether an entry of the state directory is a device's note: an ordinary
/// file, nothing else.
pub open spec fn is_note(e: DirEntry, dev: Seq<char>) -> bool {
    e.regular && e.name@ == note_name(dev)
}

/// How many entries of the state directory are notes.
pub open spec fn count_notes(entries: Seq<DirEntry>) -> nat
    decreases entries.len(),
{
    if entries.len() == 0 {
        0
    } else {
        count_notes(entries.drop_last()) + if exists|d: Seq<char>| is_note(entries.last(), d) {
            1nat
        } else {
            0nat
        }
    }
}

/// Whether `devs` lists the devices that have a note, in order, one for each
/// note.
pub open spec fn lists_noted(devs: Seq<Seq<char>>, entries: Seq<DirEntry>) -> bool {
    &&& devs.len() == count_notes(entries)
    &&& forall|d: Seq<char>| #[trigger]
        devs.contains(d) <==> exists|i: int|
            0 <= i < entries.len() && is_note(#[trigger] entries[i], d)
    &&& forall|i: int, j: int|
        #![trigger devs[i], devs[j]]
        0 <= i <= j < devs.len() ==> name_le(devs[i], devs[j])
}

/// What asking for the devices with a note comes to: a missing directory means
/// none, any other failure to list it means unknown.
pub open spec fn devices_asked(
    log: Seq<Op>,
    log2: Seq<Op>,
    r: Result<Seq<Seq<char>>, Refused>,
) -> bool {
    &&& log2 == log.push(log2.last())
    &&& log2.last() matches Op::List { entries } && match entries {
        Ok(v) => r matches Ok(devs) && lists_noted(devs, v),
        Err(e) => if e.errno == Errno(ENOENT) {
            r == Ok::<Seq<Seq<char>>, Refused>(Seq::empty())
        } else {
            r == Err::<Seq<Seq<char>>, Refused>(e)
        },
    }
}

/// The names in a list, if there is one.
pub open spec fn listed_names(r: Result<Vec<String>, Refusal>) -> Result<Seq<Seq<char>>, Refused> {
    match r {
        Ok(v) => Ok(texts(v@)),
        Err(e) => Err(e@),
    }
}

/// Whether a request is about files, locks or clocks only.
pub open spec fn is_filework(op: Op) -> bool {
    match op {
        Op::Stat { .. } => true,
        Op::Read { .. } => true,
        Op::Put { .. } => true,
        Op::Append { .. } => true,
        Op::Remove { .. } => true,
        Op::List { .. } => true,
        Op::Lock { .. } => true,
        Op::Unlock { .. } => true,
        Op::Clock { .. } => true,
        _ => false,
    }
}

/// Whether a stretch of requests is about files, locks and clocks only, and turned one
/// state of the files into another.
pub open spec fn filework(dir: Files, log: Seq<Op>, dir2: Files, log2: Seq<Op>) -> bool {
    &&& grew(log, log2)
    &&& dir2 == replay(dir, since(log, log2))
    &&& forall|i: int| 0 <= i < since(log, log2).len() ==> is_filework(#[trigger] since(log, log2)[i])
}

pub proof fn lemma_filework_same(dir: Files, log: Seq<Op>)
    ensures
        filework(dir, log, dir, log),
{
    lemma_grew_same(log);
}

pub proof fn lemma_filework_trans(
    d0: Files,
    l0: Seq<Op>,
    d1: Files,
    l1: Seq<Op>,
    d2: Files,
    l2: Seq<Op>,
)
    requires
        filework(d0, l0, d1, l1),
        filework(d1, l1, d2, l2),
    ensures
        filework(d0, l0, d2, l2),
{
    lemma_grew_trans(l0, l1, l2);
    let a = since(l0, l1);
    let b = since(l1, l2);
    lemma_replay_add(d0, a, b);
    assert forall|i: int| 0 <= i < since(l0, l2).len() implies is_filework(
        #[trigger] since(l0, l2)[i],
    ) by {
        if i < a.len() {
            assert(since(l0, l2)[i] == a[i]);
        } else {
            assert(since(l0, l2)[i] == b[i - a.len()]);
        }
    }
}

pub proof fn lemma_filework_one(dir: Files, log: Seq<Op>, op: Op)
    requires
        is_filework(op),
    ensures
        filework(dir, log, replayed(dir, op), log.push(op)),
{
    lemma_grew_same(log);
    lemma_grew_push(log, log, op);
    let ops = since(log, log.push(op));
    assert(ops =~= seq![op]);
    lemma_replay_push(dir, Seq::empty(), op);
    assert(Seq::<Op>::empty().push(op) =~= ops);
    assert(replay(dir, Seq::<Op>::empty()) == dir);
}

pub proof fn lemma_filework_wrote(
    dir: Files,
    log: Seq<Op>,
    op: Op,
    dir2: Files,
    log2: Seq<Op>,
    r: bool,
)
    requires
        wrote(dir, log, op, dir2, log2, r),
        op is Put || op is Append,
    ensures
        filework(dir, log, dir2, log2),
{
    let ops = since(log, log2);
    reveal_with_fuel(replay, 4);
    if r {
        assert(ops.drop_last().drop_last() =~= seq![op]);
        assert(ops.drop_last().last() == ops[1]);
        assert(ops.drop_last().drop_last().drop_last() =~= Seq::empty());
    } else {
        assert(ops.drop_last() =~= Seq::empty());
    }
}

pub proof fn lemma_filework_looked(
    b: BookModel,
    log: Seq<Op>,
    dev: Seq<char>,
    b2: BookModel,
    log2: Seq<Op>,
)
    requires
        note_looked(b, log, dev, b2, log2),
    ensures
        filework(b.dir, log, b2.dir, log2),
{
    let ops = since(log, log2);
    reveal_with_fuel(replay, 6);
    if ops.len() == 1 {
        assert(ops.drop_last() =~= Seq::empty());
    } else {
        let o4 = ops.drop_last();
        let o3 = o4.drop_last();
        assert(o4.last() == ops[3]);
        let o2 = o3.drop_last();
        let o1 = o2.drop_last();
        assert(o3.last() == ops[2]);
        assert(o2.last() == ops[1]);
        assert(o1.last() == ops[0]);
        assert(o1.drop_last() =~= Seq::empty());
    }
}

pub proof fn lemma_filework_written(
    b: BookModel,
    log: Seq<Op>,
    dev: Seq<char>,
    set: Set<Mac>,
    b2: BookModel,
    log2: Seq<Op>,
    r: bool,
)
    requires
        note_written(b, log, dev, set, b2, log2, r),
    ensures
        filework(b.dir, log, b2.dir, log2),
        r ==> owned_in(b2.dir, dev) == set,
{
    lemma_filework_same(b.dir, log);
    if b.readable(dev) {
        let (b1, l1) = choose|b1: BookModel, l1: Seq<Op>| #[trigger]
            note_looked(b, log, dev, b1, l1) && note_put(b1, l1, dev, set, b2, log2, r);
        lemma_filework_looked(b, log, dev, b1, l1);
        lemma_filework_same(b1.dir, l1);
        if b1.readable(dev) && owned_in(b1.dir, dev) != set {
            lemma_filework_wrote(
                b1.dir,
                l1,
                Op::Put { name: note_name(dev), text: note_of(set), refused: None },
                b2.dir,
                log2,
                r,
            );
        }
        lemma_filework_trans(b.dir, log, b1.dir, l1, b2.dir, log2);
    }
}

pub proof fn lemma_filework_extended(
    b: BookModel,
    log: Seq<Op>,
    dev: Seq<char>,
    added: Seq<Mac>,
    b2: BookModel,
    log2: Seq<Op>,
    r: Option<Seq<Mac>>,
)
    requires
        note_extended(b, log, dev, added, b2, log2, r),
    ensures
        filework(b.dir, log, b2.dir, log2),
{
    let (b1, l1) = choose|b1: BookModel, l1: Seq<Op>| #[trigger]
        note_looked(b, log, dev, b1, l1) && note_appended(b1, l1, dev, added, b2, log2, r);
    lemma_filework_looked(b, log, dev, b1, l1);
    lemma_filework_same(b1.dir, l1);
    let t = file_text(b1.dir, note_name(dev));
    let fresh = unnamed(t, added);
    if b1.readable(dev) && fresh.len() > 0 {
        lemma_filework_wrote(
            b1.dir,
            l1,
            Op::Append {
                name: note_name(dev),
                text: lines_text(fresh),
                refused: None,
            },
            b2.dir,
            log2,
            r is Some,
        );
    }
    lemma_filework_trans(b.dir, log, b1.dir, l1, b2.dir, log2);
}

pub proof fn lemma_filework_reduced(
    b: BookModel,
    log: Seq<Op>,
    dev: Seq<char>,
    macs: Set<Mac>,
    b2: BookModel,
    log2: Seq<Op>,
    r: bool,
)
    requires
        note_reduced(b, log, dev, macs, b2, log2, r),
    ensures
        filework(b.dir, log, b2.dir, log2),
{
    lemma_filework_same(b.dir, log);
    if b.readable(dev) {
        let (b1, l1) = choose|b1: BookModel, l1: Seq<Op>| #[trigger]
            note_looked(b, log, dev, b1, l1) && if owned_in(b1.dir, dev).disjoint(macs) {
                r && b2 == b1 && log2 == l1
            } else {
                note_written(b1, l1, dev, owned_in(b1.dir, dev).difference(macs), b2, log2, r)
            };
        lemma_filework_looked(b, log, dev, b1, l1);
        lemma_filework_same(b1.dir, l1);
        if !owned_in(b1.dir, dev).disjoint(macs) {
            lemma_filework_written(
                b1,
                l1,
                dev,
                owned_in(b1.dir, dev).difference(macs),
                b2,
                log2,
                r,
            );
        }
        lemma_filework_trans(b.dir, log, b1.dir, l1, b2.dir, log2);
    }
}

pub proof fn lemma_filework_forgets(
    b: BookModel,
    log: Seq<Op>,
    dev: Seq<char>,
    dropped: Seq<Mac>,
    b2: BookModel,
    log2: Seq<Op>,
)
    requires
        note_forgets(b, log, dev, dropped, b2, log2),
    ensures
        filework(b.dir, log, b2.dir, log2),
{
    lemma_filework_same(b.dir, log);
    if dropped.len() > 0 {
        let (b1, l1, r) = choose|b1: BookModel, l1: Seq<Op>, r: bool|
            #![trigger note_written(
                b1,
                l1,
                dev,
                owned_in(b1.dir, dev).difference(dropped.to_set()),
                b2,
                log2,
                r,
            )]
            note_read(b, log, dev, b1, l1) && note_written(
                b1,
                l1,
                dev,
                owned_in(b1.dir, dev).difference(dropped.to_set()),
                b2,
                log2,
                r,
            );
        lemma_filework_one(b.dir, log, l1.last());
        lemma_filework_written(
            b1,
            l1,
            dev,
            owned_in(b1.dir, dev).difference(dropped.to_set()),
            b2,
            log2,
            r,
        );
        lemma_filework_trans(b.dir, log, b1.dir, l1, b2.dir, log2);
    }
}

pub proof fn lemma_filework_merged(
    b: BookModel,
    log: Seq<Op>,
    dev: Seq<char>,
    before: Set<Mac>,
    after: Set<Mac>,
    b2: BookModel,
    log2: Seq<Op>,
)
    requires
        note_merged(b, log, dev, before, after, b2, log2),
    ensures
        filework(b.dir, log, b2.dir, log2),
{
    let (bl, ll, b1, l1, l2, r) = choose|
        bl: BookModel,
        ll: Seq<Op>,
        b1: BookModel,
        l1: Seq<Op>,
        l2: Seq<Op>,
        r: bool,
    |
        {
            &&& #[trigger] lock_asked(b, log, dev, bl, ll)
            &&& #[trigger] note_read(bl, ll, dev, b1, l1)
            &&& #[trigger] note_written(
                b1,
                l1,
                dev,
                merged_set(owned_in(b1.dir, dev), before, after),
                b2,
                l2,
                r,
            )
            &&& log2 == l2.push(Op::Unlock { dev })
        };
    lemma_filework_one(b.dir, log, ll.last());
    lemma_filework_one(bl.dir, ll, l1.last());
    lemma_filework_trans(b.dir, log, bl.dir, ll, b1.dir, l1);
    let set = merged_set(owned_in(b1.dir, dev), before, after);
    lemma_filework_written(b1, l1, dev, set, b2, l2, r);
    lemma_filework_trans(b.dir, log, b1.dir, l1, b2.dir, l2);
    lemma_filework_one(b2.dir, l2, Op::Unlock { dev });
    lemma_filework_trans(b.dir, log, b2.dir, l2, b2.dir, log2);
}

pub proof fn lemma_filework_removed(
    b: BookModel,
    log: Seq<Op>,
    dev: Seq<char>,
    b2: BookModel,
    log2: Seq<Op>,
)
    requires
        note_removed(b, log, dev, b2, log2),
    ensures
        filework(b.dir, log, b2.dir, log2),
{
}

pub proof fn lemma_filework_index(
    b: BookModel,
    log: Seq<Op>,
    dev: Seq<char>,
    index: u32,
    b2: BookModel,
    log2: Seq<Op>,
)
    requires
        index_noted(b, log, dev, index, b2, log2),
    ensures
        filework(b.dir, log, b2.dir, log2),
{
    lemma_filework_same(b.dir, log);
    if !(b.indices.contains_key(dev) && b.indices[dev] == index) {
        let op = Op::Put { name: index_name(dev), text: index_text(index), refused: None };
        let r = choose|r: bool| #[trigger]
            wrote(b.dir, log, op, b2.dir, log2, r) && put_copied(
                b.copies,
                index_name(dev),
                since(log, log2),
                r,
                b2.copies,
            ) && b2 == (BookModel {
                dir: b2.dir,
                copies: b2.copies,
                indices: b.indices.insert(dev, index),
                ..b.saying_if(!r, index_refused_text(dev, words_in(since(log, log2)[0])))
            });
        lemma_filework_wrote(b.dir, log, op, b2.dir, log2, r);
    }
}

/// The second half of `note_moved`: what is done once both locks have been
/// asked for and the note has been looked at. Its addresses go to the end of
/// the note under the new name, the index beside that, and only then the old
/// note goes.
pub open spec fn note_carried_over(
    b: BookModel,
    log: Seq<Op>,
    from: Seq<char>,
    to: Seq<char>,
    index: u32,
    b2: BookModel,
    log2: Seq<Op>,
    r: bool,
) -> bool {
    if !b.readable(from) {
        !r && b2 == b && log2 == log
    } else if owned_in(b.dir, from) == Set::<Mac>::empty() {
        r && note_removed(b, log, from, b2, log2)
    } else {
        exists|macs: Seq<Mac>, fresh: Option<Seq<Mac>>, bx: BookModel, lx: Seq<Op>|
            {
                &&& sorted_list(macs, owned_in(b.dir, from))
                &&& #[trigger] note_extended(b, log, to, macs, bx, lx, fresh)
                &&& r == (fresh is Some)
                &&& if r {
                    exists|by: BookModel, ly: Seq<Op>| #[trigger]
                        index_noted(bx, lx, to, index, by, ly) && note_removed(
                            by,
                            ly,
                            from,
                            b2,
                            log2,
                        )
                } else {
                    b2 == bx && log2 == lx
                }
            }
    }
}

/// What moving a note to another name comes to, under these two locks.
pub open spec fn note_moved_under(
    b: BookModel,
    log: Seq<Op>,
    first: Seq<char>,
    second: Seq<char>,
    from: Seq<char>,
    to: Seq<char>,
    index: u32,
    b2: BookModel,
    log2: Seq<Op>,
    r: bool,
) -> bool {
    exists|
        ba: BookModel,
        la: Seq<Op>,
        bb: BookModel,
        lb: Seq<Op>,
        bc: BookModel,
        lc: Seq<Op>,
        ld: Seq<Op>,
    |
        {
            &&& #[trigger] lock_asked(b, log, first, ba, la)
            &&& #[trigger] lock_asked(ba, la, second, bb, lb)
            &&& #[trigger] note_looked(bb, lb, from, bc, lc)
            &&& #[trigger] note_carried_over(bc, lc, from, to, index, b2, ld, r)
            &&& log2 == ld.push(Op::Unlock { dev: second }).push(Op::Unlock { dev: first })
        }
}

/// What moving a note to another name comes to: both locks, in the order of
/// their names, a look at the note, the move itself, and the locks let go.
pub open spec fn note_moved(
    b: BookModel,
    log: Seq<Op>,
    from: Seq<char>,
    to: Seq<char>,
    index: u32,
    b2: BookModel,
    log2: Seq<Op>,
    r: bool,
) -> bool {
    if from == to {
        r && b2 == b && log2 == log
    } else if name_le(from, to) {
        note_moved_under(b, log, from, to, from, to, index, b2, log2, r)
    } else {
        note_moved_under(b, log, to, from, from, to, index, b2, log2, r)
    }
}

/// Whether none of these requests is about any other file.
pub open spec fn only_about(ops: Seq<Op>, name: Seq<char>) -> bool {
    forall|i: int|
        0 <= i < ops.len() ==> op_name(#[trigger] ops[i]) is None || op_name(ops[i]) == Some(name)
}

proof fn lemma_extended_only_about(
    b: BookModel,
    log: Seq<Op>,
    dev: Seq<char>,
    added: Seq<Mac>,
    b2: BookModel,
    log2: Seq<Op>,
    r: Option<Seq<Mac>>,
)
    requires
        note_extended(b, log, dev, added, b2, log2, r),
    ensures
        only_about(since(log, log2), note_name(dev)),
{
    let (b1, l1) = choose|b1: BookModel, l1: Seq<Op>| #[trigger]
        note_looked(b, log, dev, b1, l1) && note_appended(b1, l1, dev, added, b2, log2, r);
    lemma_grew_same(l1);
    let name = note_name(dev);
    let a = since(log, l1);
    let z = since(l1, log2);
    assert(only_about(a, name)) by {
        assert forall|i: int| 0 <= i < a.len() implies op_name(#[trigger] a[i]) is None || op_name(
            a[i],
        ) == Some(name) by {
            assert(i == 0 || i == 1 || i == 2 || i == 3 || i == 4);
        }
    }
    assert(only_about(z, name)) by {
        assert forall|i: int| 0 <= i < z.len() implies op_name(#[trigger] z[i]) is None || op_name(
            z[i],
        ) == Some(name) by {
            assert(i == 0 || i == 1 || i == 2);
        }
    }
    lemma_grew_trans(log, l1, log2);
    assert forall|i: int| 0 <= i < since(log, log2).len() implies op_name(
        #[trigger] since(log, log2)[i],
    ) is None || op_name(since(log, log2)[i]) == Some(name) by {
        if i < a.len() {
            assert(since(log, log2)[i] == a[i]);
        } else {
            assert(since(log, log2)[i] == z[i - a.len()]);
        }
    }
}

proof fn lemma_index_only_about(
    b: BookModel,
    log: Seq<Op>,
    dev: Seq<char>,
    index: u32,
    b2: BookModel,
    log2: Seq<Op>,
)
    requires
        index_noted(b, log, dev, index, b2, log2),
    ensures
        only_about(since(log, log2), index_name(dev)),
{
    lemma_grew_same(log);
    let z = since(log, log2);
    assert forall|i: int| 0 <= i < z.len() implies op_name(#[trigger] z[i]) is None || op_name(z[i])
        == Some(index_name(dev)) by {
        assert(i == 0 || i == 1 || i == 2);
    }
}

/// While a note is moved to another name, every address it named is named by
/// the one or by the other at every moment: a crash leaves an address named
/// twice rather than nowhere.
#[verifier::spinoff_prover]
pub proof fn moved_note_is_never_lost(
    b: BookModel,
    log: Seq<Op>,
    from: Seq<char>,
    to: Seq<char>,
    index: u32,
    b2: BookModel,
    log2: Seq<Op>,
    r: bool,
    k: int,
    m: Mac,
)
    requires
        from != to,
        note_carried_over(b, log, from, to, index, b2, log2, r),
        0 <= k <= since(log, log2).len(),
        owned_in(b.dir, from).contains(m),
    ensures
        owned_in(replay(b.dir, since(log, log2).take(k)), from).contains(m) || owned_in(
            replay(b.dir, since(log, log2).take(k)),
            to,
        ).contains(m),
{
    let ops = since(log, log2);
    if !b.readable(from) {
        lemma_grew_same(log);
        assert(ops.take(k) =~= Seq::empty());
    } else {
        assert(owned_in(b.dir, from) != Set::<Mac>::empty());
        let (macs, fresh, bx, lx) = choose|
            macs: Seq<Mac>,
            fresh: Option<Seq<Mac>>,
            bx: BookModel,
            lx: Seq<Op>,
        |
            {
                &&& sorted_list(macs, owned_in(b.dir, from))
                &&& #[trigger] note_extended(b, log, to, macs, bx, lx, fresh)
                &&& r == (fresh is Some)
                &&& if r {
                    exists|by: BookModel, ly: Seq<Op>| #[trigger]
                        index_noted(bx, lx, to, index, by, ly) && note_removed(
                            by,
                            ly,
                            from,
                            b2,
                            log2,
                        )
                } else {
                    b2 == bx && log2 == lx
                }
            };
        appended_addresses_are_named(b, log, to, macs, bx, lx, fresh);
        lemma_filework_extended(b, log, to, macs, bx, lx, fresh);
        lemma_extended_only_about(b, log, to, macs, bx, lx, fresh);
        assert(macs.to_set().contains(m));
        lemma_kinds_differ(from, to);
        lemma_kinds_differ(to, from);
        lemma_kinds_differ(to, to);
        if note_name(from) == note_name(to) {
            lemma_note_name(from, to);
        }
        let first = since(log, lx);
        assert(leaves_alone(first, note_name(from)));
        if r {
            let (by, ly) = choose|by: BookModel, ly: Seq<Op>| #[trigger]
                index_noted(bx, lx, to, index, by, ly) && note_removed(by, ly, from, b2, log2);
            lemma_filework_index(bx, lx, to, index, by, ly);
            lemma_index_only_about(bx, lx, to, index, by, ly);
            let second = since(lx, ly);
            let third = since(ly, log2);
            lemma_grew_trans(log, lx, ly);
            lemma_grew_trans(log, ly, log2);
            assert(leaves_alone(second, note_name(from)));
            assert(leaves_alone(second, note_name(to)));
            assert(leaves_alone(third, note_name(to)));
            lemma_named_all_along(b.dir, first, second, third, note_name(from), note_name(to), k, m);
        } else {
            let head = ops.take(k);
            assert(leaves_alone(head, note_name(from))) by {
                assert forall|i: int| 0 <= i < head.len() implies op_name(#[trigger] head[i])
                    != Some(note_name(from)) by {
                    assert(head[i] == first[i]);
                }
            }
            lemma_left_alone(b.dir, head, note_name(from));
        }
    }
}

/// An address that one file names, and another once `first` has been asked, is
/// named by the one or the other all along: nothing touches the one before the
/// last stretch, nor the other after the first.
#[verifier::spinoff_prover]
proof fn lemma_named_all_along(
    dir: Files,
    first: Seq<Op>,
    second: Seq<Op>,
    third: Seq<Op>,
    from: Seq<char>,
    to: Seq<char>,
    k: int,
    m: Mac,
)
    requires
        leaves_alone(first, from),
        leaves_alone(second, from),
        leaves_alone(second, to),
        leaves_alone(third, to),
        note_macs(file_text(dir, from)).contains(m),
        note_macs(file_text(replay(dir, first), to)).contains(m),
        0 <= k <= (first + second + third).len(),
    ensures
        note_macs(file_text(replay(dir, (first + second + third).take(k)), from)).contains(m)
            || note_macs(file_text(replay(dir, (first + second + third).take(k)), to)).contains(m),
{
    let ops = first + second + third;
    let n = first.len() + second.len();
    if k <= n {
        let head = ops.take(k);
        assert(leaves_alone(head, from)) by {
            assert forall|i: int| 0 <= i < head.len() implies op_name(#[trigger] head[i]) != Some(
                from,
            ) by {
                if i < first.len() {
                    assert(head[i] == first[i]);
                } else {
                    assert(head[i] == second[i - first.len()]);
                }
            }
        }
        lemma_left_alone(dir, head, from);
    } else {
        let tail = second + third.take(k - n);
        assert(ops.take(k) =~= first + tail);
        lemma_replay_add(dir, first, tail);
        assert(leaves_alone(tail, to)) by {
            assert forall|i: int| 0 <= i < tail.len() implies op_name(#[trigger] tail[i]) != Some(
                to,
            ) by {
                if i < second.len() {
                    assert(tail[i] == second[i]);
                } else {
                    assert(tail[i] == third[i - second.len()]);
                }
            }
        }
        lemma_left_alone(replay(dir, first), tail, to);
    }
}

/// A move writes notes and nothing else.
pub proof fn lemma_filework_moved(
    b: BookModel,
    log: Seq<Op>,
    from: Seq<char>,
    to: Seq<char>,
    index: u32,
    b2: BookModel,
    log2: Seq<Op>,
    r: bool,
)
    requires
        note_moved(b, log, from, to, index, b2, log2, r),
    ensures
        filework(b.dir, log, b2.dir, log2),
{
    lemma_filework_same(b.dir, log);
    if from != to {
        let (first, second) = if name_le(from, to) {
            (from, to)
        } else {
            (to, from)
        };
        let (ba, la, bb, lb, bc, lc, ld) = choose|
            ba: BookModel,
            la: Seq<Op>,
            bb: BookModel,
            lb: Seq<Op>,
            bc: BookModel,
            lc: Seq<Op>,
            ld: Seq<Op>,
        |
            {
                &&& #[trigger] lock_asked(b, log, first, ba, la)
                &&& #[trigger] lock_asked(ba, la, second, bb, lb)
                &&& #[trigger] note_looked(bb, lb, from, bc, lc)
                &&& #[trigger] note_carried_over(bc, lc, from, to, index, b2, ld, r)
                &&& log2 == ld.push(Op::Unlock { dev: second }).push(Op::Unlock { dev: first })
            };
        lemma_filework_one(b.dir, log, la.last());
        lemma_filework_one(ba.dir, la, lb.last());
        lemma_filework_trans(b.dir, log, ba.dir, la, bb.dir, lb);
        lemma_filework_looked(bb, lb, from, bc, lc);
        lemma_filework_trans(b.dir, log, bb.dir, lb, bc.dir, lc);
        lemma_filework_carried_over(bc, lc, from, to, index, b2, ld, r);
        lemma_filework_trans(b.dir, log, bc.dir, lc, b2.dir, ld);
        let u = Op::Unlock { dev: second };
        lemma_filework_one(b2.dir, ld, u);
        lemma_filework_trans(b.dir, log, b2.dir, ld, b2.dir, ld.push(u));
        lemma_filework_one(b2.dir, ld.push(u), Op::Unlock { dev: first });
        lemma_filework_trans(b.dir, log, b2.dir, ld.push(u), b2.dir, log2);
    }
}

proof fn lemma_filework_carried_over(
    b: BookModel,
    log: Seq<Op>,
    from: Seq<char>,
    to: Seq<char>,
    index: u32,
    b2: BookModel,
    log2: Seq<Op>,
    r: bool,
)
    requires
        note_carried_over(b, log, from, to, index, b2, log2, r),
    ensures
        filework(b.dir, log, b2.dir, log2),
{
    lemma_filework_same(b.dir, log);
    if b.readable(from) && owned_in(b.dir, from) != Set::<Mac>::empty() {
        let (macs, fresh, bx, lx) = choose|
            macs: Seq<Mac>,
            fresh: Option<Seq<Mac>>,
            bx: BookModel,
            lx: Seq<Op>,
        |
            {
                &&& sorted_list(macs, owned_in(b.dir, from))
                &&& #[trigger] note_extended(b, log, to, macs, bx, lx, fresh)
                &&& r == (fresh is Some)
                &&& if r {
                    exists|by: BookModel, ly: Seq<Op>| #[trigger]
                        index_noted(bx, lx, to, index, by, ly) && note_removed(
                            by,
                            ly,
                            from,
                            b2,
                            log2,
                        )
                } else {
                    b2 == bx && log2 == lx
                }
            };
        lemma_filework_extended(b, log, to, macs, bx, lx, fresh);
        if r {
            let (by, ly) = choose|by: BookModel, ly: Seq<Op>| #[trigger]
                index_noted(bx, lx, to, index, by, ly) && note_removed(by, ly, from, b2, log2);
            lemma_filework_index(bx, lx, to, index, by, ly);
            lemma_filework_trans(b.dir, log, bx.dir, lx, by.dir, ly);
            lemma_filework_removed(by, ly, from, b2, log2);
            lemma_filework_trans(b.dir, log, by.dir, ly, b2.dir, log2);
        }
    } else if b.readable(from) {
        lemma_filework_removed(b, log, from, b2, log2);
    }
}

/// What a list of the devices with a note comes to for a caller that can only
/// shrug at a failure: none, and a mark.
pub open spec fn devices_or_none(
    b: BookModel,
    log: Seq<Op>,
    b2: BookModel,
    log2: Seq<Op>,
    devs: Seq<Seq<char>>,
) -> bool {
    exists|r: Result<Seq<Seq<char>>, Refused>| #[trigger]
        devices_asked(log, log2, r) && match r {
            Ok(v) => devs == v && b2 == b,
            Err(e) => devs == Seq::<Seq<char>>::empty() && b2 == (BookModel {
                dir_list_warned: true,
                ..b.saying_if(!b.dir_list_warned, unlisted_text(b.place, e.words))
            }),
        }
}

/// One moment of a run: what is known, and what has been asked so far.
pub struct Stage {
    pub book: BookModel,
    pub log: Seq<Op>,
}

/// Whether the notes of these devices were looked at one after the other, with
/// these moments before and after.
pub open spec fn looked_each(devs: Seq<Seq<char>>, stages: Seq<Stage>) -> bool {
    &&& stages.len() == devs.len() + 1
    &&& forall|i: int|
        #![trigger devs[i]]
        0 <= i < devs.len() ==> note_looked(
            stages[i].book,
            stages[i].log,
            devs[i],
            stages[i + 1].book,
            stages[i + 1].log,
        )
}

/// How many addresses the notes of these devices named together, each when it
/// was looked at.
pub open spec fn noted_total(devs: Seq<Seq<char>>, stages: Seq<Stage>) -> nat
    decreases devs.len(),
{
    if devs.len() == 0 {
        0
    } else {
        noted_total(devs.drop_last(), stages.drop_last()) + owned_in(
            stages.last().book.dir,
            devs.last(),
        ).len()
    }
}

/// What counting the addresses on record comes to: as many as the notes name
/// together, as far as a machine can count.
pub open spec fn notes_counted(
    b: BookModel,
    log: Seq<Op>,
    b2: BookModel,
    log2: Seq<Op>,
    r: usize,
) -> bool {
    exists|devs: Seq<Seq<char>>, stages: Seq<Stage>|
        {
            &&& #[trigger] looked_each(devs, stages)
            &&& devices_or_none(b, log, stages[0].book, stages[0].log, devs)
            &&& b2 == stages.last().book && log2 == stages.last().log
            &&& r == if noted_total(devs, stages) <= usize::MAX {
                noted_total(devs, stages)
            } else {
                usize::MAX as nat
            }
        }
}

/// What noting a probe comes to: the index beside the note, and, but for a dry
/// run, the address on it, under its lock.
pub open spec fn probe_noted(
    b: BookModel,
    log: Seq<Op>,
    dev: Seq<char>,
    index: u32,
    mac: Mac,
    dry_run: bool,
    b2: BookModel,
    log2: Seq<Op>,
    r: bool,
) -> bool {
    exists|bx: BookModel, lx: Seq<Op>| #[trigger]
        index_noted(b, log, dev, index, bx, lx) && if dry_run {
            r && b2 == bx && log2 == lx
        } else {
            exists|bl: BookModel, ll: Seq<Op>, l2: Seq<Op>, fresh: Option<Seq<Mac>>|
                {
                    &&& #[trigger] lock_asked(bx, lx, dev, bl, ll)
                    &&& #[trigger] note_extended(bl, ll, dev, seq![mac], b2, l2, fresh)
                    &&& log2 == l2.push(Op::Unlock { dev })
                    &&& r == (fresh is Some)
                }
        }
}

/// What taking a probe off a note comes to: nothing where the note does not
/// name it, otherwise its line goes, under the lock.
pub open spec fn probe_forgotten(
    b: BookModel,
    log: Seq<Op>,
    dev: Seq<char>,
    mac: Mac,
    b2: BookModel,
    log2: Seq<Op>,
) -> bool {
    exists|b1: BookModel, l1: Seq<Op>| #[trigger]
        note_looked(b, log, dev, b1, l1) && if owned_in(b1.dir, dev).contains(mac) {
            exists|bl: BookModel, ll: Seq<Op>, l2: Seq<Op>|
                {
                    &&& #[trigger] lock_asked(b1, l1, dev, bl, ll)
                    &&& #[trigger] line_dropped(bl, ll, dev, mac, b2, l2)
                    &&& log2 == l2.push(Op::Unlock { dev })
                }
        } else {
            b2 == b1 && log2 == l1
        }
}

impl Notebook {
    /// No note read, and nothing said yet.
    pub fn new(place: String) -> (r: Self)
        ensures
            r@.place == place@,
            r@.dir == Map::<Seq<char>, Option<Seq<char>>>::empty(),
            r@.copies == Map::<Seq<char>, (Meta, Wall)>::empty(),
            r@.indices == Map::<Seq<char>, u32>::empty(),
            forall|d: Seq<char>| !r@.said.mentions(d),
            !r@.dir_list_warned,
            r@.journal == Seq::<Seq<char>>::empty(),
    {
        let r = Notebook {
            place,
            dir: StateDir::new(),
            indices: KeyMap::new(),
            said: Said::new(),
            dir_list_warned: false,
            journal: Vec::new(),
        };
        assert(r@.journal =~= Seq::<Seq<char>>::empty());
        r
    }

    /// One more line for the journal.
    pub(crate) fn say(&mut self, line: String)
        ensures
            final(self)@ == old(self)@.saying(line@),
    {
        let ghost before = self.journal@;
        self.journal.push(line);
        assert(texts(self.journal@) =~= texts(before).push(line@));
    }

    /// More lines for the journal.
    pub(crate) fn say_all(&mut self, lines: Vec<String>)
        ensures
            final(self)@ == old(self)@.saying_all(texts(lines@)),
    {
        let ghost before = self.journal@;
        let ghost more = lines@;
        let mut lines = lines;
        self.journal.append(&mut lines);
        assert(texts(self.journal@) =~= texts(before) + texts(more));
    }

    /// What the copy of a note names.
    fn named(&self, dev: &String) -> (r: KeySet<Mac>)
        ensures
            r@ == owned_in(self@.dir, dev@),
    {
        match self.dir.text(&note_file(dev)) {
            Some(t) => read_note(t),
            None => read_note(&String::new()),
        }
    }

    /// Where a device's note is.
    fn note_path(&self, dev: &String) -> (r: String)
        ensures
            r@ == state_path(self@.place, note_name(dev@)),
    {
        path_in(&self.place, &note_file(dev))
    }

    /// Remembers whether a note could be read, and says so where that is news.
    fn mark_readable(&mut self, dev: &String, trouble: Option<String>, found: Ghost<Found>)
        requires
            match trouble {
                Some(w) => found@ == Found::Unreadable(w@),
                None => !(found@ is Unreadable),
            },
        ensures
            final(self)@ == old(self)@.marked(dev@, found@),
    {
        match trouble {
            Some(w) => {
                if self.said.unreadable.insert(dev.clone()) {
                    let line = say_unreadable(&self.note_path(dev), &w);
                    self.say(line);
                }
            },
            None => {
                if self.said.unreadable.remove(dev) {
                    let line = say_readable(&self.note_path(dev), dev);
                    self.say(line);
                }
            },
        }
    }

    /// Says which lines of a note name no address.
    fn say_bad(&mut self, dev: &String)
        ensures
            final(self)@ == old(self)@.saying_all(bad_in(old(self)@.place, old(self)@.dir, dev@)),
    {
        match self.dir.text(&note_file(dev)) {
            Some(t) => {
                let said = say_bad_lines(&path_in(&self.place, &note_file(dev)), t);
                self.say_all(said);
            },
            None => {
                proof {
                    let t = file_text(self@.dir, note_name(dev@));
                    assert(t =~= Seq::<char>::empty());
                    assert(lines(t) =~= Seq::<Seq<char>>::empty());
                    let j = self@.journal;
                    assert(j + bad_in(self@.place, self@.dir, dev@) =~= j);
                }
            },
        }
    }

    /// What a note names, read afresh. A note that cannot be read is put on
    /// hold: it names nothing that anybody could tell, which is not the same
    /// as nothing.
    pub fn read_owned<W: FdbWriter>(
        &mut self,
        sock: &mut Recorded<W>,
        dev: &String,
    ) -> (r: KeySet<Mac>)
        ensures
            final(sock).marks() == old(sock).marks(),
            note_read(old(self)@, old(sock).log(), dev@, final(self)@, final(sock).log()),
            r@ == owned_in(final(self)@.dir, dev@),
    {
        let name = note_file(dev);
        let trouble = self.dir.fetch(sock, &name);
        let ghost op = sock.log().last();
        self.say_bad(dev);
        self.mark_readable(dev, trouble, Ghost(op->found));
        self.named(dev)
    }

    /// What a note names. The files are the truth: somebody else may write them
    /// while the daemon runs, and a remembered copy is believed only while the
    /// file still looks the way it did.
    pub fn load_owned<W: FdbWriter>(
        &mut self,
        sock: &mut Recorded<W>,
        dev: &String,
    ) -> (r: KeySet<Mac>)
        ensures
            final(sock).marks() == old(sock).marks(),
            note_looked(old(self)@, old(sock).log(), dev@, final(self)@, final(sock).log()),
            r@ == owned_in(final(self)@.dir, dev@),
    {
        let name = note_file(dev);
        let (believed, steady, trouble) = self.dir.look(sock, &name);
        if !believed {
            let unreadable = trouble.is_some();
            let ghost op = since(old(sock).log(), sock.log())[2];
            self.say_bad(dev);
            self.mark_readable(dev, trouble, Ghost(op->found));
            if unreadable || !steady {
                let _ = self.indices.remove(dev);
            }
        }
        self.named(dev)
    }

    /// Whether the note for this device could be read when it was last looked
    /// at. Everything that would replace or remove it has to ask first.
    pub fn note_is_readable(&self, dev: &String) -> (r: bool)
        ensures
            r == self@.readable(dev@),
    {
        !self.said.unreadable.contains(dev)
    }

    /// Asks for the lock of a note.
    pub fn locked<W: FdbWriter>(&mut self, sock: &mut Recorded<W>, dev: &String)
        ensures
            final(sock).marks() == old(sock).marks(),
            lock_asked(old(self)@, old(sock).log(), dev@, final(self)@, final(sock).log()),
    {
        if let Err(e) = sock.lock(dev) {
            if self.said.lock.insert(dev.clone()) {
                let path = path_in(&self.place, &lock_file(dev));
                let line = if e.opened {
                    say_unlocked(&path, dev, &e.why.words)
                } else {
                    say_unopened(&path, dev, &e.why.words)
                };
                self.say(line);
            }
        }
    }

    /// Makes a note name exactly `set`. Returns whether it does now: a caller
    /// that registered on the strength of it has to know.
    pub fn write_owned<W: FdbWriter>(
        &mut self,
        sock: &mut Recorded<W>,
        dev: &String,
        set: &KeySet<Mac>,
    ) -> (r: bool)
        ensures
            final(sock).marks() == old(sock).marks(),
            note_written(
                old(self)@,
                old(sock).log(),
                dev@,
                set@,
                final(self)@,
                final(sock).log(),
                r,
            ),
    {
        if !self.note_is_readable(dev) {
            self.say(say_on_hold(dev));
            return false;
        }
        let cur = self.load_owned(sock, dev);
        let ghost b1 = self@;
        let ghost l1 = sock.log();
        assert(note_looked(old(self)@, old(sock).log(), dev@, b1, l1));
        if !self.note_is_readable(dev) {
            self.say(say_on_hold(dev));
            assert(note_put(b1, l1, dev@, set@, self@, sock.log(), false));
            return false;
        }
        if cur.equals(set) {
            return true;
        }
        let ms = list_in_order(set);
        let text = write_lines(&ms);
        let written = self.dir.put(sock, &note_file(dev), &text);
        let r = written.is_ok();
        if let Err(e) = written {
            self.say(say_unwritten(dev, &e.words));
        }
        proof {
            note_reads_back(sorted_macs(set@));
            assert(note_put(b1, l1, dev@, set@, self@, sock.log(), r));
        }
        r
    }

    /// Adds addresses to a note without rewriting it, the lock already held.
    /// Returns those that were not on it; only a line this call added may be
    /// taken back out. `None` when the note could not take them; the caller
    /// then writes none of them into the card.
    pub fn append_owned_locked<W: FdbWriter>(
        &mut self,
        sock: &mut Recorded<W>,
        dev: &String,
        added: &Vec<Mac>,
    ) -> (r: Option<Vec<Mac>>)
        ensures
            final(sock).marks() == old(sock).marks(),
            note_extended(
                old(self)@,
                old(sock).log(),
                dev@,
                added@,
                final(self)@,
                final(sock).log(),
                opt_list(r),
            ),
    {
        let name = note_file(dev);
        let owned = self.load_owned(sock, dev);
        let ghost b1 = self@;
        let ghost l1 = sock.log();
        assert(note_looked(old(self)@, old(sock).log(), dev@, b1, l1));
        if !self.note_is_readable(dev) {
            assert(note_appended(b1, l1, dev@, added@, self@, sock.log(), None));
            return None;
        }
        let ghost t = file_text(self@.dir, note_name(dev@));
        if names_all(&owned, added) {
            let none: Vec<Mac> = Vec::new();
            proof {
                reveal(Seq::filter);
                assert(none@ =~= newly_named(t, added@));
            }
            assert(note_appended(b1, l1, dev@, added@, self@, sock.log(), Some(none@)));
            return Some(none);
        }
        let cs: Vec<char> = match self.dir.text(&name) {
            Some(text) => chars_of(text),
            None => Vec::new(),
        };
        assert(cs@ =~= t);
        let rows = lines_to_add(&cs, added);
        assert(rows@ == unnamed(t, added@));
        let fresh = not_among(&rows, &owned);
        assert(fresh@ == newly_named(t, added@));
        if rows.len() == 0 {
            assert(note_appended(b1, l1, dev@, added@, self@, sock.log(), Some(fresh@)));
            return Some(fresh);
        }
        let text = write_lines(&rows);
        let done = self.dir.append(sock, &name, &text);
        let written = done.is_ok();
        if let Err(e) = done {
            self.say(say_unadded(dev, &e.words));
        }
        let ghost r: Option<Seq<Mac>> = if written {
            Some(fresh@)
        } else {
            None
        };
        assert(note_appended(b1, l1, dev@, added@, self@, sock.log(), r));
        if written {
            Some(fresh)
        } else {
            None
        }
    }

    /// Adds addresses to a note, under its lock. Whether it names them now. A
    /// dry run writes nothing.
    pub fn append_owned<W: FdbWriter>(
        &mut self,
        sock: &mut Recorded<W>,
        dev: &String,
        added: &Vec<Mac>,
        dry_run: bool,
    ) -> (r: bool)
        ensures
            final(sock).marks() == old(sock).marks(),
            if dry_run || added@.len() == 0 {
                r && final(self)@ == old(self)@ && final(sock).log() == old(sock).log()
            } else {
                exists|bl: BookModel, ll: Seq<Op>, l2: Seq<Op>, fresh: Option<Seq<Mac>>|
                    {
                        &&& #[trigger] lock_asked(old(self)@, old(sock).log(), dev@, bl, ll)
                        &&& #[trigger] note_extended(bl, ll, dev@, added@, final(self)@, l2, fresh)
                        &&& final(sock).log() == l2.push(Op::Unlock { dev: dev@ })
                        &&& r == (fresh is Some)
                    }
            },
            r && !dry_run ==> forall|m: Mac| #[trigger]
                added@.contains(m) ==> owned_in(final(self)@.dir, dev@).contains(m),
    {
        if dry_run || added.len() == 0 {
            return true;
        }
        self.locked(sock, dev);
        let ghost bl = self@;
        let ghost ll = sock.log();
        let fresh = self.append_owned_locked(sock, dev, added);
        let ghost l2 = sock.log();
        let ghost f = opt_list(fresh);
        proof {
            assert(note_extended(bl, ll, dev@, added@, self@, l2, f));
            appended_addresses_are_named(bl, ll, dev@, added@, self@, l2, f);
        }
        sock.unlock(dev);
        fresh.is_some()
    }

    /// Takes addresses back off a note, the lock already held - for an intent
    /// that turned out to be somebody else's entry. Whether the note agrees.
    pub fn unnote_locked<W: FdbWriter>(
        &mut self,
        sock: &mut Recorded<W>,
        dev: &String,
        macs: &Vec<Mac>,
    ) -> (r: bool)
        ensures
            final(sock).marks() == old(sock).marks(),
            note_reduced(
                old(self)@,
                old(sock).log(),
                dev@,
                macs@.to_set(),
                final(self)@,
                final(sock).log(),
                r,
            ),
    {
        if !self.note_is_readable(dev) {
            return false;
        }
        let before = self.load_owned(sock, dev);
        let ghost b1 = self@;
        let ghost l1 = sock.log();
        assert(note_looked(old(self)@, old(sock).log(), dev@, b1, l1));
        let mut after = before.dup();
        after.subtract_list(macs);
        proof {
            lemma_mac_models(macs@);
        }
        let same = after.equals(&before);
        proof {
            let gone = macs@.to_set();
            if before@.disjoint(gone) {
                assert(before@.difference(gone) =~= before@);
            }
            if before@.difference(gone) == before@ {
                assert forall|m: Mac| before@.contains(m) implies !gone.contains(m) by {
                    assert(before@.difference(gone).contains(m));
                }
                assert(before@.disjoint(gone));
            }
        }
        if same {
            return true;
        }
        self.write_owned(sock, dev, &after)
    }

    /// Takes addresses off a note as a difference against what it says now, so
    /// that a line somebody else added meanwhile stays. The lock is held.
    pub fn forget_locked<W: FdbWriter>(
        &mut self,
        sock: &mut Recorded<W>,
        dev: &String,
        dropped: &Vec<Mac>,
    )
        ensures
            final(sock).marks() == old(sock).marks(),
            note_forgets(
                old(self)@,
                old(sock).log(),
                dev@,
                dropped@,
                final(self)@,
                final(sock).log(),
            ),
    {
        if dropped.len() == 0 {
            return;
        }
        let mut fin = self.read_owned(sock, dev);
        let ghost b1 = self@;
        let ghost l1 = sock.log();
        fin.subtract_list(dropped);
        proof {
            lemma_mac_models(dropped@);
        }
        let r = self.write_owned(sock, dev, &fin);
        assert(note_written(
            b1,
            l1,
            dev@,
            owned_in(b1.dir, dev@).difference(dropped@.to_set()),
            self@,
            sock.log(),
            r,
        ));
    }

    /// Writes a note as the difference its caller made, not as the set it
    /// started from: whatever else has been added meanwhile stays. A dry run
    /// writes nothing.
    pub fn save_owned_merged<W: FdbWriter>(
        &mut self,
        sock: &mut Recorded<W>,
        dev: &String,
        before: &KeySet<Mac>,
        after: &KeySet<Mac>,
        dry_run: bool,
    )
        ensures
            final(sock).marks() == old(sock).marks(),
            if dry_run {
                final(self)@ == old(self)@ && final(sock).log() == old(sock).log()
            } else {
                note_merged(
                    old(self)@,
                    old(sock).log(),
                    dev@,
                    before@,
                    after@,
                    final(self)@,
                    final(sock).log(),
                )
            },
    {
        if dry_run {
            return;
        }
        self.locked(sock, dev);
        let ghost bl = self@;
        let ghost ll = sock.log();
        let mut merged = self.read_owned(sock, dev);
        let ghost b1 = self@;
        let ghost l1 = sock.log();
        let ghost current = merged@;
        let mut put_in = after.dup();
        put_in.subtract_list(before.list());
        let mut take_out = before.dup();
        take_out.subtract_list(after.list());
        merged.extend(&put_in);
        merged.subtract_list(take_out.list());
        assert(merged@ =~= merged_set(current, before@, after@));
        let r = self.write_owned(sock, dev, &merged);
        let ghost l2 = sock.log();
        sock.unlock(dev);
        proof {
            assert(lock_asked(old(self)@, old(sock).log(), dev@, bl, ll));
            assert(note_read(bl, ll, dev@, b1, l1));
            assert(note_written(
                b1,
                l1,
                dev@,
                merged_set(owned_in(b1.dir, dev@), before@, after@),
                self@,
                l2,
                r,
            ));
        }
    }

    /// Seeds a note with exactly this set, under its lock. A dry run writes
    /// nothing.
    pub fn save_owned<W: FdbWriter>(
        &mut self,
        sock: &mut Recorded<W>,
        dev: &String,
        set: &KeySet<Mac>,
        dry_run: bool,
    )
        ensures
            final(sock).marks() == old(sock).marks(),
            if dry_run {
                final(self)@ == old(self)@ && final(sock).log() == old(sock).log()
            } else {
                exists|bl: BookModel, ll: Seq<Op>, l2: Seq<Op>, r: bool|
                    {
                        &&& #[trigger] lock_asked(old(self)@, old(sock).log(), dev@, bl, ll)
                        &&& #[trigger] note_written(bl, ll, dev@, set@, final(self)@, l2, r)
                        &&& final(sock).log() == l2.push(Op::Unlock { dev: dev@ })
                    }
            },
    {
        if dry_run {
            return;
        }
        self.locked(sock, dev);
        let ghost bl = self@;
        let ghost ll = sock.log();
        let r = self.write_owned(sock, dev, set);
        let ghost l2 = sock.log();
        sock.unlock(dev);
        assert(note_written(bl, ll, dev@, set@, self@, l2, r));
    }

    /// A note that is settled: the file, its index record and its quiet memory
    /// go together.
    pub fn remove_note<W: FdbWriter>(&mut self, sock: &mut Recorded<W>, dev: &String)
        ensures
            final(sock).marks() == old(sock).marks(),
            note_removed(old(self)@, old(sock).log(), dev@, final(self)@, final(sock).log()),
    {
        let ghost l0 = sock.log();
        let ghost d0 = self@.dir;
        let _ = self.dir.erase(sock, &note_file(dev));
        let ghost l1 = sock.log();
        let _ = self.dir.erase(sock, &index_file(dev));
        let ghost l2 = sock.log();
        let _ = self.dir.erase(sock, &ports_file(dev));
        let ghost l3 = sock.log();
        let _ = self.indices.remove(dev);
        proof {
            let ops = seq![l1.last(), l2.last(), l3.last()];
            assert(l3.take(l0.len() as int) =~= l0);
            assert(since(l0, l3) =~= ops);
            assert(ops.drop_last() =~= seq![l1.last(), l2.last()]);
            assert(ops.drop_last().drop_last() =~= seq![l1.last()]);
            assert(ops.drop_last().drop_last().drop_last() =~= Seq::empty());
            reveal_with_fuel(replay, 4);
        }
    }

    /// Takes one address out of a note without touching the rest: the other
    /// lines keep their text and their order. The lock is held.
    pub fn drop_line_locked<W: FdbWriter>(
        &mut self,
        sock: &mut Recorded<W>,
        dev: &String,
        mac: &Mac,
    )
        ensures
            final(sock).marks() == old(sock).marks(),
            line_dropped(
                old(self)@,
                old(sock).log(),
                dev@,
                *mac,
                final(self)@,
                final(sock).log(),
            ),
    {
        let name = note_file(dev);
        self.dir.fetch(sock, &name);
        let ghost d1 = self@.dir;
        let ghost c1 = self@.copies;
        let ghost l1 = sock.log();
        assert(file_read(old(self)@, old(sock).log(), name@, self@, l1));
        let kept: Vec<Vec<char>> = match self.dir.text(&name) {
            Some(t) => take_line_out(t, mac),
            None => {
                return;
            },
        };
        proof {
            assert(views(kept@).len() == kept@.len());
        }
        if kept.len() == 0 {
            self.remove_note(sock, dev);
            return;
        }
        let text = write_text(&kept);
        let written = self.dir.put(sock, &name, &text);
        let r = written.is_ok();
        // what is remembered of the note is about a file that has changed
        self.dir.distrust(&name);
        if let Err(e) = written {
            self.say(say_unwritten(dev, &e.words));
        }
        assert(self@.copies =~= c1.remove(name@));
        assert(wrote(
            d1,
            l1,
            Op::Put { name: name@, text: text@, refused: None },
            self@.dir,
            sock.log(),
            r,
        ));
    }

    /// Records which interface a device's note is about - beside the note, so
    /// that the note stays a plain address list. The recorded index tells a
    /// rename from a device that is really gone.
    pub fn note_index<W: FdbWriter>(&mut self, sock: &mut Recorded<W>, dev: &String, index: u32)
        ensures
            final(sock).marks() == old(sock).marks(),
            index_noted(
                old(self)@,
                old(sock).log(),
                dev@,
                index,
                final(self)@,
                final(sock).log(),
            ),
    {
        if let Some(i) = self.indices.get(dev) {
            if *i == index {
                return;
            }
        }
        let mut text = String::new();
        push_number(&mut text, index as u64);
        text.push('\n');
        assert(text@ =~= index_text(index));
        let written = self.dir.put(sock, &index_file(dev), &text);
        let r = written.is_ok();
        if let Err(e) = written {
            self.say(say_index_refused(dev, &e.words));
        }
        self.indices.insert(dev.clone(), index);
        assert(wrote(
            old(self)@.dir,
            old(sock).log(),
            Op::Put { name: index_name(dev@), text: index_text(index), refused: None },
            self@.dir,
            sock.log(),
            r,
        ));
    }

    /// The index recorded for a device's note, if any run recorded one. Read
    /// from the file: the rename paths mostly run in a process that never
    /// recorded it.
    pub fn noted_index<W: FdbWriter>(
        &mut self,
        sock: &mut Recorded<W>,
        dev: &String,
    ) -> (r: Option<u32>)
        ensures
            final(sock).marks() == old(sock).marks(),
            file_read(
                old(self)@,
                old(sock).log(),
                index_name(dev@),
                final(self)@,
                final(sock).log(),
            ),
            match index_in(final(self)@.dir, dev@) {
                Some(n) => r == Some(n as u32),
                None => r is None,
            },
    {
        let name = index_file(dev);
        self.dir.fetch(sock, &name);
        match self.dir.text(&name) {
            Some(t) => parse_u32(&trimmed(&chars_of(t))),
            None => None,
        }
    }

    /// The quiet memory as last written.
    pub fn read_ports<W: FdbWriter>(
        &mut self,
        sock: &mut Recorded<W>,
        dev: &String,
    ) -> (r: Vec<Remembered>)
        ensures
            final(sock).marks() == old(sock).marks(),
            file_read(
                old(self)@,
                old(sock).log(),
                ports_name(dev@),
                final(self)@,
                final(sock).log(),
            ),
            memory_list(r@) == memory_of(file_text(final(self)@.dir, ports_name(dev@))),
    {
        let name = ports_file(dev);
        self.dir.fetch(sock, &name);
        match self.dir.text(&name) {
            Some(t) => read_memory(t),
            None => read_memory(&String::new()),
        }
    }

    /// Whether there is a file with the quiet memory.
    pub fn has_ports<W: FdbWriter>(&self, sock: &mut Recorded<W>, dev: &String) -> (r: bool)
        ensures
            final(sock).marks() == old(sock).marks(),
            final(sock).log() == old(sock).log().push(final(sock).log().last()),
            final(sock).log().last() matches Op::Stat { name, meta } && name == ports_name(dev@)
                && r == (meta is Some),
    {
        sock.stat_file(&ports_file(dev)).is_some()
    }

    /// Removes the quiet memory. Whether it is known to be gone: where the removal
    /// was refused, a look tells.
    pub fn remove_ports<W: FdbWriter>(&mut self, sock: &mut Recorded<W>, dev: &String) -> (r: bool)
        ensures
            final(sock).marks() == old(sock).marks(),
            ports_removed(
                old(self)@,
                old(sock).log(),
                dev@,
                final(self)@,
                final(sock).log(),
                r,
            ),
    {
        if self.dir.erase(sock, &ports_file(dev)) {
            true
        } else {
            !self.has_ports(sock, dev)
        }
    }

    /// Writes the quiet memory. Whether that worked; where it did not, that is
    /// remembered as said, and the memory still works in this process.
    pub fn write_ports<W: FdbWriter>(
        &mut self,
        sock: &mut Recorded<W>,
        dev: &String,
        ls: &Vec<String>,
    ) -> (r: bool)
        ensures
            final(sock).marks() == old(sock).marks(),
            wrote(
                old(self)@.dir,
                old(sock).log(),
                Op::Put {
                    name: ports_name(dev@),
                    text: memory_text(texts(ls@)),
                    refused: None,
                },
                final(self)@.dir,
                final(sock).log(),
                r,
            ),
            put_copied(
                old(self)@.copies,
                ports_name(dev@),
                since(old(sock).log(), final(sock).log()),
                r,
                final(self)@.copies,
            ),
            final(self)@ == (BookModel {
                dir: final(self)@.dir,
                copies: final(self)@.copies,
                said: Marks {
                    ports: if r {
                        old(self)@.said.ports
                    } else {
                        old(self)@.said.ports.insert(dev@)
                    },
                    ..old(self)@.said
                },
                ..old(self)@.saying_if(
                    !r && !old(self)@.said.ports.contains(dev@),
                    memory_refused_text(
                        dev@,
                        words_in(since(old(sock).log(), final(sock).log())[0]),
                    ),
                )
            }),
    {
        let mut rows: Vec<Vec<char>> = Vec::new();
        rows.push(chars_of(PORTS_FORMAT));
        let ghost all = seq![PORTS_FORMAT@] + texts(ls@);
        let mut i: usize = 0;
        assert(views(rows@) =~= all.take(1));
        while i < ls.len()
            invariant
                sock.marks() == old(sock).marks(),
                all == seq![PORTS_FORMAT@] + texts(ls@),
                i <= ls@.len(),
                views(rows@) == all.take(i + 1),
            decreases ls@.len() - i,
        {
            let row = chars_of(&ls[i]);
            let ghost before = rows@;
            proof {
                assert(all[i + 1] == row@);
                assert(views(before.push(row)) =~= views(before).push(row@));
                assert(all.take(i + 2) =~= all.take(i + 1).push(row@));
            }
            rows.push(row);
            i += 1;
        }
        assert(all.take(i + 1) =~= all);
        let text = write_text(&rows);
        match self.dir.put(sock, &ports_file(dev), &text) {
            Ok(()) => true,
            Err(e) => {
                if self.said.ports.insert(dev.clone()) {
                    self.say(say_memory_refused(dev, &e.words));
                }
                false
            },
        }
    }

    /// Every device with a note. A missing directory means none; any other
    /// failure to list it means unknown.
    pub fn noted_devices<W: FdbWriter>(
        &self,
        sock: &mut Recorded<W>,
    ) -> (r: Result<Vec<String>, Refusal>)
        ensures
            final(sock).marks() == old(sock).marks(),
            devices_asked(old(sock).log(), final(sock).log(), listed_names(r)),
    {
        let entries = match sock.list_dir() {
            Ok(v) => v,
            Err(e) => {
                if e.errno == Errno(ENOENT) {
                    let none: Vec<String> = Vec::new();
                    assert(texts(none@) =~= Seq::empty());
                    return Ok(none);
                }
                return Err(e);
            },
        };
        let suffix = chars_of(".owned");
        let mut out: Vec<String> = Vec::new();
        let mut i: usize = 0;
        let ghost es = entries@;
        assert(es.take(0) =~= Seq::empty());
        while i < entries.len()
            invariant
                es == entries@,
                suffix@ == ".owned"@,
                i <= entries@.len(),
                out@.len() == count_notes(es.take(i as int)),
                forall|d: Seq<char>| #[trigger]
                    texts(out@).contains(d) <==> exists|j: int|
                        0 <= j < i && is_note(#[trigger] es[j], d),
            decreases entries@.len() - i,
        {
            let name = &entries[i].name;
            let ghost out0 = out@;
            proof {
                let next = es.take(i + 1);
                assert(next.drop_last() =~= es.take(i as int));
                assert(next.last() == es[i as int]);
            }
            let cs = chars_of(name);
            let mut fits = entries[i].regular && cs.len() >= suffix.len();
            let ghost wide = fits;
            let mut n: usize = 0;
            if fits {
                let total: usize = cs.len();
                n = total - suffix.len();
                let mut k: usize = 0;
                while k < suffix.len()
                    invariant
                        k <= suffix@.len(),
                        total == cs@.len(),
                        n + suffix@.len() == total,
                        fits <==> forall|j: int| 0 <= j < k ==> cs@[n + j] == suffix@[j],
                    decreases suffix@.len() - k,
                {
                    if cs[n + k] != suffix[k] {
                        fits = false;
                    }
                    k += 1;
                }
            }
            if fits {
                let dev = string_of(&slice_of(&cs, 0, n));
                proof {
                    assert(name@ =~= note_name(dev@));
                    assert(is_note(es[i as int], dev@));
                    assert(texts(out0.push(dev)) =~= texts(out0).push(dev@));
                    lemma_push_contains(texts(out0), dev@);
                    assert forall|d: Seq<char>| #[trigger]
                        texts(out0.push(dev)).contains(d) <==> exists|j: int|
                            0 <= j < i + 1 && is_note(#[trigger] es[j], d) by {
                        if d == dev@ {
                            assert(is_note(es[i as int], d));
                        }
                        if exists|j: int| 0 <= j < i + 1 && is_note(#[trigger] es[j], d) {
                            let j = choose|j: int| 0 <= j < i + 1 && is_note(#[trigger] es[j], d);
                            if j == i {
                                lemma_note_name(d, dev@);
                            }
                        }
                    }
                }
                out.push(dev);
            } else {
                assert forall|d: Seq<char>| !is_note(es[i as int], d) by {
                    if is_note(es[i as int], d) {
                        assert(wide);
                        assert forall|j: int| 0 <= j < suffix@.len() implies cs@[n + j]
                            == suffix@[j] by {
                            assert(note_name(d)[d.len() + j] == suffix@[j]);
                        }
                    }
                }
            }
            i += 1;
        }
        assert(es.take(i as int) =~= es);
        let ghost unsorted = out@;
        let ranked = sorted(out);
        proof {
            let devs = texts(ranked@);
            unsorted.to_multiset_ensures();
            ranked@.to_multiset_ensures();
            assert forall|d: Seq<char>| #[trigger]
                devs.contains(d) <==> exists|j: int|
                    0 <= j < es.len() && is_note(#[trigger] es[j], d) by {
                if devs.contains(d) {
                    let j = choose|j: int| 0 <= j < devs.len() && devs[j] == d;
                    assert(ranked@.contains(ranked@[j]));
                    assert(unsorted.contains(ranked@[j]));
                    let q = choose|q: int| 0 <= q < unsorted.len() && unsorted[q] == ranked@[j];
                    assert(texts(unsorted)[q] == d);
                    assert(texts(unsorted).contains(d));
                }
                if texts(unsorted).contains(d) {
                    let q = choose|q: int|
                        0 <= q < texts(unsorted).len() && texts(unsorted)[q] == d;
                    assert(unsorted.contains(unsorted[q]));
                    assert(ranked@.contains(unsorted[q]));
                    let j = choose|j: int| 0 <= j < ranked@.len() && ranked@[j] == unsorted[q];
                    assert(devs[j] == d);
                }
            }
            assert forall|a: int, b: int|
                #![trigger devs[a], devs[b]]
                0 <= a <= b < devs.len() implies name_le(devs[a], devs[b]) by {
                assert(ranked@[a].leq(&ranked@[b]));
            }
            assert(lists_noted(devs, es));
        }
        Ok(ranked)
    }

    /// The same list for callers that can only shrug at a failure. They act on
    /// "none" the harmless way, so an unlistable directory costs a line, once.
    pub fn noted_devices_or_none<W: FdbWriter>(
        &mut self,
        sock: &mut Recorded<W>,
    ) -> (r: Vec<String>)
        ensures
            final(sock).marks() == old(sock).marks(),
            devices_or_none(
                old(self)@,
                old(sock).log(),
                final(self)@,
                final(sock).log(),
                texts(r@),
            ),
    {
        match self.noted_devices(sock) {
            Ok(v) => {
                proof {
                    let r: Result<Seq<Seq<char>>, Refused> = Ok(texts(v@));
                    assert(devices_asked(old(sock).log(), sock.log(), r));
                }
                v
            },
            Err(e) => {
                if !self.dir_list_warned {
                    let line = say_unlisted(&self.place, &e.words);
                    self.say(line);
                }
                self.dir_list_warned = true;
                let none: Vec<String> = Vec::new();
                proof {
                    assert(texts(none@) =~= Seq::empty());
                    let r: Result<Seq<Seq<char>>, Refused> = Err(e@);
                    assert(devices_asked(old(sock).log(), sock.log(), r));
                }
                none
            },
        }
    }

    /// Moves a note and its index record to the interface's new name. Both
    /// locks are taken in name order, so that two processes moving a swapped
    /// pair cannot wait for each other. Whether the addresses are on record
    /// under the new name.
    pub fn migrate_note<W: FdbWriter>(
        &mut self,
        sock: &mut Recorded<W>,
        from: &String,
        to: &String,
        index: u32,
    ) -> (r: bool)
        ensures
            final(sock).marks() == old(sock).marks(),
            note_moved(
                old(self)@,
                old(sock).log(),
                from@,
                to@,
                index,
                final(self)@,
                final(sock).log(),
                r,
            ),
    {
        if *from == *to {
            return true;
        }
        let (first, second) = if from.comes_first(to) {
            (from, to)
        } else {
            (to, from)
        };
        self.locked(sock, first);
        let ghost ba = self@;
        let ghost la = sock.log();
        self.locked(sock, second);
        let ghost bb = self@;
        let ghost lb = sock.log();
        let owned = self.load_owned(sock, from);
        let ghost bc = self@;
        let ghost lc = sock.log();
        let r = self.carry_over(sock, from, to, index, &owned);
        let ghost ld = sock.log();
        sock.unlock(second);
        sock.unlock(first);
        proof {
            assert(lock_asked(old(self)@, old(sock).log(), first@, ba, la));
            assert(lock_asked(ba, la, second@, bb, lb));
            assert(note_looked(bb, lb, from@, bc, lc));
            assert(note_carried_over(bc, lc, from@, to@, index, self@, ld, r));
            assert(note_moved_under(
                old(self)@,
                old(sock).log(),
                first@,
                second@,
                from@,
                to@,
                index,
                self@,
                sock.log(),
                r,
            ));
        }
        r
    }

    /// The move itself, both locks held and the note looked at.
    fn carry_over<W: FdbWriter>(
        &mut self,
        sock: &mut Recorded<W>,
        from: &String,
        to: &String,
        index: u32,
        owned: &KeySet<Mac>,
    ) -> (r: bool)
        requires
            owned@ == owned_in(old(self)@.dir, from@),
        ensures
            final(sock).marks() == old(sock).marks(),
            note_carried_over(
                old(self)@,
                old(sock).log(),
                from@,
                to@,
                index,
                final(self)@,
                final(sock).log(),
                r,
            ),
    {
        if !self.note_is_readable(from) {
            return false;
        }
        if owned.is_empty() {
            self.remove_note(sock, from);
            return true;
        }
        let macs = list_in_order(owned);
        let fresh = self.append_owned_locked(sock, to, &macs);
        let ghost f = opt_list(fresh);
        let ghost bx = self@;
        let ghost lx = sock.log();
        assert(note_extended(old(self)@, old(sock).log(), to@, macs@, bx, lx, f));
        if fresh.is_none() {
            return false;
        }
        self.note_index(sock, to, index);
        assert(index_noted(bx, lx, to@, index, self@, sock.log()));
        self.remove_note(sock, from);
        true
    }

    /// How many addresses this daemon has on record as its own, across every
    /// note.
    pub fn registered<W: FdbWriter>(&mut self, sock: &mut Recorded<W>) -> (r: usize)
        ensures
            final(sock).marks() == old(sock).marks(),
            notes_counted(old(self)@, old(sock).log(), final(self)@, final(sock).log(), r),
    {
        let devs = self.noted_devices_or_none(sock);
        let ghost all = texts(devs@);
        let ghost mut stages: Seq<Stage> = seq![Stage { book: self@, log: sock.log() }];
        let ghost first = stages[0];
        let mut total: usize = 0;
        let mut i: usize = 0;
        assert(all.take(0) =~= Seq::empty());
        while i < devs.len()
            invariant
                sock.marks() == old(sock).marks(),
                all == texts(devs@),
                i <= devs@.len(),
                looked_each(all.take(i as int), stages),
                stages[0] == first,
                stages.last() == (Stage { book: self@, log: sock.log() }),
                total == if noted_total(all.take(i as int), stages) <= usize::MAX {
                    noted_total(all.take(i as int), stages)
                } else {
                    usize::MAX as nat
                },
            decreases devs@.len() - i,
        {
            let ghost before = stages;
            let owned = self.load_owned(sock, &devs[i]);
            proof {
                stages = before.push(Stage { book: self@, log: sock.log() });
                let next = all.take(i + 1);
                let done = all.take(i as int);
                assert(next.drop_last() =~= done);
                assert(next.last() == devs@[i as int]@);
                assert(stages.drop_last() =~= before);
                assert forall|j: int|
                    #![trigger next[j]]
                    0 <= j < next.len() implies note_looked(
                    stages[j].book,
                    stages[j].log,
                    next[j],
                    stages[j + 1].book,
                    stages[j + 1].log,
                ) by {
                    if j < i {
                        assert(done[j] == next[j]);
                        assert(stages[j] == before[j]);
                        assert(stages[j + 1] == before[j + 1]);
                    }
                }
            }
            let n = owned.len();
            total = if total <= usize::MAX - n {
                total + n
            } else {
                usize::MAX
            };
            i += 1;
        }
        assert(all.take(i as int) =~= all);
        assert(looked_each(all, stages));
        total
    }

    /// The probe entry of a check is owned from the moment it exists: noted
    /// before it is written. Whether the note took it; a probe the note could
    /// not take must not be written at all.
    pub fn note_check_probe<W: FdbWriter>(
        &mut self,
        sock: &mut Recorded<W>,
        dev: &String,
        index: u32,
        mac: &Mac,
        dry_run: bool,
    ) -> (r: bool)
        ensures
            final(sock).marks() == old(sock).marks(),
            probe_noted(
                old(self)@,
                old(sock).log(),
                dev@,
                index,
                *mac,
                dry_run,
                final(self)@,
                final(sock).log(),
                r,
            ),
            r && !dry_run ==> owned_in(final(self)@.dir, dev@).contains(*mac),
    {
        self.note_index(sock, dev, index);
        let ghost bx = self@;
        let ghost lx = sock.log();
        assert(index_noted(old(self)@, old(sock).log(), dev@, index, bx, lx));
        let mut one: Vec<Mac> = Vec::new();
        one.push(*mac);
        assert(one@ =~= seq![*mac]);
        assert(one@.contains(*mac)) by {
            assert(one@[0] == *mac);
        }
        self.append_owned(sock, dev, &one, dry_run)
    }

    /// Takes the probe of a check off the note again: one line out, the rest
    /// letter by letter. When it was the only line, note and index go with it.
    pub fn forget_check_probe<W: FdbWriter>(
        &mut self,
        sock: &mut Recorded<W>,
        dev: &String,
        mac: &Mac,
    )
        ensures
            final(sock).marks() == old(sock).marks(),
            probe_forgotten(
                old(self)@,
                old(sock).log(),
                dev@,
                *mac,
                final(self)@,
                final(sock).log(),
            ),
    {
        let owned = self.load_owned(sock, dev);
        let ghost b1 = self@;
        let ghost l1 = sock.log();
        assert(note_looked(old(self)@, old(sock).log(), dev@, b1, l1));
        if !owned.contains(mac) {
            return;
        }
        self.locked(sock, dev);
        let ghost bl = self@;
        let ghost ll = sock.log();
        assert(lock_asked(b1, l1, dev@, bl, ll));
        self.drop_line_locked(sock, dev, mac);
        let ghost l2 = sock.log();
        assert(line_dropped(bl, ll, dev@, *mac, self@, l2));
        sock.unlock(dev);
    }
}

/// A note is believed without being read only where its file looks exactly as it
/// did when it was last read or written, and had been left alone for longer than
/// the clock can tell apart; otherwise it is read.
pub proof fn a_note_is_believed_only_where_it_was_left_alone(
    b: BookModel,
    log: Seq<Op>,
    dev: Seq<char>,
    b2: BookModel,
    log2: Seq<Op>,
)
    requires
        note_looked(b, log, dev, b2, log2),
    ensures
        log2.len() == log.len() + 1 ==> b2 == b && b.copies.contains_key(note_name(dev)) && (
        log2[log.len() as int] matches Op::Stat { name, meta: Some(m) } && name == note_name(dev)
            && m == b.copies[note_name(dev)].0 && (m.mtime.secs < b.copies[note_name(dev)].1.secs
            || (m.mtime.secs == b.copies[note_name(dev)].1.secs && m.mtime.nanos
            < b.copies[note_name(dev)].1.nanos))),
        log2.len() != log.len() + 1 ==> log2.len() == log.len() + 5 && (log2[log.len() as int + 2]
            matches Op::Read { name, .. } && name == note_name(dev)),
{
    let ops = since(log, log2);
    assert(ops[0] == log2[log.len() as int]);
    if ops.len() == 5 {
        assert(ops[2] == log2[log.len() as int + 2]);
    }
}

} // verus!
