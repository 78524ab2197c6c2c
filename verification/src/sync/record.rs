//! What the state files say: the ownership note and the quiet memory, as texts.

use vstd::prelude::*;

use crate::keyed::KeySet;
use crate::mac::{
    hex_char, mac_of, mac_text, push_mac, spelling_is_unique, spells, written_mac_spells_it, Mac,
};
use crate::text::{
    chars_of, chomp, digits, in_run, is_space, lemma_digits, lemma_run_is, lemma_run_len, lines,
    number_reads_back, number_up_to, parse_u32, parse_u64, push_number, push_text, run_len,
    slice_of, split_lines, split_words, string_of, trim, trimmed, views, words, Run,
};

verus! {

/// The addresses that a list of lines names: a line names an address when it
/// spells it, white space around it not counted. Other lines name nothing.
pub open spec fn named_in(ls: Seq<Seq<char>>) -> Set<Mac> {
    Set::new(|m: Mac| exists|i: int| 0 <= i < ls.len() && spells(trim(#[trigger] ls[i]), m))
}

/// The addresses that a note names.
pub open spec fn note_macs(t: Seq<char>) -> Set<Mac> {
    named_in(lines(t))
}

/// Addresses, one to a line.
pub open spec fn lines_text(ms: Seq<Mac>) -> Seq<char>
    decreases ms.len(),
{
    if ms.len() == 0 {
        Seq::empty()
    } else {
        lines_text(ms.drop_last()) + mac_text(ms.last()).push('\n')
    }
}

/// The finished lines of a text: everything up to the last newline.
pub open spec fn finished(t: Seq<char>) -> Seq<char>
    decreases t.len(),
{
    if t.len() == 0 || t.last() == '\n' {
        t
    } else {
        finished(t.drop_last())
    }
}

/// Whether a text consists of finished lines only.
pub open spec fn is_finished(t: Seq<char>) -> bool {
    t.len() == 0 || t.last() == '\n'
}

/// The finished lines of a text are finished, and the text starts with them.
pub proof fn lemma_finished(t: Seq<char>)
    ensures
        is_finished(finished(t)),
        finished(t).len() <= t.len(),
        finished(t) == t.take(finished(t).len() as int),
        forall|i: int| finished(t).len() <= i < t.len() ==> t[i] != '\n',
    decreases t.len(),
{
    if t.len() == 0 || t.last() == '\n' {
        assert(t.take(t.len() as int) =~= t);
    } else {
        lemma_finished(t.drop_last());
        assert(t.drop_last().take(finished(t).len() as int) =~= t.take(finished(t).len() as int));
        assert forall|i: int| finished(t).len() <= i < t.len() implies t[i] != '\n' by {
            if i < t.len() - 1 {
                assert(t.drop_last()[i] == t[i]);
            }
        }
    }
}

/// A prefix that is finished and after which no newline comes is all there is
/// of finished lines.
proof fn lemma_finished_is(t: Seq<char>, n: int)
    requires
        0 <= n <= t.len(),
        n == 0 || t[n - 1] == '\n',
        forall|i: int| n <= i < t.len() ==> t[i] != '\n',
    ensures
        finished(t) == t.take(n),
    decreases t.len(),
{
    if n == t.len() {
        assert(t.take(n) =~= t);
    } else {
        lemma_finished_is(t.drop_last(), n);
        assert(t.drop_last().take(n) =~= t.take(n));
    }
}

/// The lines of two texts, one behind the other, are the lines of the one and
/// then of the other, when the first ends in a newline.
pub proof fn lemma_lines_add(a: Seq<char>, b: Seq<char>)
    requires
        is_finished(a),
    ensures
        lines(a + b) == lines(a) + lines(b),
    decreases a.len(),
{
    if a.len() == 0 {
        assert(a + b =~= b);
        assert(lines(a) + lines(b) =~= lines(b));
    } else {
        let k = run_len(Run::Line, a);
        lemma_run_is(Run::Line, a);
        if k >= a.len() {
            assert(in_run(Run::Line, a[a.len() - 1]));
        }
        let t = a + b;
        assert forall|i: int| 0 <= i < k implies in_run(Run::Line, #[trigger] t[i]) by {
            assert(t[i] == a[i]);
        }
        assert(t[k as int] == a[k as int]);
        lemma_run_len(Run::Line, t, k);
        let rest = a.skip(k as int + 1);
        assert(is_finished(rest)) by {
            if rest.len() > 0 {
                assert(rest.last() == a.last());
            }
        }
        lemma_lines_add(rest, b);
        assert(t.skip(k as int + 1) =~= rest + b);
        assert(t.take(k as int) =~= a.take(k as int));
        assert(lines(t) =~= lines(a) + lines(b));
    }
}

/// A finished line is one line.
pub proof fn lemma_one_line(l: Seq<char>)
    requires
        forall|i: int| 0 <= i < l.len() ==> l[i] != '\n',
        l.len() > 0 ==> l.last() != '\r',
    ensures
        lines(l.push('\n')) == seq![l],
{
    let t = l.push('\n');
    let k = l.len();
    assert forall|i: int| 0 <= i < k implies in_run(Run::Line, #[trigger] t[i]) by {
        assert(t[i] == l[i]);
    }
    lemma_run_len(Run::Line, t, k);
    assert(t.take(k as int) =~= l);
    assert(t.skip(k as int + 1) =~= Seq::empty());
    assert(lines(t.skip(k as int + 1)) =~= Seq::<Seq<char>>::empty());
    assert(chomp(l) == l);
    assert(lines(t) == seq![chomp(t.take(k as int))] + lines(t.skip(k as int + 1)));
    assert(lines(t) =~= seq![l]);
}

/// What has no white space at its ends has none to trim.
pub proof fn lemma_trim_same(s: Seq<char>)
    requires
        s.len() > 0,
        !is_space(s[0]),
        !is_space(s.last()),
    ensures
        trim(s) == s,
{
    lemma_run_len(Run::Blank, s, 0);
    assert(s.skip(0) =~= s);
    assert(s.reverse()[0] == s.last());
    lemma_run_len(Run::Blank, s.reverse(), 0);
    assert(s.take(s.len() as int) =~= s);
}

/// A written address has no white space and no line end in it.
pub proof fn lemma_mac_text(m: Mac)
    ensures
        mac_text(m).len() == 17,
        forall|i: int| 0 <= i < 17 ==> !is_space(#[trigger] mac_text(m)[i]),
        forall|i: int| 0 <= i < 17 ==> #[trigger] mac_text(m)[i] != '\n',
        mac_text(m).last() != '\r',
        trim(mac_text(m)) == mac_text(m),
{
    let s = mac_text(m);
    assert forall|i: int| 0 <= i < 17 implies !is_space(#[trigger] s[i]) && s[i] != '\n' && s[i]
        != '\r' by {
        let hi = m[i / 3] as int / 16;
        let lo = m[i / 3] as int % 16;
        assert(hex_char(hi) as u32 == 48 + hi || hex_char(hi) as u32 == 87 + hi);
        assert(hex_char(lo) as u32 == 48 + lo || hex_char(lo) as u32 == 87 + lo);
        if i % 3 == 0 {
            assert(s[i] == hex_char(hi));
        } else if i % 3 == 1 {
            assert(s[i] == hex_char(lo));
        } else {
            assert(s[i] == ':');
        }
    }
    lemma_trim_same(s);
}

/// A list of written addresses ends in a newline, and its lines are them.
pub proof fn lemma_lines_text(ms: Seq<Mac>)
    ensures
        is_finished(lines_text(ms)),
        lines(lines_text(ms)) == ms.map_values(|m: Mac| mac_text(m)),
    decreases ms.len(),
{
    if ms.len() == 0 {
        assert(lines(lines_text(ms)) =~= ms.map_values(|m: Mac| mac_text(m)));
    } else {
        let front = ms.drop_last();
        lemma_lines_text(front);
        lemma_mac_text(ms.last());
        lemma_one_line(mac_text(ms.last()));
        lemma_lines_add(lines_text(front), mac_text(ms.last()).push('\n'));
        assert(lines(lines_text(ms)) =~= ms.map_values(|m: Mac| mac_text(m)));
    }
}

/// What two lists of lines name between them.
pub proof fn lemma_named_add(a: Seq<Seq<char>>, b: Seq<Seq<char>>)
    ensures
        named_in(a + b) == named_in(a).union(named_in(b)),
{
    assert forall|m: Mac| named_in(a + b).contains(m) <==> named_in(a).contains(m) || named_in(
        b,
    ).contains(m) by {
        if named_in(a + b).contains(m) {
            let i = choose|i: int|
                0 <= i < (a + b).len() && spells(trim(#[trigger] (a + b)[i]), m);
            if i < a.len() {
                assert(a[i] == (a + b)[i]);
            } else {
                assert(b[i - a.len()] == (a + b)[i]);
            }
        }
        if named_in(a).contains(m) {
            let i = choose|i: int| 0 <= i < a.len() && spells(trim(#[trigger] a[i]), m);
            assert((a + b)[i] == a[i]);
        }
        if named_in(b).contains(m) {
            let i = choose|i: int| 0 <= i < b.len() && spells(trim(#[trigger] b[i]), m);
            assert((a + b)[a.len() + i] == b[i]);
        }
    }
    assert(named_in(a + b) =~= named_in(a).union(named_in(b)));
}

/// A note that lists some addresses, one to a line, names exactly those.
pub proof fn note_reads_back(ms: Seq<Mac>)
    ensures
        note_macs(lines_text(ms)) == ms.to_set(),
{
    lemma_lines_text(ms);
    let ls = ms.map_values(|m: Mac| mac_text(m));
    assert forall|m: Mac| named_in(ls).contains(m) <==> ms.contains(m) by {
        if named_in(ls).contains(m) {
            let i = choose|i: int| 0 <= i < ls.len() && spells(trim(#[trigger] ls[i]), m);
            lemma_mac_text(ms[i]);
            written_mac_spells_it(ms[i]);
            spelling_is_unique(mac_text(ms[i]), m, ms[i]);
        }
        if ms.contains(m) {
            let i = choose|i: int| 0 <= i < ms.len() && ms[i] == m;
            lemma_mac_text(m);
            written_mac_spells_it(m);
            assert(ls[i] == mac_text(m));
        }
    }
    assert(note_macs(lines_text(ms)) =~= ms.to_set());
}

/// Adding addresses to the finished lines of a note leaves it naming what
/// those lines named, and the addresses added.
pub proof fn appended_note_names_both(t: Seq<char>, ms: Seq<Mac>)
    ensures
        note_macs(finished(t) + lines_text(ms)) == note_macs(finished(t)).union(ms.to_set()),
{
    lemma_finished(t);
    lemma_lines_add(finished(t), lines_text(ms));
    lemma_named_add(lines(finished(t)), lines(lines_text(ms)));
    note_reads_back(ms);
}

/// The addresses that a note names.
pub fn read_note(t: &String) -> (r: KeySet<Mac>)
    ensures
        r@ == note_macs(t@),
{
    let cs = chars_of(t);
    let ls = split_lines(&cs);
    let ghost all = lines(t@);
    let mut out: KeySet<Mac> = KeySet::new();
    let mut i: usize = 0;
    assert(named_in(all.take(0)) =~= Set::empty());
    while i < ls.len()
        invariant
            all == views(ls@),
            i <= ls@.len(),
            out@ == named_in(all.take(i as int)),
        decreases ls@.len() - i,
    {
        let ghost out0 = out@;
        let found = mac_of(&trimmed(&ls[i]));
        proof {
            let l = all[i as int];
            assert(l == ls@[i as int]@);
            assert(all.take(i + 1) =~= all.take(i as int) + seq![l]);
            lemma_named_add(all.take(i as int), seq![l]);
            assert(named_in(seq![l]) =~= Set::new(|m: Mac| spells(trim(l), m))) by {
                assert forall|m: Mac| named_in(seq![l]).contains(m) <==> spells(trim(l), m) by {
                    if spells(trim(l), m) {
                        assert(seq![l][0] == l);
                    }
                }
            }
            if let Some(m) = found {
                assert forall|x: Mac| spells(trim(l), x) <==> x == m by {
                    if spells(trim(l), x) {
                        spelling_is_unique(trim(l), x, m);
                    }
                }
                assert(out0.union(named_in(seq![l])) =~= out0.insert(m));
            } else {
                assert(out0.union(named_in(seq![l])) =~= out0);
            }
        }
        if let Some(m) = found {
            let _ = out.insert(m);
        }
        i += 1;
    }
    assert(all.take(i as int) =~= all);
    out
}

/// Addresses, one to a line.
pub fn write_lines(ms: &Vec<Mac>) -> (r: String)
    ensures
        r@ == lines_text(ms@),
{
    let mut out = String::new();
    let mut i: usize = 0;
    assert(ms@.take(0) =~= Seq::empty());
    while i < ms.len()
        invariant
            i <= ms@.len(),
            out@ == lines_text(ms@.take(i as int)),
        decreases ms@.len() - i,
    {
        let ghost out0 = out@;
        push_mac(&mut out, &ms[i]);
        out.push('\n');
        proof {
            let next = ms@.take(i + 1);
            assert(next.drop_last() =~= ms@.take(i as int));
            assert(next.last() == ms@[i as int]);
            assert(out@ =~= lines_text(next));
        }
        i += 1;
    }
    assert(ms@.take(i as int) =~= ms@);
    out
}

/// How many characters of a text are finished lines.
pub fn finished_len(cs: &Vec<char>) -> (r: usize)
    ensures
        r == finished(cs@).len(),
        r <= cs@.len(),
        finished(cs@) == cs@.take(r as int),
{
    let mut n: usize = cs.len();
    while n > 0 && cs[n - 1] != '\n'
        invariant
            n <= cs@.len(),
            forall|i: int| n <= i < cs@.len() ==> cs@[i] != '\n',
        decreases n,
    {
        n -= 1;
    }
    proof {
        lemma_finished_is(cs@, n as int);
    }
    n
}

/// How many bytes of a file stand up to its last newline, that included: what is
/// behind them is a line that a write did not finish.
pub fn finished_bytes(bytes: &Vec<u8>) -> (r: usize)
    ensures
        r <= bytes@.len(),
        r == 0 || bytes@[r - 1] == 10,
        forall|i: int| r <= i < bytes@.len() ==> bytes@[i] != 10,
{
    let mut n: usize = bytes.len();
    while n > 0 && bytes[n - 1] != 10
        invariant
            n <= bytes@.len(),
            forall|i: int| n <= i < bytes@.len() ==> bytes@[i] != 10,
        decreases n,
    {
        n -= 1;
    }
    n
}

/// Lines, each with its end.
pub open spec fn text_of_lines(ls: Seq<Seq<char>>) -> Seq<char>
    decreases ls.len(),
{
    if ls.len() == 0 {
        Seq::empty()
    } else {
        text_of_lines(ls.drop_last()) + ls.last().push('\n')
    }
}

/// Whether a line stays when the line for `mac` is taken out: it is neither
/// blank nor that line.
pub open spec fn line_stays(l: Seq<char>, mac: Mac) -> bool {
    trim(l).len() > 0 && trim(l) != mac_text(mac)
}

/// The lines that stay when the line for `mac` is taken out.
pub open spec fn lines_without(ls: Seq<Seq<char>>, mac: Mac) -> Seq<Seq<char>>
    decreases ls.len(),
{
    if ls.len() == 0 {
        Seq::empty()
    } else if line_stays(ls.last(), mac) {
        lines_without(ls.drop_last(), mac).push(ls.last())
    } else {
        lines_without(ls.drop_last(), mac)
    }
}

/// Lines, each with its end.
pub fn write_text(ls: &Vec<Vec<char>>) -> (r: String)
    ensures
        r@ == text_of_lines(views(ls@)),
{
    let ghost all = views(ls@);
    let mut out = String::new();
    let mut i: usize = 0;
    assert(all.take(0) =~= Seq::empty());
    while i < ls.len()
        invariant
            all == views(ls@),
            i <= ls@.len(),
            out@ == text_of_lines(all.take(i as int)),
        decreases ls@.len() - i,
    {
        let line = string_of(&ls[i]);
        push_text(&mut out, &line);
        out.push('\n');
        proof {
            let next = all.take(i + 1);
            assert(next.drop_last() =~= all.take(i as int));
            assert(next.last() == ls@[i as int]@);
            assert(out@ =~= text_of_lines(next));
        }
        i += 1;
    }
    assert(all.take(i as int) =~= all);
    out
}

/// Whether two rows of characters are the same.
fn same_chars(a: &Vec<char>, b: &Vec<char>) -> (r: bool)
    ensures
        r == (a@ == b@),
{
    if a.len() != b.len() {
        return false;
    }
    let mut i: usize = 0;
    while i < a.len()
        invariant
            a@.len() == b@.len(),
            i <= a@.len(),
            forall|j: int| 0 <= j < i ==> a@[j] == b@[j],
        decreases a@.len() - i,
    {
        if a[i] != b[i] {
            return false;
        }
        i += 1;
    }
    assert(a@ =~= b@);
    true
}

/// The lines of a note without the one for `mac`, the others as they are.
pub fn take_line_out(t: &String, mac: &Mac) -> (r: Vec<Vec<char>>)
    ensures
        views(r@) == lines_without(lines(t@), *mac),
{
    let ls = split_lines(&chars_of(t));
    let mut name = String::new();
    push_mac(&mut name, mac);
    assert(name@ =~= mac_text(*mac));
    let wanted = chars_of(&name);
    let ghost all = lines(t@);
    let mut out: Vec<Vec<char>> = Vec::new();
    let mut i: usize = 0;
    assert(all.take(0) =~= Seq::empty());
    assert(views(out@) =~= Seq::empty());
    while i < ls.len()
        invariant
            all == views(ls@),
            wanted@ == mac_text(*mac),
            i <= ls@.len(),
            views(out@) == lines_without(all.take(i as int), *mac),
        decreases ls@.len() - i,
    {
        let bare = trimmed(&ls[i]);
        proof {
            let next = all.take(i + 1);
            assert(next.drop_last() =~= all.take(i as int));
            assert(next.last() == ls@[i as int]@);
        }
        if bare.len() > 0 && !same_chars(&bare, &wanted) {
            let copy = slice_of(&ls[i], 0, ls[i].len());
            let ghost before = out@;
            proof {
                assert(copy@ =~= ls@[i as int]@);
                assert(views(before.push(copy)) =~= views(before).push(copy@));
            }
            out.push(copy);
        }
        i += 1;
    }
    assert(all.take(i as int) =~= all);
    out
}

/// Writing the lines of a text down again gives the text back, when it has no
/// carriage returns and ends in a newline.
proof fn lemma_lines_rewritten(t: Seq<char>)
    requires
        is_finished(t),
        forall|i: int| 0 <= i < t.len() ==> t[i] != '\r',
    ensures
        text_of_lines(lines(t)) == t,
    decreases t.len(),
{
    if t.len() == 0 {
        assert(text_of_lines(lines(t)) =~= t);
    } else {
        let k = run_len(Run::Line, t);
        lemma_run_is(Run::Line, t);
        if k >= t.len() {
            assert(in_run(Run::Line, t[t.len() - 1]));
        }
        let l = t.take(k as int);
        let rest = t.skip(k as int + 1);
        assert(is_finished(rest)) by {
            if rest.len() > 0 {
                assert(rest.last() == t.last());
            }
        }
        assert forall|i: int| 0 <= i < rest.len() implies rest[i] != '\r' by {
            assert(rest[i] == t[k as int + 1 + i]);
        }
        assert(chomp(l) == l) by {
            if l.len() > 0 {
                assert(l.last() == t[k as int - 1]);
            }
        }
        lemma_lines_rewritten(rest);
        lemma_text_front(l, lines(rest));
        assert(t =~= l.push('\n') + rest);
    }
}

proof fn lemma_text_front(l: Seq<char>, ls: Seq<Seq<char>>)
    ensures
        text_of_lines(seq![l] + ls) == l.push('\n') + text_of_lines(ls),
    decreases ls.len(),
{
    let all = seq![l] + ls;
    if ls.len() == 0 {
        assert(all.drop_last() =~= Seq::empty());
        assert(all.last() == l);
        assert(text_of_lines(all.drop_last()) =~= Seq::<char>::empty());
        assert(text_of_lines(all) =~= l.push('\n') + text_of_lines(ls));
    } else {
        lemma_text_front(l, ls.drop_last());
        assert(all.drop_last() =~= seq![l] + ls.drop_last());
        assert(all.last() == ls.last());
        assert(text_of_lines(all) =~= l.push('\n') + text_of_lines(ls));
    }
}

proof fn lemma_all_lines_stay(ls: Seq<Seq<char>>, mac: Mac)
    requires
        forall|i: int| 0 <= i < ls.len() ==> line_stays(#[trigger] ls[i], mac),
    ensures
        lines_without(ls, mac) == ls,
    decreases ls.len(),
{
    if ls.len() > 0 {
        let front = ls.drop_last();
        assert forall|i: int| 0 <= i < front.len() implies line_stays(#[trigger] front[i], mac) by {
            assert(front[i] == ls[i]);
        }
        lemma_all_lines_stay(front, mac);
        assert(line_stays(ls[ls.len() - 1], mac));
        assert(lines_without(ls, mac) =~= ls);
    } else {
        assert(lines_without(ls, mac) =~= ls);
    }
}

/// An address added to a note and taken out again leaves the note as it was,
/// letter by letter: every other line keeps its text and its place. Of the
/// note it is asked that it consists of finished lines, none of them blank
/// and none for that address, without carriage returns.
pub proof fn borrowed_line_leaves_no_trace(t: Seq<char>, mac: Mac)
    requires
        is_finished(t),
        forall|i: int| 0 <= i < t.len() ==> t[i] != '\r',
        forall|i: int| 0 <= i < lines(t).len() ==> line_stays(#[trigger] lines(t)[i], mac),
    ensures
        text_of_lines(lines_without(lines(finished(t) + lines_text(seq![mac])), mac)) == t,
        lines_without(lines(finished(t) + lines_text(seq![mac])), mac).len() == lines(t).len(),
{
    let probe = lines_text(seq![mac]);
    assert(finished(t) == t);
    lemma_lines_add(t, probe);
    lemma_lines_text(seq![mac]);
    let one = seq![mac].map_values(|m: Mac| mac_text(m));
    assert(one =~= seq![mac_text(mac)]);
    let all = lines(t) + one;
    assert(all.drop_last() =~= lines(t));
    assert(all.last() == mac_text(mac));
    lemma_mac_text(mac);
    lemma_all_lines_stay(lines(t), mac);
    lemma_lines_rewritten(t);
}

/// The first line of the quiet memory: which meaning its numbers have.
pub const PORTS_FORMAT: &'static str = "sriov-mac-sync ports 3";

/// One address of the quiet memory: the port it was learnt behind, by name and
/// by index, and when it was last heard of.
pub struct Remembered {
    pub mac: Mac,
    pub name: String,
    pub index: u32,
    pub seen: u64,
}

/// What a `Remembered` says.
pub struct RememberedModel {
    pub mac: Mac,
    pub name: Seq<char>,
    pub index: u32,
    pub seen: u64,
}

impl View for Remembered {
    type V = RememberedModel;

    open spec fn view(&self) -> RememberedModel {
        RememberedModel { mac: self.mac, name: self.name@, index: self.index, seen: self.seen }
    }
}

/// What a list of them says.
pub open spec fn memory_list(v: Seq<Remembered>) -> Seq<RememberedModel> {
    v.map_values(|x: Remembered| x@)
}

/// One line of the quiet memory.
pub open spec fn port_line(mac: Mac, name: Seq<char>, index: u32, seen: nat) -> Seq<char> {
    mac_text(mac).push(' ') + name.push(' ') + digits(index as nat).push(' ') + digits(seen)
}

/// Whether a line of the quiet memory can be read: an address, a name and two
/// numbers that fit. Anything behind those is not looked at.
pub open spec fn line_counts(l: Seq<char>) -> bool {
    let w = words(l);
    &&& w.len() >= 4
    &&& exists|m: Mac| spells(w[0], m)
    &&& number_up_to(w[2], u32::MAX as nat) is Some
    &&& number_up_to(w[3], u64::MAX as nat) is Some
}

/// What a line of the quiet memory says.
pub open spec fn line_says(l: Seq<char>) -> RememberedModel {
    let w = words(l);
    RememberedModel {
        mac: choose|m: Mac| spells(w[0], m),
        name: w[1],
        index: number_up_to(w[2], u32::MAX as nat)->0 as u32,
        seen: number_up_to(w[3], u64::MAX as nat)->0 as u64,
    }
}

/// What the lines of the quiet memory say, those that can be read.
pub open spec fn memory_in(ls: Seq<Seq<char>>) -> Seq<RememberedModel>
    decreases ls.len(),
{
    if ls.len() == 0 {
        Seq::empty()
    } else if line_counts(ls.last()) {
        memory_in(ls.drop_last()).push(line_says(ls.last()))
    } else {
        memory_in(ls.drop_last())
    }
}

/// What a file of the quiet memory says; nothing, under another first line.
pub open spec fn memory_of(t: Seq<char>) -> Seq<RememberedModel> {
    let ls = lines(t);
    if ls.len() > 0 && ls[0] == PORTS_FORMAT@ {
        memory_in(ls.skip(1))
    } else {
        Seq::empty()
    }
}

/// One line of the quiet memory, read.
fn read_port_line(l: &Vec<char>) -> (r: Option<Remembered>)
    ensures
        match r {
            Some(x) => line_counts(l@) && x@ == line_says(l@),
            None => !line_counts(l@),
        },
{
    let w = split_words(l);
    proof {
        assert forall|i: int| 0 <= i < w@.len() implies words(l@)[i] == (#[trigger] w@[i])@ by {
            assert(views(w@)[i] == w@[i]@);
        }
    }
    if w.len() < 4 {
        return None;
    }
    let mac = mac_of(&w[0]);
    let index = parse_u32(&w[2]);
    let seen = parse_u64(&w[3]);
    match (mac, index, seen) {
        (Some(mac), Some(index), Some(seen)) => {
            let name = string_of(&w[1]);
            proof {
                let m = choose|m: Mac| spells(words(l@)[0], m);
                assert(spells(words(l@)[0], mac));
                spelling_is_unique(words(l@)[0], mac, m);
            }
            Some(Remembered { mac, name, index, seen })
        },
        _ => None,
    }
}

/// What a file of the quiet memory says.
pub fn read_memory(t: &String) -> (r: Vec<Remembered>)
    ensures
        memory_list(r@) == memory_of(t@),
{
    let ls = split_lines(&chars_of(t));
    let ghost all = lines(t@);
    let mut out: Vec<Remembered> = Vec::new();
    assert(memory_list(out@) =~= Seq::empty());
    if ls.len() == 0 {
        return out;
    }
    let format = chars_of(PORTS_FORMAT);
    assert(all[0] == ls@[0]@);
    if !same_chars(&ls[0], &format) {
        return out;
    }
    let ghost rest = all.skip(1);
    let mut i: usize = 1;
    assert(rest.take(0) =~= Seq::empty());
    while i < ls.len()
        invariant
            all == views(ls@),
            rest == all.skip(1),
            1 <= i <= ls@.len(),
            memory_list(out@) == memory_in(rest.take(i - 1)),
        decreases ls@.len() - i,
    {
        proof {
            let next = rest.take(i as int);
            assert(next.drop_last() =~= rest.take(i - 1));
            assert(next.last() == ls@[i as int]@);
        }
        if let Some(x) = read_port_line(&ls[i]) {
            let ghost before = out@;
            proof {
                assert(memory_list(before.push(x)) =~= memory_list(before).push(x@));
            }
            out.push(x);
        }
        i += 1;
    }
    assert(rest.take(i - 1) =~= rest);
    out
}

/// One line of the quiet memory.
pub fn write_port_line(mac: &Mac, name: &String, index: u32, seen: u64) -> (r: String)
    ensures
        r@ == port_line(*mac, name@, index, seen as nat),
{
    let mut out = String::new();
    push_mac(&mut out, mac);
    out.push(' ');
    push_text(&mut out, name);
    out.push(' ');
    push_number(&mut out, index as u64);
    out.push(' ');
    push_number(&mut out, seen);
    assert(out@ =~= port_line(*mac, name@, index, seen as nat));
    out
}

proof fn lemma_words_step(w: Seq<char>, rest: Seq<char>)
    requires
        w.len() > 0,
        forall|i: int| 0 <= i < w.len() ==> !is_space(#[trigger] w[i]),
    ensures
        words(w.push(' ') + rest) == seq![w] + words(rest),
{
    let l = w.push(' ') + rest;
    assert(l[0] == w[0]);
    lemma_run_len(Run::Blank, l, 0);
    assert(l.skip(0) =~= l);
    assert forall|i: int| 0 <= i < w.len() implies in_run(Run::Word, #[trigger] l[i]) by {
        assert(l[i] == w[i]);
    }
    assert(l[w.len() as int] == ' ');
    lemma_run_len(Run::Word, l, w.len());
    assert(l.take(w.len() as int) =~= w);
    let tail = l.skip(w.len() as int);
    assert(tail =~= seq![' '] + rest);
    // the blank in front of the rest is skipped with the rest's own blanks
    let n = run_len(Run::Blank, rest);
    lemma_run_is(Run::Blank, rest);
    assert forall|i: int| 0 <= i < n + 1 implies in_run(Run::Blank, #[trigger] tail[i]) by {
        if i > 0 {
            assert(tail[i] == rest[i - 1]);
        }
    }
    if n < rest.len() {
        assert(tail[n as int + 1] == rest[n as int]);
    }
    lemma_run_len(Run::Blank, tail, n + 1);
    assert(tail.skip(n as int + 1) =~= rest.skip(n as int));
    assert(words(tail) =~= words(rest));
}

proof fn lemma_words_last(w: Seq<char>)
    requires
        w.len() > 0,
        forall|i: int| 0 <= i < w.len() ==> !is_space(#[trigger] w[i]),
    ensures
        words(w) == seq![w],
{
    lemma_run_len(Run::Blank, w, 0);
    assert(w.skip(0) =~= w);
    assert forall|i: int| 0 <= i < w.len() implies in_run(Run::Word, #[trigger] w[i]) by {}
    lemma_run_len(Run::Word, w, w.len());
    assert(w.take(w.len() as int) =~= w);
    let tail = w.skip(w.len() as int);
    assert(tail =~= Seq::empty());
    lemma_run_len(Run::Blank, tail, 0);
    assert(tail.skip(0) =~= tail);
    lemma_run_len(Run::Word, tail, 0);
    assert(words(tail) =~= Seq::empty());
    assert(words(w) =~= seq![w]);
}

proof fn lemma_digits_no_space(n: nat)
    ensures
        digits(n).len() > 0,
        forall|i: int| 0 <= i < digits(n).len() ==> !is_space(#[trigger] digits(n)[i]),
        forall|i: int|
            0 <= i < digits(n).len() ==> #[trigger] digits(n)[i] != '\n' && digits(n)[i] != '\r',
{
    lemma_digits(n);
    assert forall|i: int| 0 <= i < digits(n).len() implies !is_space(#[trigger] digits(n)[i])
        && digits(n)[i] != '\n' && digits(n)[i] != '\r' by {
        assert(in_run(Run::Digits, digits(n)[i]));
    }
}

/// Whether a name can stand in the quiet memory: it is there, and has no white
/// space in it. Interface names are like that.
pub open spec fn plain_name(name: Seq<char>) -> bool {
    name.len() > 0 && forall|i: int| 0 <= i < name.len() ==> !is_space(#[trigger] name[i])
}

/// A line of the quiet memory says what it was written from.
pub proof fn memory_line_reads_back(x: RememberedModel)
    requires
        plain_name(x.name),
    ensures
        line_counts(port_line(x.mac, x.name, x.index, x.seen as nat)),
        line_says(port_line(x.mac, x.name, x.index, x.seen as nat)) == x,
{
    let l = port_line(x.mac, x.name, x.index, x.seen as nat);
    let a = mac_text(x.mac);
    let c = digits(x.index as nat);
    let d = digits(x.seen as nat);
    lemma_mac_text(x.mac);
    lemma_digits_no_space(x.index as nat);
    lemma_digits_no_space(x.seen as nat);
    lemma_words_last(d);
    lemma_words_step(c, d);
    lemma_words_step(x.name, c.push(' ') + d);
    lemma_words_step(a, x.name.push(' ') + (c.push(' ') + d));
    assert(l =~= a.push(' ') + (x.name.push(' ') + (c.push(' ') + d)));
    assert(words(l) =~= seq![a, x.name, c, d]);
    written_mac_spells_it(x.mac);
    number_reads_back(x.index as nat);
    number_reads_back(x.seen as nat);
    let m = choose|m: Mac| spells(a, m);
    spelling_is_unique(a, m, x.mac);
}

proof fn lemma_lines_of_text(ls: Seq<Seq<char>>)
    requires
        forall|i: int, j: int|
            0 <= i < ls.len() && 0 <= j < ls[i].len() ==> #[trigger] ls[i][j] != '\n'
                && ls[i][j] != '\r',
    ensures
        is_finished(text_of_lines(ls)),
        lines(text_of_lines(ls)) == ls,
    decreases ls.len(),
{
    if ls.len() == 0 {
        assert(lines(text_of_lines(ls)) =~= ls);
    } else {
        let front = ls.drop_last();
        assert forall|i: int, j: int|
            0 <= i < front.len() && 0 <= j < front[i].len() implies #[trigger] front[i][j] != '\n'
            && front[i][j] != '\r' by {
            assert(front[i] == ls[i]);
            assert(ls[i][j] != '\n' && ls[i][j] != '\r');
        }
        lemma_lines_of_text(front);
        let l = ls.last();
        assert forall|j: int| 0 <= j < l.len() implies l[j] != '\n' && l[j] != '\r' by {
            assert(ls[ls.len() - 1][j] != '\n');
        }
        lemma_one_line(l);
        lemma_lines_add(text_of_lines(front), l.push('\n'));
        assert(lines(text_of_lines(ls)) =~= ls);
    }
}

/// The lines that say these things.
pub open spec fn port_lines(xs: Seq<RememberedModel>) -> Seq<Seq<char>> {
    xs.map_values(|x: RememberedModel| port_line(x.mac, x.name, x.index, x.seen as nat))
}

/// The text of a file of the quiet memory.
pub open spec fn memory_text(ls: Seq<Seq<char>>) -> Seq<char> {
    text_of_lines(seq![PORTS_FORMAT@] + ls)
}

/// What is written to the file of the quiet memory is read back from it.
pub proof fn memory_reads_back(xs: Seq<RememberedModel>)
    requires
        forall|i: int| 0 <= i < xs.len() ==> plain_name((#[trigger] xs[i]).name),
    ensures
        memory_of(memory_text(port_lines(xs))) == xs,
{
    let ls = seq![PORTS_FORMAT@] + port_lines(xs);
    reveal_strlit("sriov-mac-sync ports 3");
    assert forall|i: int, j: int|
        0 <= i < ls.len() && 0 <= j < ls[i].len() implies #[trigger] ls[i][j] != '\n' && ls[i][j]
        != '\r' by {
        if i > 0 {
            let x = xs[i - 1];
            assert(ls[i] == port_line(x.mac, x.name, x.index, x.seen as nat));
            lemma_port_line_chars(x, j);
        }
    }
    lemma_lines_of_text(ls);
    assert(ls.skip(1) =~= port_lines(xs));
    assert(ls[0] == PORTS_FORMAT@);
    lemma_memory_in(xs);
}

proof fn lemma_port_line_chars(x: RememberedModel, j: int)
    requires
        plain_name(x.name),
        0 <= j < port_line(x.mac, x.name, x.index, x.seen as nat).len(),
    ensures
        port_line(x.mac, x.name, x.index, x.seen as nat)[j] != '\n',
        port_line(x.mac, x.name, x.index, x.seen as nat)[j] != '\r',
{
    let l = port_line(x.mac, x.name, x.index, x.seen as nat);
    let a = mac_text(x.mac).push(' ');
    let b = x.name.push(' ');
    let c = digits(x.index as nat).push(' ');
    let d = digits(x.seen as nat);
    lemma_mac_text(x.mac);
    lemma_digits_no_space(x.index as nat);
    lemma_digits_no_space(x.seen as nat);
    if j < a.len() {
        assert(l[j] == a[j]);
        if j < 17 {
            assert(!is_space(mac_text(x.mac)[j]));
        }
    } else if j < a.len() + b.len() {
        let k = j - a.len();
        assert(l[j] == b[k]);
        if k < x.name.len() {
            assert(!is_space(x.name[k]));
        }
    } else if j < a.len() + b.len() + c.len() {
        let k = j - a.len() - b.len();
        assert(l[j] == c[k]);
        if k < digits(x.index as nat).len() {
            assert(!is_space(digits(x.index as nat)[k]));
        }
    } else {
        let k = j - a.len() - b.len() - c.len();
        assert(l[j] == d[k]);
        assert(!is_space(d[k]));
    }
}

proof fn lemma_memory_in(xs: Seq<RememberedModel>)
    requires
        forall|i: int| 0 <= i < xs.len() ==> plain_name((#[trigger] xs[i]).name),
    ensures
        memory_in(port_lines(xs)) == xs,
    decreases xs.len(),
{
    if xs.len() == 0 {
        assert(memory_in(port_lines(xs)) =~= xs);
    } else {
        let front = xs.drop_last();
        assert forall|i: int| 0 <= i < front.len() implies plain_name(
            (#[trigger] front[i]).name,
        ) by {
            assert(front[i] == xs[i]);
        }
        lemma_memory_in(front);
        assert(plain_name(xs[xs.len() - 1].name));
        memory_line_reads_back(xs.last());
        assert(port_lines(xs).drop_last() =~= port_lines(front));
        assert(memory_in(port_lines(xs)) =~= xs);
    }
}

} // verus!
