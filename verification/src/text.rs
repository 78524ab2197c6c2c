//! The plain-text pieces the state files are made of: lines, words, numbers.

use vstd::prelude::*;

verus! {

/// `String::push`: the character goes to the end of the string.
pub assume_specification[ String::push ](s: &mut String, ch: char)
    ensures
        final(s)@ == old(s)@.push(ch),
;

/// The characters that count as white space (the Unicode property of that name).
pub open spec fn is_space(c: char) -> bool {
    let n = c as u32;
    ||| 9 <= n <= 13
    ||| n == 0x20
    ||| n == 0x85
    ||| n == 0xa0
    ||| n == 0x1680
    ||| 0x2000 <= n <= 0x200a
    ||| n == 0x2028
    ||| n == 0x2029
    ||| n == 0x202f
    ||| n == 0x205f
    ||| n == 0x3000
}

/// What a run of characters is made of.
#[derive(Clone, Copy, PartialEq, Eq, Structural)]
pub enum Run {
    /// anything but the end of a line
    Line,
    /// white space
    Blank,
    /// anything but white space
    Word,
    /// decimal digits
    Digits,
}

/// Whether `c` continues a run of kind `k`.
pub open spec fn in_run(k: Run, c: char) -> bool {
    match k {
        Run::Line => c != '\n',
        Run::Blank => is_space(c),
        Run::Word => !is_space(c),
        Run::Digits => '0' <= c <= '9',
    }
}

/// How many characters at the front of `t` make a run of kind `k`.
pub open spec fn run_len(k: Run, t: Seq<char>) -> nat
    decreases t.len(),
{
    if t.len() == 0 || !in_run(k, t[0]) {
        0
    } else {
        1 + run_len(k, t.skip(1))
    }
}

/// A run is as long as its characters allow, and no longer.
pub proof fn lemma_run_len(k: Run, t: Seq<char>, n: nat)
    requires
        n <= t.len(),
        forall|i: int| 0 <= i < n ==> in_run(k, #[trigger] t[i]),
        n == t.len() || !in_run(k, t[n as int]),
    ensures
        run_len(k, t) == n,
    decreases n,
{
    if n > 0 {
        assert(in_run(k, t[0]));
        assert forall|i: int| 0 <= i < n - 1 implies in_run(k, #[trigger] t.skip(1)[i]) by {
            assert(t.skip(1)[i] == t[i + 1]);
        }
        lemma_run_len(k, t.skip(1), (n - 1) as nat);
    }
}

/// What `run_len` counts.
pub proof fn lemma_run_is(k: Run, t: Seq<char>)
    ensures
        run_len(k, t) <= t.len(),
        forall|i: int| 0 <= i < run_len(k, t) ==> in_run(k, #[trigger] t[i]),
        run_len(k, t) == t.len() || !in_run(k, t[run_len(k, t) as int]),
    decreases t.len(),
{
    if t.len() > 0 && in_run(k, t[0]) {
        lemma_run_is(k, t.skip(1));
        let n = run_len(k, t);
        assert forall|i: int| 0 <= i < n implies in_run(k, #[trigger] t[i]) by {
            if i > 0 {
                assert(t.skip(1)[i - 1] == t[i]);
            }
        }
        if n < t.len() {
            assert(t.skip(1)[n - 1] == t[n as int]);
        }
    }
}

/// Whether `c` continues a run of kind `k`.
fn continues(k: Run, c: char) -> (r: bool)
    ensures
        r == in_run(k, c),
{
    let n: u32 = c as u32;
    let space = (9 <= n && n <= 13) || n == 0x20 || n == 0x85 || n == 0xa0 || n == 0x1680 || (0x2000
        <= n && n <= 0x200a) || n == 0x2028 || n == 0x2029 || n == 0x202f || n == 0x205f || n
        == 0x3000;
    match k {
        Run::Line => c != '\n',
        Run::Blank => space,
        Run::Word => !space,
        Run::Digits => 48 <= n && n <= 57,
    }
}

/// The end of the run of kind `k` that starts at `from`.
pub fn run_end(k: Run, t: &Vec<char>, from: usize) -> (r: usize)
    requires
        from <= t@.len(),
    ensures
        from <= r <= t@.len(),
        r - from == run_len(k, t@.skip(from as int)),
{
    let mut i: usize = from;
    while i < t.len() && continues(k, t[i])
        invariant
            from <= i <= t@.len(),
            forall|j: int| from <= j < i ==> in_run(k, #[trigger] t@[j]),
        decreases t@.len() - i,
    {
        i += 1;
    }
    proof {
        let s = t@.skip(from as int);
        let n = (i - from) as nat;
        assert forall|j: int| 0 <= j < n implies in_run(k, #[trigger] s[j]) by {
            assert(s[j] == t@[from + j]);
        }
        if n < s.len() {
            assert(s[n as int] == t@[i as int]);
        }
        lemma_run_len(k, s, n);
    }
    i
}

/// A line without the carriage return that a line end may carry.
pub open spec fn chomp(l: Seq<char>) -> Seq<char> {
    if l.len() > 0 && l.last() == '\r' {
        l.drop_last()
    } else {
        l
    }
}

/// The lines of a text: ended by a newline, with or without a carriage return
/// before it; the last one may go without.
pub open spec fn lines(t: Seq<char>) -> Seq<Seq<char>>
    decreases t.len(),
{
    if t.len() == 0 {
        Seq::empty()
    } else {
        let k = run_len(Run::Line, t);
        if k >= t.len() {
            seq![t]
        } else {
            seq![chomp(t.take(k as int))] + lines(t.skip(k as int + 1))
        }
    }
}

/// A line without the white space around it.
pub open spec fn trim(l: Seq<char>) -> Seq<char> {
    let front = l.skip(run_len(Run::Blank, l) as int);
    front.take(front.len() - run_len(Run::Blank, front.reverse()))
}

/// The words of a line: the longest stretches without white space.
pub open spec fn words(l: Seq<char>) -> Seq<Seq<char>>
    decreases l.len(),
{
    let front = l.skip(run_len(Run::Blank, l) as int);
    let n = run_len(Run::Word, front);
    if n == 0 || n > front.len() {
        Seq::empty()
    } else {
        proof {
            lemma_run_is(Run::Blank, l);
        }
        seq![front.take(n as int)] + words(front.skip(n as int))
    }
}

/// What the vectors in a list hold.
pub open spec fn views(v: Seq<Vec<char>>) -> Seq<Seq<char>> {
    v.map_values(|x: Vec<char>| x@)
}

/// The characters of a string.
pub fn chars_of(s: &str) -> (r: Vec<char>)
    ensures
        r@ == s@,
{
    let mut out: Vec<char> = Vec::new();
    for c in it: s.chars()
        invariant
            it.seq() == s@,
            out@ == s@.take(it.index() as int),
    {
        out.push(c);
        assert(s@.take(it.index() + 1) =~= s@.take(it.index() as int).push(c));
    }
    assert(s@.take(s@.len() as int) =~= s@);
    out
}

/// The string made of these characters.
pub fn string_of(cs: &Vec<char>) -> (r: String)
    ensures
        r@ == cs@,
{
    let mut out = String::new();
    let mut i: usize = 0;
    while i < cs.len()
        invariant
            0 <= i <= cs@.len(),
            out@ == cs@.take(i as int),
        decreases cs@.len() - i,
    {
        out.push(cs[i]);
        assert(cs@.take(i + 1) =~= cs@.take(i as int).push(cs@[i as int]));
        i += 1;
    }
    assert(cs@.take(cs@.len() as int) =~= cs@);
    out
}

/// A copy of the stretch from `from` up to `to`.
pub fn slice_of(t: &Vec<char>, from: usize, to: usize) -> (r: Vec<char>)
    requires
        from <= to <= t@.len(),
    ensures
        r@ == t@.subrange(from as int, to as int),
{
    let mut out: Vec<char> = Vec::new();
    let mut i: usize = from;
    while i < to
        invariant
            from <= i <= to <= t@.len(),
            out@ == t@.subrange(from as int, i as int),
        decreases to - i,
    {
        out.push(t[i]);
        assert(t@.subrange(from as int, i + 1) =~= t@.subrange(from as int, i as int).push(
            t@[i as int],
        ));
        i += 1;
    }
    out
}

/// The lines of a text.
pub fn split_lines(t: &Vec<char>) -> (r: Vec<Vec<char>>)
    ensures
        views(r@) == lines(t@),
{
    let mut out: Vec<Vec<char>> = Vec::new();
    let mut start: usize = 0;
    assert(t@.skip(0) =~= t@);
    assert(views(out@) =~= Seq::empty());
    while start < t.len()
        invariant
            start <= t@.len(),
            lines(t@) == views(out@) + lines(t@.skip(start as int)),
        decreases t@.len() - start,
    {
        let ghost rest = t@.skip(start as int);
        let end = run_end(Run::Line, t, start);
        let ghost before = out@;
        if end >= t.len() {
            let l = slice_of(t, start, end);
            proof {
                assert(l@ =~= rest);
                assert(views(before.push(l)) =~= views(before).push(rest));
                assert(lines(t@) =~= views(before) + seq![rest]);
                assert(t@.skip(end as int) =~= Seq::empty());
                assert(lines(Seq::empty()) =~= Seq::<Seq<char>>::empty());
            }
            out.push(l);
            start = end;
            assert(lines(t@) =~= views(out@) + lines(t@.skip(start as int)));
        } else {
            let mut stop: usize = end;
            if stop > start && t[stop - 1] == '\r' {
                stop -= 1;
            }
            let l = slice_of(t, start, stop);
            proof {
                assert(rest.take(end - start) =~= t@.subrange(start as int, end as int));
                assert(l@ =~= chomp(rest.take(end - start)));
                assert(views(before.push(l)) =~= views(before).push(l@));
                assert(rest.skip(end - start + 1) =~= t@.skip(end + 1));
                assert(lines(t@) =~= views(before).push(l@) + lines(t@.skip(end + 1)));
            }
            out.push(l);
            start = end + 1;
        }
    }
    proof {
        assert(t@.skip(start as int) =~= Seq::empty());
        assert(lines(t@) =~= views(out@));
    }
    out
}

/// A line without the white space around it.
pub fn trimmed(l: &Vec<char>) -> (r: Vec<char>)
    ensures
        r@ == trim(l@),
{
    proof {
        assert(l@.skip(0) =~= l@);
    }
    let from = run_end(Run::Blank, l, 0);
    let ghost front = l@.skip(from as int);
    let mut to: usize = l.len();
    while to > from && continues(Run::Blank, l[to - 1])
        invariant
            from <= to <= l@.len(),
            forall|j: int| to <= j < l@.len() ==> in_run(Run::Blank, #[trigger] l@[j]),
        decreases to,
    {
        to -= 1;
    }
    proof {
        let back = front.reverse();
        let n = (l@.len() - to) as nat;
        assert forall|i: int| 0 <= i < n implies in_run(Run::Blank, #[trigger] back[i]) by {
            assert(back[i] == l@[l@.len() - 1 - i]);
        }
        if n < back.len() {
            assert(back[n as int] == l@[to - 1]);
        }
        lemma_run_len(Run::Blank, back, n);
        assert(front.take(to - from) =~= l@.subrange(from as int, to as int));
    }
    slice_of(l, from, to)
}

/// The words of a line.
pub fn split_words(l: &Vec<char>) -> (r: Vec<Vec<char>>)
    ensures
        views(r@) == words(l@),
{
    let mut out: Vec<Vec<char>> = Vec::new();
    let mut at: usize = 0;
    let mut going = true;
    assert(l@.skip(0) =~= l@);
    assert(views(out@) =~= Seq::empty());
    while going
        invariant
            at <= l@.len(),
            going ==> words(l@) == views(out@) + words(l@.skip(at as int)),
            !going ==> words(l@) == views(out@),
        decreases l@.len() - at, if going { 1int } else { 0int },
    {
        let ghost rest = l@.skip(at as int);
        let from = run_end(Run::Blank, l, at);
        let ghost front = l@.skip(from as int);
        assert(rest.skip(from - at) =~= front);
        let to = run_end(Run::Word, l, from);
        if to == from {
            going = false;
            assert(words(rest) =~= Seq::empty());
            assert(words(l@) =~= views(out@));
        } else {
            let w = slice_of(l, from, to);
            let ghost before = out@;
            proof {
                assert(front.take(to - from) =~= w@);
                assert(front.skip(to - from) =~= l@.skip(to as int));
                assert(views(before.push(w)) =~= views(before).push(w@));
                assert(words(l@) =~= views(before).push(w@) + words(l@.skip(to as int)));
            }
            out.push(w);
            at = to;
        }
    }
    out
}

/// What a decimal digit counts for.
pub open spec fn digit_value(c: char) -> nat {
    (c as u32 - 48) as nat
}

/// The number that a row of decimal digits spells.
pub open spec fn decimal_value(ds: Seq<char>) -> nat
    decreases ds.len(),
{
    if ds.len() == 0 {
        0
    } else {
        decimal_value(ds.drop_last()) * 10 + digit_value(ds.last())
    }
}

/// Whether there are only decimal digits.
pub open spec fn all_digits(ds: Seq<char>) -> bool {
    forall|i: int| 0 <= i < ds.len() ==> in_run(Run::Digits, #[trigger] ds[i])
}

/// The number a word spells: decimal digits, with or without a plus sign
/// before them.
pub open spec fn number_of(s: Seq<char>) -> Option<nat> {
    let ds = if s.len() > 0 && s[0] == '+' {
        s.skip(1)
    } else {
        s
    };
    if ds.len() > 0 && all_digits(ds) {
        Some(decimal_value(ds))
    } else {
        None
    }
}

/// The same as far as it fits under `max`.
pub open spec fn number_up_to(s: Seq<char>, max: nat) -> Option<nat> {
    match number_of(s) {
        Some(n) => if n <= max {
            Some(n)
        } else {
            None
        },
        None => None,
    }
}

/// A longer row of digits spells no smaller number.
proof fn lemma_decimal_grows(ds: Seq<char>, k: int)
    requires
        0 <= k <= ds.len(),
        all_digits(ds),
    ensures
        decimal_value(ds.take(k)) <= decimal_value(ds),
    decreases ds.len(),
{
    if k == ds.len() {
        assert(ds.take(k) =~= ds);
    } else {
        lemma_decimal_grows(ds.drop_last(), k);
        assert(ds.drop_last().take(k) =~= ds.take(k));
    }
}

/// The number a word spells, if it is one and fits.
pub fn parse_u64(s: &Vec<char>) -> (r: Option<u64>)
    ensures
        match number_up_to(s@, u64::MAX as nat) {
            Some(n) => r == Some(n as u64),
            None => r is None,
        },
{
    let mut from: usize = 0;
    if s.len() > 0 && s[0] == '+' {
        from = 1;
    }
    let ghost ds = if s@.len() > 0 && s@[0] == '+' {
        s@.skip(1)
    } else {
        s@
    };
    assert(ds =~= s@.skip(from as int));
    if from == s.len() {
        return None;
    }
    let mut n: u64 = 0;
    let mut i: usize = from;
    while i < s.len()
        invariant
            from <= i <= s@.len(),
            from <= 1,
            ds == s@.skip(from as int),
            all_digits(ds.take(i - from)),
            n == decimal_value(ds.take(i - from)),
            number_of(s@) is Some <==> ds.len() > 0 && all_digits(ds),
            number_of(s@) matches Some(v) ==> v == decimal_value(ds),
        decreases s@.len() - i,
    {
        let c = s[i];
        assert(c == ds[i - from]);
        if !continues(Run::Digits, c) {
            assert(!all_digits(ds));
            return None;
        }
        let d: u64 = c as u32 as u64 - 48;
        proof {
            let head = ds.take(i - from);
            let next = ds.take(i - from + 1);
            assert(next.drop_last() =~= head);
            assert(next.last() == c);
            assert(decimal_value(next) == n * 10 + d);
            assert(all_digits(next)) by {
                assert forall|j: int| 0 <= j < next.len() implies in_run(
                    Run::Digits,
                    #[trigger] next[j],
                ) by {
                    if j < head.len() {
                        assert(head[j] == next[j]);
                    }
                }
            }
            if all_digits(ds) {
                lemma_decimal_grows(ds, i - from + 1);
            }
        }
        if n > (u64::MAX - d) / 10 {
            proof {
                assert(n * 10 + d > u64::MAX);
            }
            return None;
        }
        n = n * 10 + d;
        i += 1;
    }
    proof {
        assert(ds.take(i - from) =~= ds);
    }
    Some(n)
}

/// The number a word spells, if it is one and fits.
pub fn parse_u32(s: &Vec<char>) -> (r: Option<u32>)
    ensures
        match number_up_to(s@, u32::MAX as nat) {
            Some(n) => r == Some(n as u32),
            None => r is None,
        },
{
    match parse_u64(s) {
        Some(n) => if n <= u32::MAX as u64 {
            Some(n as u32)
        } else {
            None
        },
        None => None,
    }
}

/// The decimal digit for a value below ten.
pub open spec fn digit_char(d: nat) -> char {
    (48 + d) as char
}

/// A number in decimal digits.
pub open spec fn digits(n: nat) -> Seq<char>
    decreases n,
{
    if n < 10 {
        seq![digit_char(n)]
    } else {
        digits(n / 10).push(digit_char(n % 10))
    }
}

/// The decimal digit for a value below ten.
fn digit(d: u64) -> (r: char)
    requires
        d < 10,
    ensures
        r == digit_char(d as nat),
{
    (48 + d as u8) as char
}

/// Writes a number in decimal digits at the end of `out`.
pub fn push_number(out: &mut String, n: u64)
    ensures
        final(out)@ == old(out)@ + digits(n as nat),
{
    push_wide(out, n as u128);
}

/// The same for a number of any size.
pub fn push_wide(out: &mut String, n: u128)
    ensures
        final(out)@ == old(out)@ + digits(n as nat),
    decreases n,
{
    let ghost before = out@;
    if n >= 10 {
        push_wide(out, n / 10);
    }
    out.push(digit((n % 10) as u64));
    proof {
        assert(out@ =~= before + digits(n as nat));
    }
}

/// Writes a text at the end of `out`.
pub fn push_text(out: &mut String, s: &str)
    ensures
        final(out)@ == old(out)@ + s@,
{
    let cs = chars_of(s);
    let ghost before = out@;
    let mut i: usize = 0;
    while i < cs.len()
        invariant
            0 <= i <= cs@.len(),
            out@ == before + cs@.take(i as int),
        decreases cs@.len() - i,
    {
        out.push(cs[i]);
        assert(cs@.take(i + 1) =~= cs@.take(i as int).push(cs@[i as int]));
        assert(out@ =~= before + cs@.take(i + 1));
        i += 1;
    }
    assert(cs@.take(cs@.len() as int) =~= cs@);
}

/// What `digits` writes, `number_of` reads back.
pub proof fn number_reads_back(n: nat)
    ensures
        number_of(digits(n)) == Some(n),
{
    lemma_digits(n);
    let s = digits(n);
    assert(in_run(Run::Digits, s[0]));
    assert(s[0] != '+');
}

/// `digits` writes digits only, at least one, and their value is the number.
pub proof fn lemma_digits(n: nat)
    ensures
        digits(n).len() > 0,
        all_digits(digits(n)),
        decimal_value(digits(n)) == n,
    decreases n,
{
    reveal_with_fuel(decimal_value, 2);
    let s = digits(n);
    if n < 10 {
        assert(s.drop_last() =~= Seq::empty());
        assert(digit_char(n) as u32 == 48 + n);
    } else {
        lemma_digits(n / 10);
        assert(s.drop_last() =~= digits(n / 10));
        assert(digit_char(n % 10) as u32 == 48 + n % 10);
        assert forall|i: int| 0 <= i < s.len() implies in_run(Run::Digits, #[trigger] s[i]) by {
            if i < s.len() - 1 {
                assert(s[i] == digits(n / 10)[i]);
            }
        }
    }
}

} // verus!
