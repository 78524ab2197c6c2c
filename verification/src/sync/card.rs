//! Writing into a card's filter, and what its answers mean.

use vstd::prelude::*;

use crate::keyed::{lemma_mac_models, lemma_push_contains, KeySet};
use crate::mac::{mac_text, push_mac, Mac};
use crate::netlink::{refused_by, Errno, FdbWriter, Op, Recorded, Refusal, Refused, EEXIST, ENOENT};
use crate::sync::files::{
    grew, lemma_grew_push, lemma_grew_same, lemma_grew_trans, lemma_replay_add, lemma_replay_push,
    replay, replayed, since, Files,
};
use crate::sync::journal::{
    moved_line, moved_text, say_unclaimed, say_unnoted, unclaimed_text, unnoted_text,
};
use crate::sync::notes::{
    appended_addresses_are_named, filework, index_in, is_filework, lemma_filework_extended,
    lemma_filework_forgets, lemma_filework_one, lemma_filework_reduced, lemma_filework_same,
    lock_asked, note_extended, note_forgets, note_reduced, opt_list, owned_in, BookModel, Notebook,
};
use crate::text::push_text;
use crate::topology::TopologyModel;
use crate::topology::detect::texts;

verus! {

/// What a card's answer to one request means.
#[derive(Clone, Copy, PartialEq, Eq, Structural, Debug)]
pub enum Verdict {
    /// it was done
    Done,
    /// there was nothing to do: the entry was there already, or was not there
    Already,
    /// it was refused
    Failed,
}

/// What an answer means, for an entry put in or taken out.
pub open spec fn verdict_of(add: bool, refused: Option<Refused>) -> Verdict {
    match refused {
        None => Verdict::Done,
        Some(e) => if (add && e.errno == Errno(EEXIST)) || (!add && e.errno == Errno(ENOENT)) {
            Verdict::Already
        } else {
            Verdict::Failed
        },
    }
}

/// Whether `ops` puts each of `macs` into the filter of `index`, or takes each
/// out, one after the other.
pub open spec fn sets_all(ops: Seq<Op>, index: u32, macs: Seq<Mac>, add: bool) -> bool {
    &&& ops.len() == macs.len()
    &&& forall|i: int|
        0 <= i < ops.len() ==> ((#[trigger] ops[i]) matches Op::Card { ifindex, mac, add: a, .. }
            && ifindex == index && mac == macs[i] && a == add)
}

/// The addresses whose requests were answered in one of two ways.
pub open spec fn answered(ops: Seq<Op>, one: Verdict, other: Verdict) -> Seq<Mac>
    decreases ops.len(),
{
    if ops.len() == 0 {
        Seq::empty()
    } else {
        let head = answered(ops.drop_last(), one, other);
        match ops.last() {
            Op::Card { mac, add, refused, .. } => if verdict_of(add, refused) == one || verdict_of(
                add,
                refused,
            ) == other {
                head.push(mac)
            } else {
                head
            },
            _ => head,
        }
    }
}

/// The addresses whose requests were done.
pub open spec fn done_in(ops: Seq<Op>) -> Seq<Mac> {
    answered(ops, Verdict::Done, Verdict::Done)
}

/// The addresses that are now where they should be: done, or already so.
pub open spec fn settled_in(ops: Seq<Op>) -> Seq<Mac> {
    answered(ops, Verdict::Done, Verdict::Already)
}

/// The addresses for which there was nothing to do.
pub open spec fn already_in(ops: Seq<Op>) -> Seq<Mac> {
    answered(ops, Verdict::Already, Verdict::Already)
}

/// The addresses whose requests were refused.
pub open spec fn failed_in(ops: Seq<Op>) -> Seq<Mac> {
    answered(ops, Verdict::Failed, Verdict::Failed)
}

/// How a row of requests came out.
pub struct Outcome {
    pub done: Vec<Mac>,
    pub already: Vec<Mac>,
    pub settled: Vec<Mac>,
    pub failed: Vec<Mac>,
    /// the error of each refused request, in the order of `failed`
    pub errors: Vec<Refusal>,
}

/// What a list of refusals says.
pub open spec fn refusals(v: Seq<Refusal>) -> Seq<Refused> {
    v.map_values(|e: Refusal| e@)
}

/// What an `Outcome` says.
pub struct OutcomeModel {
    pub done: Seq<Mac>,
    pub already: Seq<Mac>,
    pub settled: Seq<Mac>,
    pub failed: Seq<Mac>,
    pub errors: Seq<Refused>,
}

impl View for Outcome {
    type V = OutcomeModel;

    open spec fn view(&self) -> OutcomeModel {
        OutcomeModel {
            done: self.done@,
            already: self.already@,
            settled: self.settled@,
            failed: self.failed@,
            errors: refusals(self.errors@),
        }
    }
}

/// How a row of requests came out.
pub open spec fn outcome_of(ops: Seq<Op>) -> OutcomeModel {
    OutcomeModel {
        done: done_in(ops),
        already: already_in(ops),
        settled: settled_in(ops),
        failed: failed_in(ops),
        errors: errors_in(ops),
    }
}

/// The errors of the refused requests.
pub open spec fn errors_in(ops: Seq<Op>) -> Seq<Refused>
    decreases ops.len(),
{
    if ops.len() == 0 {
        Seq::empty()
    } else {
        let head = errors_in(ops.drop_last());
        match ops.last() {
            Op::Card { add, refused: Some(e), .. } => if verdict_of(add, Some(e))
                == Verdict::Failed {
                head.push(e)
            } else {
                head
            },
            _ => head,
        }
    }
}

/// There is one error for each refused request.
pub proof fn lemma_errors(ops: Seq<Op>)
    ensures
        errors_in(ops).len() == failed_in(ops).len(),
    decreases ops.len(),
{
    if ops.len() > 0 {
        lemma_errors(ops.drop_last());
    }
}

/// Puts each of `macs` into the filter of `index`, or takes each out.
pub fn set_all<W: FdbWriter>(
    sock: &mut Recorded<W>,
    index: u32,
    macs: &Vec<Mac>,
    add: bool,
) -> (r: Outcome)
    ensures
        final(sock).marks() == old(sock).marks(),
        grew(old(sock).log(), final(sock).log()),
        sets_all(since(old(sock).log(), final(sock).log()), index, macs@, add),
        r@ == outcome_of(since(old(sock).log(), final(sock).log())),
{
    let ghost l0 = sock.log();
    let mut r = Outcome {
        done: Vec::new(),
        already: Vec::new(),
        settled: Vec::new(),
        failed: Vec::new(),
        errors: Vec::new(),
    };
    proof {
        lemma_grew_same(l0);
        assert(refusals(r.errors@) =~= Seq::empty());
    }
    let mut i: usize = 0;
    while i < macs.len()
        invariant
            sock.marks() == old(sock).marks(),
            i <= macs@.len(),
            grew(l0, sock.log()),
            sets_all(since(l0, sock.log()), index, macs@.take(i as int), add),
            r@ == outcome_of(since(l0, sock.log())),
        decreases macs@.len() - i,
    {
        let mac = macs[i];
        let ghost before = sock.log();
        let ghost ops = since(l0, before);
        let done = sock.set_self_fdb(index, &mac, add);
        proof {
            let op = Op::Card { ifindex: index, mac, add, refused: refused_by(done) };
            lemma_grew_push(l0, before, op);
            let next = ops.push(op);
            assert(since(l0, sock.log()) == next);
            assert(next.drop_last() =~= ops);
            assert(next.last() == op);
            assert forall|j: int| 0 <= j < next.len() implies ((#[trigger] next[j])
                matches Op::Card { ifindex, mac: m, add: a, .. } && ifindex == index && m
                == macs@.take(i + 1)[j] && a == add) by {
                if j < ops.len() {
                    assert(next[j] == ops[j]);
                    assert(macs@.take(i + 1)[j] == macs@.take(i as int)[j]);
                }
            }
        }
        match done {
            Ok(()) => {
                r.done.push(mac);
                r.settled.push(mac);
            },
            Err(e) => {
                let nothing_to_do = if add {
                    e.errno == Errno(EEXIST)
                } else {
                    e.errno == Errno(ENOENT)
                };
                if nothing_to_do {
                    r.already.push(mac);
                    r.settled.push(mac);
                } else {
                    r.failed.push(mac);
                    let ghost errors = r.errors@;
                    r.errors.push(e);
                    assert(refusals(r.errors@) =~= refusals(errors).push(e@));
                }
            },
        }
        i += 1;
    }
    assert(macs@.take(i as int) =~= macs@);
    r
}

/// Which addresses were answered in which way.
pub proof fn lemma_answered(ops: Seq<Op>, index: u32, macs: Seq<Mac>, add: bool)
    requires
        sets_all(ops, index, macs, add),
    ensures
        forall|m: Mac| #[trigger] settled_in(ops).contains(m) ==> macs.contains(m),
        forall|m: Mac| #[trigger] failed_in(ops).contains(m) ==> macs.contains(m),
        forall|m: Mac| #[trigger]
            macs.contains(m) ==> settled_in(ops).contains(m) || failed_in(ops).contains(m),
        forall|m: Mac| #[trigger] done_in(ops).contains(m) ==> settled_in(ops).contains(m),
        forall|m: Mac| #[trigger] already_in(ops).contains(m) ==> settled_in(ops).contains(m),
        settled_in(ops).len() + failed_in(ops).len() == macs.len(),
        done_in(ops).len() + already_in(ops).len() == settled_in(ops).len(),
        macs.no_duplicates() ==> settled_in(ops).no_duplicates() && failed_in(
            ops,
        ).no_duplicates() && done_in(ops).no_duplicates(),
        macs.no_duplicates() ==> forall|m: Mac| #[trigger]
            settled_in(ops).contains(m) ==> !failed_in(ops).contains(m),
    decreases ops.len(),
{
    if ops.len() > 0 {
        let front = ops.drop_last();
        let head = macs.drop_last();
        let m = macs.last();
        assert(sets_all(front, index, head, add)) by {
            assert forall|i: int| 0 <= i < front.len() implies ((#[trigger] front[i])
                matches Op::Card { ifindex, mac, add: a, .. } && ifindex == index && mac == head[i]
                && a == add) by {
                assert(front[i] == ops[i]);
            }
        }
        lemma_answered(front, index, head, add);
        assert(ops[ops.len() - 1] matches Op::Card { mac, add: a, .. } && mac == m && a == add);
        assert(macs =~= head.push(m));
        lemma_push_contains(head, m);
        lemma_push_contains(settled_in(front), m);
        lemma_push_contains(failed_in(front), m);
        lemma_push_contains(done_in(front), m);
        lemma_push_contains(already_in(front), m);
        if macs.no_duplicates() {
            assert(head.no_duplicates());
            assert(!head.contains(m)) by {
                if head.contains(m) {
                    let i = choose|i: int| 0 <= i < head.len() && head[i] == m;
                    assert(macs[i] == macs[macs.len() - 1]);
                }
            }
            assert forall|i: int| 0 <= i < settled_in(front).len() implies settled_in(front)[i]
                != m by {
                assert(settled_in(front).contains(settled_in(front)[i]));
            }
            assert forall|i: int| 0 <= i < failed_in(front).len() implies failed_in(front)[i]
                != m by {
                assert(failed_in(front).contains(failed_in(front)[i]));
            }
            assert forall|i: int| 0 <= i < done_in(front).len() implies done_in(front)[i] != m by {
                assert(done_in(front).contains(done_in(front)[i]));
                assert(settled_in(front).contains(done_in(front)[i]));
            }
        }
    }
}

/// Whether an interface index is a device's: the host says so, or the record
/// beside its note does.
pub open spec fn index_is(t: TopologyModel, dir: Files, dev: Seq<char>, index: u32) -> bool {
    ||| t.names.contains_key(dev) && t.names[dev] == index
    ||| index_in(dir, dev) == Some(index as nat)
}

/// Whether an address is on record for an interface: the note of the device
/// whose interface it is names it.
pub open spec fn noted_in(
    t: TopologyModel,
    dir: Files,
    dev: Seq<char>,
    index: u32,
    mac: Mac,
) -> bool {
    owned_in(dir, dev).contains(mac) && index_is(t, dir, dev, index)
}

/// What requests to a card are judged against.
pub struct Ground {
    /// the host
    pub t: TopologyModel,
    /// the files at the start
    pub dir: Files,
    /// What may be taken out of which interface on the strength of an earlier
    /// look at the note: what was being kept quiet then.
    pub quiet: Set<(u32, Mac)>,
}

/// Whether an address is on record for an interface now, or was at an earlier
/// moment of this stretch of requests.
pub open spec fn ever_noted(g: Ground, ops: Seq<Op>, index: u32, mac: Mac) -> bool {
    ||| g.quiet.contains((index, mac))
    ||| exists|k: int, dev: Seq<char>|
        #![trigger noted_in(g.t, replay(g.dir, ops.take(k)), dev, index, mac)]
        0 <= k <= ops.len() && noted_in(g.t, replay(g.dir, ops.take(k)), dev, index, mac)
}

/// Whether an address is on record for an interface once `ops` has been asked.
pub open spec fn noted_now(g: Ground, ops: Seq<Op>, index: u32, mac: Mac) -> bool {
    exists|dev: Seq<char>| #[trigger] noted_in(g.t, replay(g.dir, ops), dev, index, mac)
}

/// Whether the request at `i` keeps to the record: what goes into a card is on
/// record at that very moment, and what is taken out is, or was a moment ago.
pub open spec fn on_record(g: Ground, ops: Seq<Op>, i: int) -> bool {
    match ops[i] {
        Op::Card { ifindex, mac, add, .. } => if add {
            noted_now(g, ops.take(i), ifindex, mac)
        } else {
            ever_noted(g, ops.take(i), ifindex, mac)
        },
        _ => true,
    }
}

/// Whether every request to a card keeps to the record.
pub open spec fn kept_to_record(g: Ground, ops: Seq<Op>) -> bool {
    forall|i: int| 0 <= i < ops.len() ==> #[trigger] on_record(g, ops, i)
}

/// Whether everything asked since `l0` kept to the record, and left the files
/// as they are in `dir`.
pub open spec fn sound(g: Ground, l0: Seq<Op>, dir: Files, log: Seq<Op>) -> bool {
    &&& grew(l0, log)
    &&& dir == replay(g.dir, since(l0, log))
    &&& kept_to_record(g, since(l0, log))
}

/// Nothing asked is nothing done wrong.
pub proof fn lemma_sound_start(g: Ground, log: Seq<Op>)
    ensures
        sound(g, log, g.dir, log),
{
    lemma_grew_same(log);
}

/// What was on record stays something that was on record.
pub proof fn lemma_ever_later(g: Ground, a: Seq<Op>, b: Seq<Op>, index: u32, mac: Mac)
    requires
        ever_noted(g, a, index, mac),
    ensures
        ever_noted(g, a + b, index, mac),
{
    if !g.quiet.contains((index, mac)) {
        let (k, dev) = choose|k: int, dev: Seq<char>|
            #![trigger noted_in(g.t, replay(g.dir, a.take(k)), dev, index, mac)]
            0 <= k <= a.len() && noted_in(g.t, replay(g.dir, a.take(k)), dev, index, mac);
        assert((a + b).take(k) =~= a.take(k));
        assert(noted_in(g.t, replay(g.dir, (a + b).take(k)), dev, index, mac));
    }
}

/// What is on record now has been.
pub proof fn lemma_ever_now(g: Ground, ops: Seq<Op>, dev: Seq<char>, index: u32, mac: Mac)
    requires
        noted_in(g.t, replay(g.dir, ops), dev, index, mac),
    ensures
        ever_noted(g, ops, index, mac),
{
    assert(ops.take(ops.len() as int) =~= ops);
    assert(noted_in(g.t, replay(g.dir, ops.take(ops.len() as int)), dev, index, mac));
}

/// A stretch that asks nothing of a card keeps to the record.
pub proof fn lemma_sound_files(
    g: Ground,
    l0: Seq<Op>,
    d1: Files,
    l1: Seq<Op>,
    d2: Files,
    l2: Seq<Op>,
)
    requires
        sound(g, l0, d1, l1),
        filework(d1, l1, d2, l2),
    ensures
        sound(g, l0, d2, l2),
        since(l0, l2) == since(l0, l1) + since(l1, l2),
{
    lemma_grew_trans(l0, l1, l2);
    let a = since(l0, l1);
    let b = since(l1, l2);
    lemma_replay_add(g.dir, a, b);
    let c = since(l0, l2);
    assert forall|i: int| 0 <= i < c.len() implies #[trigger] on_record(g, c, i) by {
        if i < a.len() {
            assert(on_record(g, a, i));
            assert(c.take(i) =~= a.take(i));
            assert(c[i] == a[i]);
        } else {
            assert(c[i] == b[i - a.len()]);
            assert(is_filework(b[i - a.len()]));
        }
    }
}

/// One request that asks nothing of a card keeps to the record.
pub proof fn lemma_sound_ask(g: Ground, l0: Seq<Op>, d1: Files, l1: Seq<Op>, op: Op)
    requires
        sound(g, l0, d1, l1),
        !(op is Card),
    ensures
        sound(g, l0, replayed(d1, op), l1.push(op)),
        since(l0, l1.push(op)) == since(l0, l1).push(op),
{
    lemma_grew_push(l0, l1, op);
    let a = since(l0, l1);
    lemma_replay_push(g.dir, a, op);
    let c = a.push(op);
    assert forall|i: int| 0 <= i < c.len() implies #[trigger] on_record(g, c, i) by {
        if i < a.len() {
            assert(on_record(g, a, i));
            assert(c.take(i) =~= a.take(i));
            assert(c[i] == a[i]);
        }
    }
}

/// Requests to a card change no file.
pub proof fn lemma_cards_change_no_file(dir: Files, ops: Seq<Op>)
    requires
        forall|i: int| 0 <= i < ops.len() ==> (#[trigger] ops[i]) is Card,
    ensures
        replay(dir, ops) == dir,
    decreases ops.len(),
{
    if ops.len() > 0 {
        let front = ops.drop_last();
        assert forall|i: int| 0 <= i < front.len() implies (#[trigger] front[i]) is Card by {
            assert(front[i] == ops[i]);
        }
        lemma_cards_change_no_file(dir, front);
        assert(ops[ops.len() - 1] is Card);
    }
}

/// A row of requests to a card keeps to the record when each address that goes
/// in is on record, and each that is taken out has been.
pub proof fn lemma_sound_cards(
    g: Ground,
    l0: Seq<Op>,
    d1: Files,
    l1: Seq<Op>,
    l2: Seq<Op>,
    index: u32,
    macs: Seq<Mac>,
    add: bool,
)
    requires
        sound(g, l0, d1, l1),
        grew(l1, l2),
        sets_all(since(l1, l2), index, macs, add),
        forall|m: Mac| #[trigger]
            macs.contains(m) ==> if add {
                noted_now(g, since(l0, l1), index, m)
            } else {
                ever_noted(g, since(l0, l1), index, m)
            },
    ensures
        sound(g, l0, d1, l2),
        since(l0, l2) == since(l0, l1) + since(l1, l2),
{
    lemma_grew_trans(l0, l1, l2);
    let a = since(l0, l1);
    let b = since(l1, l2);
    lemma_replay_add(g.dir, a, b);
    let c = since(l0, l2);
    assert forall|i: int| 0 <= i < b.len() implies (#[trigger] b[i]) is Card by {}
    lemma_cards_change_no_file(d1, b);
    assert forall|i: int| 0 <= i < c.len() implies #[trigger] on_record(g, c, i) by {
        if i < a.len() {
            assert(on_record(g, a, i));
            assert(c.take(i) =~= a.take(i));
            assert(c[i] == a[i]);
        } else {
            let j = i - a.len();
            assert(c[i] == b[j]);
            assert(macs.contains(macs[j]));
            let head = b.take(j);
            assert(c.take(i) =~= a + head);
            if add {
                assert forall|x: int| 0 <= x < head.len() implies (#[trigger] head[x]) is Card by {
                    assert(head[x] == b[x]);
                }
                lemma_replay_add(g.dir, a, head);
                lemma_cards_change_no_file(d1, head);
            } else {
                lemma_ever_later(g, a, head, index, macs[j]);
            }
        }
    }
}

/// What is said of a refused request.
pub open spec fn refusal_text(dev: Seq<char>, what: Seq<char>, m: Mac, e: Refused) -> Seq<char> {
    dev + ": "@ + what + " "@ + mac_text(m) + ": "@ + e.words
}

/// What is said of the refused requests, one after the other.
pub open spec fn refusal_texts(
    dev: Seq<char>,
    what: Seq<char>,
    macs: Seq<Mac>,
    errors: Seq<Refused>,
) -> Seq<Seq<char>> {
    Seq::new(macs.len(), |i: int| refusal_text(dev, what, macs[i], errors[i]))
}

fn say_refused(dev: &String, what: &str, m: &Mac, e: &Refusal) -> (r: String)
    ensures
        r@ == refusal_text(dev@, what@, *m, e@),
{
    let mut s = dev.clone();
    push_text(&mut s, ": ");
    push_text(&mut s, what);
    push_text(&mut s, " ");
    push_mac(&mut s, m);
    push_text(&mut s, ": ");
    push_text(&mut s, &e.words);
    s
}

/// What is said of the refused requests, one after the other.
pub fn say_refusals(
    dev: &String,
    what: &str,
    macs: &Vec<Mac>,
    errors: &Vec<Refusal>,
) -> (r: Vec<String>)
    requires
        macs@.len() == errors@.len(),
    ensures
        texts(r@) == refusal_texts(dev@, what@, macs@, refusals(errors@)),
{
    let mut out: Vec<String> = Vec::new();
    let mut i: usize = 0;
    while i < macs.len()
        invariant
            macs@.len() == errors@.len(),
            i <= macs@.len(),
            out@.len() == i,
            forall|j: int|
                0 <= j < i ==> (#[trigger] out@[j])@ == refusal_text(
                    dev@,
                    what@,
                    macs@[j],
                    errors@[j]@,
                ),
        decreases macs@.len() - i,
    {
        out.push(say_refused(dev, what, &macs[i], &errors[i]));
        i += 1;
    }
    assert(texts(out@) =~= refusal_texts(dev@, what@, macs@, refusals(errors@)));
    out
}

/// What a registration attempt achieved.
pub struct Registered {
    /// Addresses this call put into the card.
    pub put: Vec<Mac>,
    /// Addresses the card is now known to hold because of this call: taken, or
    /// refused as already there. An address a hard error left out is not among
    /// them.
    pub held: Vec<Mac>,
    /// What went wrong, for a caller that reports.
    pub failures: Vec<String>,
}

/// What a `Registered` says.
pub struct RegisteredModel {
    pub put: Seq<Mac>,
    pub held: Seq<Mac>,
    pub failures: Seq<Seq<char>>,
}

impl View for Registered {
    type V = RegisteredModel;

    open spec fn view(&self) -> RegisteredModel {
        RegisteredModel { put: self.put@, held: self.held@, failures: texts(self.failures@) }
    }
}

/// What a registration attempt achieved, if it got as far as the card.
pub open spec fn opt_registered(r: Option<Registered>) -> Option<RegisteredModel> {
    match r {
        Some(reg) => Some(reg@),
        None => None,
    }
}

/// What the card's answers to a batch say.
pub open spec fn registered_of(dev: Seq<char>, ops: Seq<Op>) -> RegisteredModel {
    RegisteredModel {
        put: done_in(ops),
        held: settled_in(ops),
        failures: refusal_texts(dev, "register"@, failed_in(ops), errors_in(ops)),
    }
}

/// The addresses of a batch that the card calls somebody else's, and that only
/// this batch put on the note.
pub open spec fn unclaimed(ops: Seq<Op>, fresh: Seq<Mac>) -> Seq<Mac> {
    already_in(ops).filter(|m: Mac| fresh.contains(m))
}

/// The book once it has been said what the card would not take.
pub open spec fn refused_said(b: BookModel, dev: Seq<char>, ops: Seq<Op>) -> BookModel {
    b.saying_all(refusal_warnings(dev, "register"@, failed_in(ops), errors_in(ops)))
}

/// The book once somebody else's addresses were to come off the note again, and
/// did or did not.
pub open spec fn reduced_said(b: BookModel, dev: Seq<char>, n: nat, ok: bool) -> BookModel {
    if ok {
        b
    } else {
        b.saying(unclaimed_text(dev, n))
    }
}

/// The second half of registering a batch: the card is asked for every
/// address, and what it calls somebody else's comes off the note again.
pub open spec fn batch_answered(
    b: BookModel,
    log: Seq<Op>,
    l1: Seq<Op>,
    dev: Seq<char>,
    index: u32,
    macs: Seq<Mac>,
    fresh: Seq<Mac>,
    b2: BookModel,
    log2: Seq<Op>,
    reg: RegisteredModel,
) -> bool {
    let ops = since(log, l1);
    let theirs = unclaimed(ops, fresh);
    &&& grew(log, l1)
    &&& sets_all(ops, index, macs, true)
    &&& reg == registered_of(dev, ops)
    &&& if theirs.len() == 0 {
        b2 == refused_said(b, dev, ops) && log2 == l1
    } else {
        exists|ok: bool, b3: BookModel| #[trigger]
            note_reduced(
                refused_said(b, dev, ops),
                l1,
                dev,
                theirs.to_set(),
                b3,
                log2,
                ok,
            ) && b2 == reduced_said(b3, dev, theirs.len(), ok)
    }
}

/// What becomes of a batch once the note has taken it.
pub open spec fn batch_settled(
    b: BookModel,
    log: Seq<Op>,
    dev: Seq<char>,
    index: u32,
    macs: Seq<Mac>,
    fresh: Seq<Mac>,
    b2: BookModel,
    log2: Seq<Op>,
    reg: RegisteredModel,
) -> bool {
    exists|l1: Seq<Op>| #[trigger]
        batch_answered(b, log, l1, dev, index, macs, fresh, b2, log2, reg)
}

/// What registering a batch comes to, the lock held: the note takes every
/// address before the card is asked for any.
pub open spec fn batch_noted(
    b: BookModel,
    log: Seq<Op>,
    dev: Seq<char>,
    index: u32,
    macs: Seq<Mac>,
    b2: BookModel,
    log2: Seq<Op>,
    r: Option<RegisteredModel>,
) -> bool {
    exists|b1: BookModel, l1: Seq<Op>, fresh: Option<Seq<Mac>>|
        {
            &&& #[trigger] note_extended(b, log, dev, macs, b1, l1, fresh)
            &&& match (fresh, r) {
                (None, None) => b2 == b1.saying(unnoted_text(dev, macs.len())) && log2 == l1,
                (Some(f), Some(reg)) => batch_settled(
                    b1,
                    l1,
                    dev,
                    index,
                    macs,
                    f,
                    b2,
                    log2,
                    reg,
                ),
                _ => false,
            }
        }
}

/// What registering a batch comes to: the note takes every address before the
/// card is asked for any, all of it under the note's lock.
pub open spec fn batch_registered(
    b: BookModel,
    log: Seq<Op>,
    dev: Seq<char>,
    index: u32,
    macs: Seq<Mac>,
    b2: BookModel,
    log2: Seq<Op>,
    r: Option<RegisteredModel>,
) -> bool {
    exists|bl: BookModel, ll: Seq<Op>, l2: Seq<Op>|
        {
            &&& #[trigger] lock_asked(b, log, dev, bl, ll)
            &&& #[trigger] batch_noted(bl, ll, dev, index, macs, b2, l2, r)
            &&& log2 == l2.push(Op::Unlock { dev })
        }
}

/// Whether every request in a stretch that goes to a card puts one of these
/// addresses into this interface, or takes one out.
pub open spec fn cards_only(ops: Seq<Op>, index: u32, macs: Set<Mac>, add: bool) -> bool {
    forall|i: int|
        0 <= i < ops.len() ==> ((#[trigger] ops[i]) matches Op::Card { ifindex, mac, add: a, .. }
            ==> ifindex == index && macs.contains(mac) && a == add)
}

proof fn lemma_cards_only_files(
    dir: Files,
    log: Seq<Op>,
    dir2: Files,
    log2: Seq<Op>,
    index: u32,
    macs: Set<Mac>,
    add: bool,
)
    requires
        filework(dir, log, dir2, log2),
    ensures
        cards_only(since(log, log2), index, macs, add),
{
    let ops = since(log, log2);
    assert forall|i: int| 0 <= i < ops.len() implies ((#[trigger] ops[i])
        matches Op::Card { ifindex, mac, add: a, .. } ==> ifindex == index && macs.contains(mac)
        && a == add) by {
        assert(is_filework(ops[i]));
    }
}

/// Two such stretches make one.
pub proof fn lemma_cards_only_add(a: Seq<Op>, b: Seq<Op>, index: u32, macs: Set<Mac>, add: bool)
    requires
        cards_only(a, index, macs, add),
        cards_only(b, index, macs, add),
    ensures
        cards_only(a + b, index, macs, add),
{
    let c = a + b;
    assert forall|i: int| 0 <= i < c.len() implies ((#[trigger] c[i])
        matches Op::Card { ifindex, mac, add: x, .. } ==> ifindex == index && macs.contains(mac)
        && x == add) by {
        if i < a.len() {
            assert(c[i] == a[i]);
        } else {
            assert(c[i] == b[i - a.len()]);
        }
    }
}

/// What is asked of a card in a row.
pub proof fn lemma_cards_only_row(ops: Seq<Op>, index: u32, macs: Seq<Mac>, add: bool)
    requires
        sets_all(ops, index, macs, add),
    ensures
        cards_only(ops, index, macs.to_set(), add),
{
    assert forall|i: int| 0 <= i < ops.len() implies ((#[trigger] ops[i])
        matches Op::Card { ifindex, mac, add: a, .. } ==> ifindex == index
        && macs.to_set().contains(mac) && a == add) by {
        assert(macs.contains(macs[i]));
    }
}

/// Registering a batch keeps to the record: every address is on the note at
/// the moment the card is asked for it.
pub proof fn registering_notes_first(
    g: Ground,
    l0: Seq<Op>,
    b: BookModel,
    log: Seq<Op>,
    dev: Seq<char>,
    index: u32,
    macs: Seq<Mac>,
    b2: BookModel,
    log2: Seq<Op>,
    r: Option<RegisteredModel>,
)
    requires
        sound(g, l0, b.dir, log),
        batch_registered(b, log, dev, index, macs, b2, log2, r),
        g.t.names.contains_key(dev),
        g.t.names[dev] == index,
    ensures
        sound(g, l0, b2.dir, log2),
        grew(log, log2),
        cards_only(since(log, log2), index, macs.to_set(), true),
        r matches Some(reg) ==> {
            &&& reg.put.to_set().subset_of(reg.held.to_set())
            &&& reg.held.to_set().subset_of(macs.to_set())
            &&& macs.no_duplicates() ==> reg.put.no_duplicates()
            &&& reg.put.len() <= macs.len()
            &&& forall|m: Mac| #[trigger]
                reg.put.contains(m) ==> ever_noted(g, since(l0, log2), index, m)
        },
{
    let (bl, ll, l3) = choose|bl: BookModel, ll: Seq<Op>, l2: Seq<Op>|
        {
            &&& #[trigger] lock_asked(b, log, dev, bl, ll)
            &&& #[trigger] batch_noted(bl, ll, dev, index, macs, b2, l2, r)
            &&& log2 == l2.push(Op::Unlock { dev })
        };
    let unlock = Op::Unlock { dev };
    lemma_filework_one(b.dir, log, ll.last());
    lemma_sound_files(g, l0, b.dir, log, bl.dir, ll);
    lemma_cards_only_files(b.dir, log, bl.dir, ll, index, macs.to_set(), true);
    let (b1, l1, fresh) = choose|b1: BookModel, l1: Seq<Op>, fresh: Option<Seq<Mac>>|
        {
            &&& #[trigger] note_extended(bl, ll, dev, macs, b1, l1, fresh)
            &&& match (fresh, r) {
                (None, None) => b2 == b1.saying(unnoted_text(dev, macs.len())) && l3 == l1,
                (Some(f), Some(reg)) => batch_settled(
                    b1,
                    l1,
                    dev,
                    index,
                    macs,
                    f,
                    b2,
                    l3,
                    reg,
                ),
                _ => false,
            }
        };
    appended_addresses_are_named(bl, ll, dev, macs, b1, l1, fresh);
    lemma_filework_extended(bl, ll, dev, macs, b1, l1, fresh);
    lemma_sound_files(g, l0, bl.dir, ll, b1.dir, l1);
    lemma_cards_only_files(bl.dir, ll, b1.dir, l1, index, macs.to_set(), true);
    lemma_grew_trans(log, ll, l1);
    lemma_cards_only_add(since(log, ll), since(ll, l1), index, macs.to_set(), true);
    if let Some(f) = fresh {
        let reg = r->0;
        let l2 = choose|l2: Seq<Op>| #[trigger]
            batch_answered(b1, l1, l2, dev, index, macs, f, b2, l3, reg);
        let ops = since(l1, l2);
        assert forall|m: Mac| #[trigger] macs.contains(m) implies noted_now(
            g,
            since(l0, l1),
            index,
            m,
        ) by {
            assert(noted_in(g.t, replay(g.dir, since(l0, l1)), dev, index, m));
        }
        lemma_sound_cards(g, l0, b1.dir, l1, l2, index, macs, true);
        lemma_cards_only_row(ops, index, macs, true);
        lemma_grew_trans(log, l1, l2);
        lemma_cards_only_add(since(log, l1), ops, index, macs.to_set(), true);
        lemma_answered(ops, index, macs, true);
        let theirs = unclaimed(ops, f);
        lemma_filework_same(b1.dir, l2);
        if theirs.len() > 0 {
            let bs = refused_said(b1, dev, ops);
            let (ok, b3) = choose|ok: bool, b3: BookModel| #[trigger]
                note_reduced(bs, l2, dev, theirs.to_set(), b3, l3, ok) && b2 == reduced_said(
                    b3,
                    dev,
                    theirs.len(),
                    ok,
                );
            lemma_filework_reduced(bs, l2, dev, theirs.to_set(), b3, l3, ok);
        }
        lemma_sound_files(g, l0, b1.dir, l2, b2.dir, l3);
        lemma_cards_only_files(b1.dir, l2, b2.dir, l3, index, macs.to_set(), true);
        lemma_grew_trans(log, l2, l3);
        lemma_cards_only_add(since(log, l2), since(l2, l3), index, macs.to_set(), true);
        assert forall|m: Mac| #[trigger] reg.put.contains(m) implies ever_noted(
            g,
            since(l0, log2),
            index,
            m,
        ) by {
            assert(macs.contains(m));
            assert(noted_in(g.t, replay(g.dir, since(l0, l1)), dev, index, m));
            lemma_ever_now(g, since(l0, l1), dev, index, m);
            lemma_grew_push(l0, l3, unlock);
            lemma_grew_trans(l0, l1, l2);
            lemma_grew_trans(l0, l2, l3);
            lemma_ever_later(g, since(l0, l1), since(l1, l2), index, m);
            lemma_ever_later(g, since(l0, l2), since(l2, l3), index, m);
            lemma_ever_later(g, since(l0, l3), seq![unlock], index, m);
            assert(since(l0, l3) + seq![unlock] =~= since(l0, log2));
        }
        assert forall|m: Mac| reg.put.to_set().contains(m) implies reg.held.to_set().contains(
            m,
        ) by {
            assert(reg.put.contains(m));
        }
        assert forall|m: Mac| reg.held.to_set().contains(m) implies macs.to_set().contains(
            m,
        ) by {
            assert(reg.held.contains(m));
        }
    }
    lemma_filework_one(b2.dir, l3, unlock);
    lemma_sound_files(g, l0, b2.dir, l3, b2.dir, log2);
    lemma_cards_only_files(b2.dir, l3, b2.dir, log2, index, macs.to_set(), true);
    lemma_grew_trans(log, l3, log2);
    lemma_cards_only_add(since(log, l3), since(l3, log2), index, macs.to_set(), true);
}

/// Registers a batch note-first, under the note's lock - the one spelling of
/// the order that the pass and the event path share.
///
/// Written the other way round, a crash between the two would leave an entry in
/// the card that no note names, and nothing would ever take it out. This way
/// round it leaves a note naming an absent entry, which heals. `None` means
/// that the note refused the batch and the card was not touched.
pub fn register_batch_locked<W: FdbWriter>(
    book: &mut Notebook,
    sock: &mut Recorded<W>,
    dev: &String,
    index: u32,
    macs: &Vec<Mac>,
) -> (r: Option<Registered>)
    ensures
        final(sock).marks() == old(sock).marks(),
        batch_registered(
            old(book)@,
            old(sock).log(),
            dev@,
            index,
            macs@,
            final(book)@,
            final(sock).log(),
            opt_registered(r),
        ),
{
    book.locked(sock, dev);
    let ghost bl = book@;
    let ghost ll = sock.log();
    assert(lock_asked(old(book)@, old(sock).log(), dev@, bl, ll));
    let r = note_and_register(book, sock, dev, index, macs);
    let ghost l2 = sock.log();
    assert(batch_noted(bl, ll, dev@, index, macs@, book@, l2, opt_registered(r)));
    sock.unlock(dev);
    r
}

/// The same with the lock held.
fn note_and_register<W: FdbWriter>(
    book: &mut Notebook,
    sock: &mut Recorded<W>,
    dev: &String,
    index: u32,
    macs: &Vec<Mac>,
) -> (r: Option<Registered>)
    ensures
        final(sock).marks() == old(sock).marks(),
        batch_noted(
            old(book)@,
            old(sock).log(),
            dev@,
            index,
            macs@,
            final(book)@,
            final(sock).log(),
            opt_registered(r),
        ),
{
    let ghost b = book@;
    let ghost log = sock.log();
    let fresh = book.append_owned_locked(sock, dev, macs);
    let ghost b1 = book@;
    let ghost l1 = sock.log();
    let ghost f = opt_list(fresh);
    assert(note_extended(b, log, dev@, macs@, b1, l1, f));
    match fresh {
        None => {
            book.say(say_unnoted(dev, macs.len() as u64));
            None
        },
        Some(fresh) => {
            let out = set_all(sock, index, macs, true);
            let ghost l2 = sock.log();
            let ghost ops = since(l1, l2);
            proof {
                lemma_errors(ops);
            }
            let ghost p = |m: Mac| fresh@.contains(m);
            let ours = KeySet::of_list(&fresh);
            let mut theirs: Vec<Mac> = Vec::new();
            let mut i: usize = 0;
            proof {
                lemma_mac_models(fresh@);
                reveal(Seq::filter);
                assert(out.already@.take(0) =~= Seq::empty());
            }
            while i < out.already.len()
                invariant
                    sock.marks() == old(sock).marks(),
                    i <= out.already@.len(),
                    ours@ == fresh@.to_set(),
                    p == (|m: Mac| fresh@.contains(m)),
                    theirs@ == out.already@.take(i as int).filter(p),
                decreases out.already@.len() - i,
            {
                proof {
                    reveal(Seq::filter);
                    let next = out.already@.take(i + 1);
                    assert(next.drop_last() =~= out.already@.take(i as int));
                    assert(next.last() == out.already@[i as int]);
                }
                if ours.contains(&out.already[i]) {
                    theirs.push(out.already[i]);
                }
                i += 1;
            }
            assert(out.already@.take(i as int) =~= out.already@);
            warn_refusals(book, dev, "register", &out.failed, &out.errors);
            let ghost bs = book@;
            assert(bs == refused_said(b1, dev@, ops));
            if theirs.len() > 0 {
                let ok = book.unnote_locked(sock, dev, &theirs);
                let ghost b3 = book@;
                if !ok {
                    book.say(say_unclaimed(dev, theirs.len() as u64));
                }
                proof {
                    let all = theirs@.to_set();
                    assert(note_reduced(bs, l2, dev@, all, b3, sock.log(), ok));
                    assert(book@ == reduced_said(b3, dev@, theirs@.len(), ok));
                }
            }
            let failures = say_refusals(dev, "register", &out.failed, &out.errors);
            let reg = Registered { put: out.done, held: out.settled, failures };
            assert(theirs@ == unclaimed(ops, fresh@));
            assert(batch_answered(
                b1,
                l1,
                l2,
                dev@,
                index,
                macs@,
                fresh@,
                book@,
                sock.log(),
                reg@,
            ));
            assert(batch_settled(b1, l1, dev@, index, macs@, fresh@, book@, sock.log(), reg@));
            Some(reg)
        },
    }
}

/// Takes every one of `owned` back out of the filter. How that came out: what
/// was refused stays owned.
pub fn unregister_all<W: FdbWriter>(
    sock: &mut Recorded<W>,
    ifindex: u32,
    owned: &Vec<Mac>,
) -> (r: Outcome)
    ensures
        final(sock).marks() == old(sock).marks(),
        grew(old(sock).log(), final(sock).log()),
        sets_all(since(old(sock).log(), final(sock).log()), ifindex, owned@, false),
        r@ == outcome_of(since(old(sock).log(), final(sock).log())),
{
    set_all(sock, ifindex, owned, false)
}

/// Why noted addresses are taken out of a card.
#[derive(Clone, Copy)]
pub enum Why {
    /// they are not wanted any more
    Stale,
    /// the list nears its limit, and they are only kept
    Quiet,
    /// they were seen on the wire
    Wire,
}

/// What is said of a request that the card refused.
pub open spec fn refusal_warning(
    dev: Seq<char>,
    what: Seq<char>,
    m: Mac,
    e: Refused,
) -> Seq<char> {
    "warning: "@ + dev + ": cannot "@ + what + " "@ + mac_text(m) + ": "@ + e.words
}

/// What is said of the requests that the card refused, one after the other.
pub open spec fn refusal_warnings(
    dev: Seq<char>,
    what: Seq<char>,
    macs: Seq<Mac>,
    errors: Seq<Refused>,
) -> Seq<Seq<char>> {
    Seq::new(macs.len(), |i: int| refusal_warning(dev, what, macs[i], errors[i]))
}

/// What is said of addresses that were seen on the wire and taken out.
pub open spec fn moved_lines(dev: Seq<char>, macs: Seq<Mac>) -> Seq<Seq<char>> {
    macs.map_values(|m: Mac| moved_text(dev, m))
}

/// The book once it has been said how taking addresses out came out.
pub open spec fn outcome_said(
    b: BookModel,
    dev: Seq<char>,
    o: OutcomeModel,
    why: Why,
) -> BookModel {
    match why {
        Why::Stale => b.saying_all(refusal_warnings(dev, "unregister"@, o.failed, o.errors)),
        Why::Quiet => b.saying_all(refusal_warnings(dev, "release quiet"@, o.failed, o.errors)),
        Why::Wire => b.saying_all(moved_lines(dev, o.done)).saying_all(
            refusal_warnings(dev, "unregister"@, o.failed, o.errors),
        ),
    }
}

fn warn_refused(dev: &String, what: &str, m: &Mac, e: &Refusal) -> (r: String)
    ensures
        r@ == refusal_warning(dev@, what@, *m, e@),
{
    let mut s = String::new();
    push_text(&mut s, "warning: ");
    push_text(&mut s, dev);
    push_text(&mut s, ": cannot ");
    push_text(&mut s, what);
    push_text(&mut s, " ");
    push_mac(&mut s, m);
    push_text(&mut s, ": ");
    push_text(&mut s, &e.words);
    s
}

/// Says of each refused request that it was.
pub(crate) fn warn_refusals(
    book: &mut Notebook,
    dev: &String,
    what: &str,
    macs: &Vec<Mac>,
    errors: &Vec<Refusal>,
)
    requires
        macs@.len() == errors@.len(),
    ensures
        final(book)@ == old(book)@.saying_all(refusal_warnings(dev@, what@, macs@, refusals(errors@))),
{
    let ghost all = refusal_warnings(dev@, what@, macs@, refusals(errors@));
    let mut i: usize = 0;
    assert(book@.journal =~= old(book)@.journal + all.take(0));
    while i < macs.len()
        invariant
            macs@.len() == errors@.len(),
            i <= macs@.len(),
            all == refusal_warnings(dev@, what@, macs@, refusals(errors@)),
            book@ == old(book)@.saying_all(all.take(i as int)),
        decreases macs@.len() - i,
    {
        let line = warn_refused(dev, what, &macs[i], &errors[i]);
        let ghost before = book@.journal;
        book.say(line);
        proof {
            assert(all[i as int] == line@);
            assert(all.take(i + 1) =~= all.take(i as int).push(all[i as int]));
            assert(book@.journal =~= old(book)@.journal + all.take(i + 1));
        }
        i += 1;
    }
    assert(all.take(i as int) =~= all);
}

fn say_moved(book: &mut Notebook, dev: &String, macs: &Vec<Mac>)
    ensures
        final(book)@ == old(book)@.saying_all(moved_lines(dev@, macs@)),
{
    let ghost all = moved_lines(dev@, macs@);
    let mut i: usize = 0;
    assert(book@.journal =~= old(book)@.journal + all.take(0));
    while i < macs.len()
        invariant
            i <= macs@.len(),
            all == moved_lines(dev@, macs@),
            book@ == old(book)@.saying_all(all.take(i as int)),
        decreases macs@.len() - i,
    {
        let line = moved_line(dev, &macs[i]);
        book.say(line);
        proof {
            assert(all[i as int] == line@);
            assert(all.take(i + 1) =~= all.take(i as int).push(all[i as int]));
            assert(book@.journal =~= old(book)@.journal + all.take(i + 1));
        }
        i += 1;
    }
    assert(all.take(i as int) =~= all);
}

/// Says how taking addresses out came out.
fn tell(book: &mut Notebook, dev: &String, o: &Outcome, why: Why)
    requires
        o.failed@.len() == o.errors@.len(),
    ensures
        final(book)@ == outcome_said(old(book)@, dev@, o@, why),
{
    match why {
        Why::Stale => {
            warn_refusals(book, dev, "unregister", &o.failed, &o.errors);
        },
        Why::Quiet => {
            warn_refusals(book, dev, "release quiet", &o.failed, &o.errors);
        },
        Why::Wire => {
            say_moved(book, dev, &o.done);
            warn_refusals(book, dev, "unregister", &o.failed, &o.errors);
        },
    }
}

/// What taking noted addresses out of a card and off the note comes to, under
/// its lock: the card first, the note then forgets what the card let go.
pub open spec fn taken_out(
    b: BookModel,
    log: Seq<Op>,
    dev: Seq<char>,
    index: u32,
    macs: Seq<Mac>,
    b2: BookModel,
    log2: Seq<Op>,
    o: OutcomeModel,
    why: Why,
) -> bool {
    exists|bl: BookModel, ll: Seq<Op>, l1: Seq<Op>, l2: Seq<Op>|
        {
            &&& #[trigger] lock_asked(b, log, dev, bl, ll)
            &&& grew(ll, l1)
            &&& sets_all(since(ll, l1), index, macs, false)
            &&& o == outcome_of(since(ll, l1))
            &&& #[trigger] note_forgets(outcome_said(bl, dev, o, why), l1, dev, o.settled, b2, l2)
            &&& log2 == l2.push(Op::Unlock { dev })
        }
}

/// Takes addresses out of a card and off the note, under one lock: with the
/// delete outside it, somebody else could put the entry back in between, and
/// its line would be taken off.
pub fn take_out<W: FdbWriter>(
    book: &mut Notebook,
    sock: &mut Recorded<W>,
    dev: &String,
    index: u32,
    macs: &Vec<Mac>,
    why: Why,
) -> (r: Outcome)
    ensures
        final(sock).marks() == old(sock).marks(),
        taken_out(
            old(book)@,
            old(sock).log(),
            dev@,
            index,
            macs@,
            final(book)@,
            final(sock).log(),
            r@,
            why,
        ),
{
    book.locked(sock, dev);
    let ghost bl = book@;
    let ghost ll = sock.log();
    let out = set_all(sock, index, macs, false);
    let ghost l1 = sock.log();
    proof {
        lemma_errors(since(ll, l1));
    }
    tell(book, dev, &out, why);
    book.forget_locked(sock, dev, &out.settled);
    let ghost l2 = sock.log();
    sock.unlock(dev);
    proof {
        assert(lock_asked(old(book)@, old(sock).log(), dev@, bl, ll));
        assert(note_forgets(outcome_said(bl, dev@, out@, why), l1, dev@, out@.settled, book@, l2));
    }
    out
}

/// There is one error for each address that could not be taken out.
pub proof fn lemma_taken_out_errors(
    b: BookModel,
    log: Seq<Op>,
    dev: Seq<char>,
    index: u32,
    macs: Seq<Mac>,
    b2: BookModel,
    log2: Seq<Op>,
    o: OutcomeModel,
    why: Why,
)
    requires
        taken_out(b, log, dev, index, macs, b2, log2, o, why),
    ensures
        o.errors.len() == o.failed.len(),
{
    let (bl, ll, l1, l2) = choose|bl: BookModel, ll: Seq<Op>, l1: Seq<Op>, l2: Seq<Op>|
        {
            &&& #[trigger] lock_asked(b, log, dev, bl, ll)
            &&& grew(ll, l1)
            &&& sets_all(since(ll, l1), index, macs, false)
            &&& o == outcome_of(since(ll, l1))
            &&& #[trigger] note_forgets(outcome_said(bl, dev, o, why), l1, dev, o.settled, b2, l2)
            &&& log2 == l2.push(Op::Unlock { dev })
        };
    lemma_errors(since(ll, l1));
}

/// Every address that is to be taken out is asked for.
pub proof fn lemma_taken_out_asks(
    b: BookModel,
    log: Seq<Op>,
    dev: Seq<char>,
    index: u32,
    macs: Seq<Mac>,
    b2: BookModel,
    log2: Seq<Op>,
    o: OutcomeModel,
    k: int,
    why: Why,
) -> (i: int)
    requires
        taken_out(b, log, dev, index, macs, b2, log2, o, why),
        0 <= k < macs.len(),
    ensures
        log.len() <= i < log2.len(),
        log2[i] matches Op::Card { ifindex, mac, add: false, .. } && ifindex == index && mac
            == macs[k],
{
    let (bl, ll, l1, l2) = choose|bl: BookModel, ll: Seq<Op>, l1: Seq<Op>, l2: Seq<Op>|
        {
            &&& #[trigger] lock_asked(b, log, dev, bl, ll)
            &&& grew(ll, l1)
            &&& sets_all(since(ll, l1), index, macs, false)
            &&& o == outcome_of(since(ll, l1))
            &&& #[trigger] note_forgets(outcome_said(bl, dev, o, why), l1, dev, o.settled, b2, l2)
            &&& log2 == l2.push(Op::Unlock { dev })
        };
    let ops = since(ll, l1);
    assert(ops[k] == l1[ll.len() + k]);
    lemma_filework_forgets(outcome_said(bl, dev, o, why), l1, dev, o.settled, b2, l2);
    let i = ll.len() + k;
    assert(l2.take(l1.len() as int)[i] == l1[i]);
    i
}

/// Taking out what is, or was, on record keeps to the record.
pub proof fn only_noted_addresses_are_taken_out(
    g: Ground,
    l0: Seq<Op>,
    b: BookModel,
    log: Seq<Op>,
    dev: Seq<char>,
    index: u32,
    macs: Seq<Mac>,
    b2: BookModel,
    log2: Seq<Op>,
    o: OutcomeModel,
    why: Why,
)
    requires
        sound(g, l0, b.dir, log),
        taken_out(b, log, dev, index, macs, b2, log2, o, why),
        forall|m: Mac| #[trigger] macs.contains(m) ==> ever_noted(g, since(l0, log), index, m),
    ensures
        sound(g, l0, b2.dir, log2),
        grew(log, log2),
        cards_only(since(log, log2), index, macs.to_set(), false),
        o.settled.to_set().subset_of(macs.to_set()),
        o.failed.to_set().subset_of(macs.to_set()),
        forall|m: Mac| #[trigger]
            macs.contains(m) ==> o.settled.contains(m) || o.failed.contains(m),
        o.errors.len() == o.failed.len(),
        o.settled.len() + o.failed.len() == macs.len(),
        macs.no_duplicates() ==> o.settled.no_duplicates() && forall|m: Mac| #[trigger]
            o.settled.contains(m) ==> !o.failed.contains(m),
{
    let (bl, ll, l1, l2) = choose|bl: BookModel, ll: Seq<Op>, l1: Seq<Op>, l2: Seq<Op>|
        {
            &&& #[trigger] lock_asked(b, log, dev, bl, ll)
            &&& grew(ll, l1)
            &&& sets_all(since(ll, l1), index, macs, false)
            &&& o == outcome_of(since(ll, l1))
            &&& #[trigger] note_forgets(outcome_said(bl, dev, o, why), l1, dev, o.settled, b2, l2)
            &&& log2 == l2.push(Op::Unlock { dev })
        };
    let unlock = Op::Unlock { dev };
    let set = macs.to_set();
    let ops = since(ll, l1);
    lemma_filework_one(b.dir, log, ll.last());
    lemma_sound_files(g, l0, b.dir, log, bl.dir, ll);
    lemma_cards_only_files(b.dir, log, bl.dir, ll, index, set, false);
    assert forall|m: Mac| #[trigger] macs.contains(m) implies ever_noted(
        g,
        since(l0, ll),
        index,
        m,
    ) by {
        lemma_ever_later(g, since(l0, log), since(log, ll), index, m);
    }
    lemma_sound_cards(g, l0, bl.dir, ll, l1, index, macs, false);
    lemma_cards_only_row(ops, index, macs, false);
    lemma_answered(ops, index, macs, false);
    lemma_errors(ops);
    lemma_grew_trans(log, ll, l1);
    lemma_cards_only_add(since(log, ll), ops, index, set, false);
    lemma_filework_forgets(outcome_said(bl, dev, o, why), l1, dev, o.settled, b2, l2);
    lemma_sound_files(g, l0, bl.dir, l1, b2.dir, l2);
    lemma_cards_only_files(bl.dir, l1, b2.dir, l2, index, set, false);
    lemma_grew_trans(log, l1, l2);
    lemma_cards_only_add(since(log, l1), since(l1, l2), index, set, false);
    lemma_filework_one(b2.dir, l2, unlock);
    lemma_sound_files(g, l0, b2.dir, l2, b2.dir, log2);
    lemma_cards_only_files(b2.dir, l2, b2.dir, log2, index, set, false);
    lemma_grew_trans(log, l2, log2);
    lemma_cards_only_add(since(log, l2), since(l2, log2), index, set, false);
    assert forall|m: Mac| o.settled.to_set().contains(m) implies set.contains(m) by {
        assert(o.settled.contains(m));
    }
    assert forall|m: Mac| o.failed.to_set().contains(m) implies set.contains(m) by {
        assert(o.failed.contains(m));
    }
}

} // verus!
