//! What holds of the notes: a line outlives the entry it names. As long as the
//! files are what they are believed to be and nobody else writes them, a line
//! leaves the note of a device that is there only after the card has said that
//! no entry of ours stands behind it.

use vstd::prelude::*;

use crate::mac::Mac;
use crate::netlink::{Found, Op};
use crate::order::name_le;
use crate::sync::card::{
    already_in, answered, batch_answered, batch_noted, batch_registered, batch_settled, failed_in,
    lemma_answered, lemma_cards_change_no_file, outcome_of, outcome_said, reduced_said,
    refused_said, sets_all, settled_in, taken_out, unclaimed, verdict_of, OutcomeModel,
    RegisteredModel, Verdict, Why,
};
use crate::sync::files::{
    file_text, grew, lemma_grew_same, lemma_grew_trans, lemma_replay_add, lemma_replay_push,
    put_copied, replay, replayed, same_file, since, words_in, wrote, Files,
};
use crate::sync::journal::{index_refused_text, unnoted_text};
use crate::sync::memory::{
    memory_lines, memory_loaded, memory_saved, memory_settled, memory_written, sorted_texts,
    MemoryModel,
};
use crate::sync::notes::{
    filework, index_name, index_noted, index_text, is_filework, lemma_filework_forgets,
    lemma_filework_looked, lemma_filework_one, lemma_filework_wrote, lemma_filter,
    lemma_kinds_differ, lemma_note_name, lock_asked, merged_set, note_appended, note_carried_over,
    note_extended, note_forgets, note_looked, note_merged, note_moved, note_name, note_put,
    note_read, note_reduced, note_removed, note_written, owned_in, ports_name, ports_removed,
    sorted_list, unnamed, BookModel,
};
use crate::sync::orphans::{entries_taken, note_settled};
use crate::sync::record::{
    appended_note_names_both, finished, lemma_finished, lines_text, memory_text, note_macs,
};
use crate::topology::TopologyModel;

verus! {

/// Whether a file was read as it is.
pub open spec fn read_right(dir: Files, op: Op) -> bool {
    op matches Op::Read { name, found } ==> match found {
        Found::Missing => !dir.contains_key(name),
        Found::Unreadable(_) => dir.contains_key(name) && dir[name] is None,
        Found::Text(t) => dir.contains_key(name) && dir[name] == Some(t),
    }
}

/// Whether nobody else wrote: every file that was read said what it said at the
/// start, or what was written to it since.
pub open spec fn undisturbed(d0: Files, ops: Seq<Op>) -> bool {
    forall|i: int| 0 <= i < ops.len() ==> #[trigger] read_right_at(d0, ops, i)
}

/// Whether the file read at `i`, if one was, was read as it is.
pub open spec fn read_right_at(d0: Files, ops: Seq<Op>, i: int) -> bool {
    read_right(replay(d0, ops.take(i)), ops[i])
}

/// Whether everything believed of the files is so.
pub open spec fn believes_right(dir: Files, truth: Files) -> bool {
    forall|n: Seq<char>| #[trigger]
        dir.contains_key(n) ==> truth.contains_key(n) && truth[n] == dir[n]
}

/// Whether the card said of an address that no entry of ours is there: it was
/// taken out, it was not there to be taken out, or it stands there by somebody
/// else's hand.
pub open spec fn not_ours(op: Op, index: u32, m: Mac) -> bool {
    op matches Op::Card { ifindex, mac, add, refused } && ifindex == index && mac == m && (
    verdict_of(add, refused) == Verdict::Already || (!add && verdict_of(add, refused)
        == Verdict::Done))
}

/// Whether an address was put into a card.
pub open spec fn put_in(op: Op, index: u32, m: Mac) -> bool {
    op matches Op::Card { ifindex, mac, add, refused } && ifindex == index && mac == m && add
        && verdict_of(add, refused) == Verdict::Done
}

/// Whether the card has let go of an address: it said so, and the address was
/// not put in since.
pub open spec fn let_go(ops: Seq<Op>, index: u32, m: Mac) -> bool {
    exists|j: int| #[trigger] let_go_at(ops, index, m, j)
}

/// Whether it said so at `j`.
pub open spec fn let_go_at(ops: Seq<Op>, index: u32, m: Mac, j: int) -> bool {
    &&& 0 <= j < ops.len()
    &&& not_ours(ops[j], index, m)
    &&& forall|k: int| j < k < ops.len() ==> !put_in(#[trigger] ops[k], index, m)
}

/// Whether a request takes a line off a note. A line that a write left
/// unfinished is none yet.
pub open spec fn drops(before: Files, op: Op, dev: Seq<char>, m: Mac) -> bool {
    &&& owned_in(before, dev).contains(m)
    &&& !owned_in(replayed(before, op), dev).contains(m)
    &&& op is Append ==> note_macs(finished(file_text(before, note_name(dev)))).contains(m)
}

/// Whether a line may go: its device is gone and took the entry with it, or was
/// renamed, or the card has let go of the address.
pub open spec fn may_go(t: TopologyModel, ops: Seq<Op>, dev: Seq<char>, m: Mac) -> bool {
    t.names.contains_key(dev) ==> let_go(ops, t.names[dev], m)
}

/// Whether the request at `i` takes no line off a note that may not go.
pub open spec fn careful_at(t: TopologyModel, d0: Files, ops: Seq<Op>, i: int) -> bool {
    forall|dev: Seq<char>, m: Mac| #[trigger]
        drops(replay(d0, ops.take(i)), ops[i], dev, m) ==> may_go(t, ops.take(i), dev, m)
}

/// Whether none of these requests does.
pub open spec fn careful(t: TopologyModel, d0: Files, ops: Seq<Op>) -> bool {
    forall|i: int| 0 <= i < ops.len() ==> #[trigger] careful_at(t, d0, ops, i)
}

/// Whether everything asked since `l0` was careful and what is believed of the
/// files is so, as long as nobody else wrote.
pub open spec fn lines_kept(
    t: TopologyModel,
    d0: Files,
    l0: Seq<Op>,
    dir: Files,
    log: Seq<Op>,
) -> bool {
    &&& grew(l0, log)
    &&& undisturbed(d0, since(l0, log)) ==> {
        &&& careful(t, d0, since(l0, log))
        &&& believes_right(dir, replay(d0, since(l0, log)))
    }
}

pub(crate) proof fn lemma_undisturbed_prefix(d0: Files, a: Seq<Op>, b: Seq<Op>)
    requires
        undisturbed(d0, a + b),
    ensures
        undisturbed(d0, a),
        undisturbed(replay(d0, a), b),
{
    let c = a + b;
    assert forall|i: int| 0 <= i < a.len() implies #[trigger] read_right_at(d0, a, i) by {
        assert(read_right_at(d0, c, i));
        assert(c[i] == a[i]);
        assert(c.take(i) =~= a.take(i));
    }
    assert forall|i: int| 0 <= i < b.len() implies #[trigger] read_right_at(
        replay(d0, a),
        b,
        i,
    ) by {
        let j = i + a.len();
        assert(read_right_at(d0, c, j));
        assert(c[j] == b[i]);
        assert(c.take(j) =~= a + b.take(i));
        lemma_replay_add(d0, a, b.take(i));
    }
}

/// What is asked of a card, of the kernel, of a lock or of a file that is no
/// note takes no line off any.
pub open spec fn is_plain(op: Op) -> bool {
    match op {
        Op::Put { name, .. } => no_note(name),
        Op::Remove { name, .. } => no_note(name),
        Op::Append { .. } => false,
        _ => true,
    }
}

/// Whether a file is no note.
pub open spec fn no_note(name: Seq<char>) -> bool {
    forall|dev: Seq<char>| name != #[trigger] note_name(dev)
}

/// Whether a stretch of requests takes no line off any note, and turned one
/// state of the files into another.
pub open spec fn plainwork(dir: Files, log: Seq<Op>, dir2: Files, log2: Seq<Op>) -> bool {
    &&& grew(log, log2)
    &&& dir2 == replay(dir, since(log, log2))
    &&& forall|i: int| 0 <= i < since(log, log2).len() ==> is_plain(#[trigger] since(log, log2)[i])
}

pub(crate) proof fn lemma_plain_same(dir: Files, log: Seq<Op>)
    ensures
        plainwork(dir, log, dir, log),
{
    lemma_grew_same(log);
}

pub(crate) proof fn lemma_plain_one(dir: Files, log: Seq<Op>, op: Op)
    requires
        is_plain(op),
    ensures
        plainwork(dir, log, replayed(dir, op), log.push(op)),
{
    lemma_grew_same(log);
    let l2 = log.push(op);
    assert(l2.take(log.len() as int) =~= log);
    assert(since(log, l2) =~= seq![op]);
    assert(seq![op].drop_last() =~= Seq::empty());
    reveal_with_fuel(replay, 2);
}

pub(crate) proof fn lemma_plain_trans(
    d0: Files,
    l0: Seq<Op>,
    d1: Files,
    l1: Seq<Op>,
    d2: Files,
    l2: Seq<Op>,
)
    requires
        plainwork(d0, l0, d1, l1),
        plainwork(d1, l1, d2, l2),
    ensures
        plainwork(d0, l0, d2, l2),
{
    lemma_grew_trans(l0, l1, l2);
    let (a, b) = (since(l0, l1), since(l1, l2));
    lemma_replay_add(d0, a, b);
    assert forall|i: int| 0 <= i < since(l0, l2).len() implies is_plain(
        #[trigger] since(l0, l2)[i],
    ) by {
        if i < a.len() {
            assert(since(l0, l2)[i] == a[i]);
        } else {
            assert(since(l0, l2)[i] == b[i - a.len()]);
        }
    }
}

/// What one such request does to what is believed and to what is so.
pub(crate) proof fn lemma_plain_step(dir: Files, truth: Files, op: Op)
    requires
        is_plain(op),
        read_right(truth, op),
        believes_right(dir, truth),
    ensures
        believes_right(replayed(dir, op), replayed(truth, op)),
        forall|dev: Seq<char>| #[trigger]
            owned_in(replayed(truth, op), dev) == owned_in(truth, dev),
        forall|dev: Seq<char>| #[trigger]
            same_file(replayed(truth, op), truth, note_name(dev)),
{
    assert forall|dev: Seq<char>| #[trigger]
        same_file(replayed(truth, op), truth, note_name(dev)) by {
        match op {
            Op::Put { name, .. } => {
                assert(name != note_name(dev));
            },
            Op::Remove { name, .. } => {
                assert(name != note_name(dev));
            },
            _ => {},
        }
    }
    assert forall|dev: Seq<char>| #[trigger]
        owned_in(replayed(truth, op), dev) == owned_in(truth, dev) by {
        assert(same_file(replayed(truth, op), truth, note_name(dev)));
    }
}

/// A row of such requests.
pub(crate) proof fn lemma_plain_row(dir: Files, truth: Files, b: Seq<Op>)
    requires
        believes_right(dir, truth),
        forall|i: int| 0 <= i < b.len() ==> is_plain(#[trigger] b[i]),
        undisturbed(truth, b),
    ensures
        believes_right(replay(dir, b), replay(truth, b)),
        forall|dev: Seq<char>| #[trigger]
            owned_in(replay(truth, b), dev) == owned_in(truth, dev),
    decreases b.len(),
{
    if b.len() > 0 {
        let front = b.drop_last();
        assert forall|i: int| 0 <= i < front.len() implies is_plain(#[trigger] front[i]) by {
            assert(front[i] == b[i]);
        }
        assert forall|i: int| 0 <= i < front.len() implies #[trigger] read_right_at(
            truth,
            front,
            i,
        ) by {
            assert(read_right_at(truth, b, i));
            assert(front[i] == b[i]);
            assert(front.take(i) =~= b.take(i));
        }
        lemma_plain_row(dir, truth, front);
        let last = b[b.len() - 1];
        assert(read_right_at(truth, b, b.len() - 1));
        assert(b.take(b.len() - 1) =~= front);
        lemma_plain_step(replay(dir, front), replay(truth, front), last);
        assert forall|dev: Seq<char>| #[trigger]
            owned_in(replay(truth, b), dev) == owned_in(truth, dev) by {
            assert(owned_in(replay(truth, front), dev) == owned_in(truth, dev));
            assert(owned_in(replayed(replay(truth, front), last), dev) == owned_in(
                replay(truth, front),
                dev,
            ));
        }
    }
}

/// Such a stretch keeps the lines.
pub(crate) proof fn lemma_kept_plain(
    t: TopologyModel,
    d0: Files,
    l0: Seq<Op>,
    d1: Files,
    l1: Seq<Op>,
    d2: Files,
    l2: Seq<Op>,
)
    requires
        lines_kept(t, d0, l0, d1, l1),
        plainwork(d1, l1, d2, l2),
    ensures
        lines_kept(t, d0, l0, d2, l2),
        undisturbed(d0, since(l0, l2)) ==> undisturbed(d0, since(l0, l1)),
        undisturbed(d0, since(l0, l2)) ==> forall|dev: Seq<char>| #[trigger]
            owned_in(replay(d0, since(l0, l2)), dev) == owned_in(replay(d0, since(l0, l1)), dev),
{
    lemma_grew_trans(l0, l1, l2);
    let (a, b, c) = (since(l0, l1), since(l1, l2), since(l0, l2));
    if undisturbed(d0, c) {
        lemma_undisturbed_prefix(d0, a, b);
        lemma_replay_add(d0, a, b);
        let truth = replay(d0, a);
        lemma_plain_row(d1, truth, b);
        assert forall|i: int| 0 <= i < c.len() implies #[trigger] careful_at(t, d0, c, i) by {
            if i < a.len() {
                assert(careful_at(t, d0, a, i));
                assert(c[i] == a[i]);
                assert(c.take(i) =~= a.take(i));
            } else {
                let j = i - a.len();
                assert(c[i] == b[j]);
                assert(c.take(i) =~= a + b.take(j));
                lemma_replay_add(d0, a, b.take(j));
                let head = b.take(j);
                assert forall|k: int| 0 <= k < head.len() implies is_plain(#[trigger] head[k]) by {
                    assert(head[k] == b[k]);
                }
                assert forall|k: int| 0 <= k < head.len() implies #[trigger] read_right_at(
                    truth,
                    head,
                    k,
                ) by {
                    assert(read_right_at(truth, b, k));
                    assert(head[k] == b[k]);
                    assert(head.take(k) =~= b.take(k));
                }
                assert(read_right_at(truth, b, j));
                lemma_plain_row(d1, truth, head);
                lemma_plain_step(replay(d1, head), replay(truth, head), b[j]);
                assert forall|dev: Seq<char>, m: Mac| !#[trigger]
                    drops(replay(d0, c.take(i)), c[i], dev, m) by {
                    assert(owned_in(replayed(replay(truth, head), b[j]), dev) == owned_in(
                        replay(truth, head),
                        dev,
                    ));
                }
            }
        }
    }
}

/// One more request that may take lines off notes.
pub(crate) proof fn lemma_kept_step(
    t: TopologyModel,
    d0: Files,
    l0: Seq<Op>,
    dir: Files,
    log: Seq<Op>,
    op: Op,
    dir2: Files,
)
    requires
        lines_kept(t, d0, l0, dir, log),
        undisturbed(d0, since(l0, log)) ==> {
            let truth = replay(d0, since(l0, log));
            &&& believes_right(dir2, replayed(truth, op))
            &&& forall|dev: Seq<char>, m: Mac| #[trigger]
                drops(truth, op, dev, m) ==> may_go(t, since(l0, log), dev, m)
        },
    ensures
        lines_kept(t, d0, l0, dir2, log.push(op)),
{
    let l2 = log.push(op);
    lemma_grew_same(log);
    assert(l2.take(l0.len() as int) =~= log.take(l0.len() as int));
    let (a, c) = (since(l0, log), since(l0, l2));
    assert(c =~= a.push(op));
    assert(c =~= a + seq![op]);
    if undisturbed(d0, c) {
        lemma_undisturbed_prefix(d0, a, seq![op]);
        lemma_replay_push(d0, a, op);
        assert forall|i: int| 0 <= i < c.len() implies #[trigger] careful_at(t, d0, c, i) by {
            if i < a.len() {
                assert(careful_at(t, d0, a, i));
                assert(c[i] == a[i]);
                assert(c.take(i) =~= a.take(i));
            } else {
                assert(c.take(i) =~= a);
            }
        }
    }
}

/// Whether what is believed of a note is so, as long as nobody else wrote.
pub open spec fn knows(
    d0: Files,
    l0: Seq<Op>,
    dir: Files,
    log: Seq<Op>,
    dev: Seq<char>,
) -> bool {
    undisturbed(d0, since(l0, log)) ==> same_file(
        dir,
        replay(d0, since(l0, log)),
        note_name(dev),
    )
}

/// Whether every line of a note may go but for these.
pub open spec fn may_shrink(
    t: TopologyModel,
    d0: Files,
    l0: Seq<Op>,
    log: Seq<Op>,
    dev: Seq<char>,
    set: Set<Mac>,
) -> bool {
    undisturbed(d0, since(l0, log)) ==> forall|m: Mac| #[trigger]
        owned_in(replay(d0, since(l0, log)), dev).contains(m) && !set.contains(m) ==> may_go(
            t,
            since(l0, log),
            dev,
            m,
        )
}

pub(crate) proof fn lemma_let_go_later(a: Seq<Op>, b: Seq<Op>, index: u32, m: Mac)
    requires
        let_go(a, index, m),
        forall|k: int| 0 <= k < b.len() ==> !put_in(#[trigger] b[k], index, m),
    ensures
        let_go(a + b, index, m),
{
    let j = choose|j: int| #[trigger] let_go_at(a, index, m, j);
    let c = a + b;
    assert(c[j] == a[j]);
    assert forall|k: int| j < k < c.len() implies !put_in(#[trigger] c[k], index, m) by {
        if k < a.len() {
            assert(c[k] == a[k]);
        } else {
            assert(c[k] == b[k - a.len()]);
        }
    }
    assert(let_go_at(c, index, m, j));
}

pub(crate) proof fn lemma_may_go_later(
    t: TopologyModel,
    l0: Seq<Op>,
    d1: Files,
    l1: Seq<Op>,
    d2: Files,
    l2: Seq<Op>,
    dev: Seq<char>,
    m: Mac,
)
    requires
        grew(l0, l1),
        filework(d1, l1, d2, l2),
        may_go(t, since(l0, l1), dev, m),
    ensures
        may_go(t, since(l0, l2), dev, m),
{
    lemma_grew_trans(l0, l1, l2);
    if t.names.contains_key(dev) {
        let b = since(l1, l2);
        assert forall|k: int| 0 <= k < b.len() implies !put_in(
            #[trigger] b[k],
            t.names[dev],
            m,
        ) by {
            assert(is_filework(b[k]));
        }
        lemma_let_go_later(since(l0, l1), b, t.names[dev], m);
    }
}

pub(crate) proof fn lemma_may_shrink_later(
    t: TopologyModel,
    d0: Files,
    l0: Seq<Op>,
    d1: Files,
    l1: Seq<Op>,
    d2: Files,
    l2: Seq<Op>,
    dev: Seq<char>,
    set: Set<Mac>,
)
    requires
        lines_kept(t, d0, l0, d1, l1),
        plainwork(d1, l1, d2, l2),
        filework(d1, l1, d2, l2),
        may_shrink(t, d0, l0, l1, dev, set),
    ensures
        may_shrink(t, d0, l0, l2, dev, set),
{
    lemma_kept_plain(t, d0, l0, d1, l1, d2, l2);
    if undisturbed(d0, since(l0, l2)) {
        assert forall|m: Mac| #[trigger]
            owned_in(replay(d0, since(l0, l2)), dev).contains(m) && !set.contains(m) implies may_go(
            t,
            since(l0, l2),
            dev,
            m,
        ) by {
            assert(owned_in(replay(d0, since(l0, l1)), dev).contains(m));
            lemma_may_go_later(t, l0, d1, l1, d2, l2, dev, m);
        }
    }
}

pub(crate) proof fn lemma_plain_looked(
    b: BookModel,
    log: Seq<Op>,
    dev: Seq<char>,
    b2: BookModel,
    log2: Seq<Op>,
)
    requires
        note_looked(b, log, dev, b2, log2),
    ensures
        plainwork(b.dir, log, b2.dir, log2),
        filework(b.dir, log, b2.dir, log2),
{
    lemma_filework_looked(b, log, dev, b2, log2);
    let ops = since(log, log2);
    assert forall|i: int| 0 <= i < ops.len() implies is_plain(#[trigger] ops[i]) by {
        assert(i == 0 || i == 1 || i == 2 || i == 3 || i == 4);
    }
}

/// A look at a note shows what it says.
pub(crate) proof fn lemma_kept_looked(
    t: TopologyModel,
    d0: Files,
    l0: Seq<Op>,
    b: BookModel,
    log: Seq<Op>,
    dev: Seq<char>,
    b2: BookModel,
    log2: Seq<Op>,
)
    requires
        lines_kept(t, d0, l0, b.dir, log),
        note_looked(b, log, dev, b2, log2),
    ensures
        lines_kept(t, d0, l0, b2.dir, log2),
        knows(d0, l0, b2.dir, log2, dev),
{
    lemma_plain_looked(b, log, dev, b2, log2);
    lemma_kept_plain(t, d0, l0, b.dir, log, b2.dir, log2);
    lemma_grew_trans(l0, log, log2);
    let (a, ops) = (since(l0, log), since(log, log2));
    let name = note_name(dev);
    if undisturbed(d0, since(l0, log2)) {
        lemma_undisturbed_prefix(d0, a, ops);
        lemma_replay_add(d0, a, ops);
        let truth = replay(d0, a);
        reveal_with_fuel(replay, 6);
        if ops.len() == 1 {
            assert(ops.drop_last() =~= Seq::empty());
            assert(replay(truth, ops) == truth);
        } else {
            assert(read_right_at(truth, ops, 2));
            let o4 = ops.drop_last();
            let o3 = o4.drop_last();
            let o2 = o3.drop_last();
            assert(o4.last() == ops[3]);
            let o1 = o2.drop_last();
            assert(o2 =~= ops.take(2));
            assert(o3.last() == ops[2]);
            assert(o2.last() == ops[1]);
            assert(o1.last() == ops[0]);
            assert(o1.drop_last() =~= Seq::empty());
            assert(replay(truth, ops.take(2)) == truth);
            assert(replay(truth, ops) == replayed(truth, ops[2]));
        }
    }
}

pub(crate) proof fn lemma_plain_note_read(
    b: BookModel,
    log: Seq<Op>,
    dev: Seq<char>,
    b2: BookModel,
    log2: Seq<Op>,
)
    requires
        note_read(b, log, dev, b2, log2),
    ensures
        plainwork(b.dir, log, b2.dir, log2),
        filework(b.dir, log, b2.dir, log2),
{
    lemma_plain_one(b.dir, log, log2.last());
    lemma_filework_one(b.dir, log, log2.last());
}

/// Reading a note shows what it says.
pub(crate) proof fn lemma_kept_read(
    t: TopologyModel,
    d0: Files,
    l0: Seq<Op>,
    b: BookModel,
    log: Seq<Op>,
    dev: Seq<char>,
    b2: BookModel,
    log2: Seq<Op>,
)
    requires
        lines_kept(t, d0, l0, b.dir, log),
        note_read(b, log, dev, b2, log2),
    ensures
        lines_kept(t, d0, l0, b2.dir, log2),
        knows(d0, l0, b2.dir, log2, dev),
{
    lemma_plain_note_read(b, log, dev, b2, log2);
    lemma_kept_plain(t, d0, l0, b.dir, log, b2.dir, log2);
    lemma_grew_trans(l0, log, log2);
    let op = log2.last();
    let (a, ops) = (since(l0, log), since(log, log2));
    assert(ops =~= seq![op]);
    if undisturbed(d0, since(l0, log2)) {
        lemma_undisturbed_prefix(d0, a, ops);
        lemma_replay_add(d0, a, ops);
        let truth = replay(d0, a);
        assert(ops.take(0) =~= Seq::empty());
        assert(read_right_at(truth, ops, 0));
        assert(ops.drop_last() =~= Seq::empty());
        reveal_with_fuel(replay, 2);
        assert(replay(truth, ops) == replayed(truth, op));
    }
}

/// A write that was refused takes nothing away.
pub(crate) proof fn lemma_kept_refused(
    t: TopologyModel,
    d0: Files,
    l0: Seq<Op>,
    dir: Files,
    log: Seq<Op>,
    op: Op,
)
    requires
        lines_kept(t, d0, l0, dir, log),
        replayed(dir, op) == dir,
        forall|d: Files| replayed(d, op) == d,
    ensures
        lines_kept(t, d0, l0, dir, log.push(op)),
{
    let truth = replay(d0, since(l0, log));
    assert(replayed(truth, op) == truth);
    lemma_kept_step(t, d0, l0, dir, log, op, dir);
}

pub(crate) proof fn lemma_kept_put(
    t: TopologyModel,
    d0: Files,
    l0: Seq<Op>,
    b: BookModel,
    log: Seq<Op>,
    dev: Seq<char>,
    set: Set<Mac>,
    b2: BookModel,
    log2: Seq<Op>,
    r: bool,
)
    requires
        lines_kept(t, d0, l0, b.dir, log),
        note_put(b, log, dev, set, b2, log2, r),
        may_shrink(t, d0, l0, log, dev, set),
    ensures
        lines_kept(t, d0, l0, b2.dir, log2),
{
    if b.readable(dev) && owned_in(b.dir, dev) != set {
        let ops = since(log, log2);
        let op = ops[0];
        let l1 = log.push(op);
        let name = note_name(dev);
        if r {
            let truth = replay(d0, since(l0, log));
            let after = replayed(truth, op);
            assert(owned_in(b2.dir, dev) == set);
            assert(owned_in(after, dev) == set);
            assert forall|d: Seq<char>, m: Mac| undisturbed(d0, since(l0, log)) && #[trigger]
                drops(truth, op, d, m) implies may_go(t, since(l0, log), d, m) by {
                if note_name(d) == name {
                    lemma_note_name(d, dev);
                    assert(owned_in(truth, dev).contains(m) && !set.contains(m));
                } else {
                    assert(owned_in(after, d) == owned_in(truth, d));
                }
            }
            lemma_kept_step(t, d0, l0, b.dir, log, op, b2.dir);
            let l2 = l1.push(ops[1]);
            assert(log2 =~= l2.push(ops[2])) by {
                assert(log2.take(log.len() as int) == log);
                assert(log2[log.len() as int] == ops[0]);
                assert(log2[log.len() as int + 1] == ops[1]);
                assert(log2[log.len() as int + 2] == ops[2]);
            }
            lemma_plain_one(b2.dir, l1, ops[1]);
            lemma_kept_plain(t, d0, l0, b2.dir, l1, b2.dir, l2);
            lemma_plain_one(b2.dir, l2, ops[2]);
            lemma_kept_plain(t, d0, l0, b2.dir, l2, b2.dir, log2);
        } else {
            assert(log2 =~= l1) by {
                assert(log2.take(log.len() as int) == log);
                assert(log2[log.len() as int] == ops[0]);
            }
            lemma_kept_refused(t, d0, l0, b.dir, log, op);
        }
    }
}

pub(crate) proof fn lemma_kept_written(
    t: TopologyModel,
    d0: Files,
    l0: Seq<Op>,
    b: BookModel,
    log: Seq<Op>,
    dev: Seq<char>,
    set: Set<Mac>,
    b2: BookModel,
    log2: Seq<Op>,
    r: bool,
)
    requires
        lines_kept(t, d0, l0, b.dir, log),
        note_written(b, log, dev, set, b2, log2, r),
        may_shrink(t, d0, l0, log, dev, set),
    ensures
        lines_kept(t, d0, l0, b2.dir, log2),
{
    if b.readable(dev) {
        let (b1, l1) = choose|b1: BookModel, l1: Seq<Op>| #[trigger]
            note_looked(b, log, dev, b1, l1) && note_put(b1, l1, dev, set, b2, log2, r);
        lemma_plain_looked(b, log, dev, b1, l1);
        lemma_kept_looked(t, d0, l0, b, log, dev, b1, l1);
        lemma_may_shrink_later(t, d0, l0, b.dir, log, b1.dir, l1, dev, set);
        lemma_kept_put(t, d0, l0, b1, l1, dev, set, b2, log2, r);
    }
}

/// What may go from what a note is known to name.
pub(crate) proof fn lemma_may_shrink_by(
    t: TopologyModel,
    d0: Files,
    l0: Seq<Op>,
    dir: Files,
    log: Seq<Op>,
    dev: Seq<char>,
    set: Set<Mac>,
    gone: Set<Mac>,
)
    requires
        knows(d0, l0, dir, log, dev),
        owned_in(dir, dev).difference(gone).subset_of(set),
        forall|m: Mac| #[trigger] gone.contains(m) ==> may_go(t, since(l0, log), dev, m),
    ensures
        may_shrink(t, d0, l0, log, dev, set),
{
    if undisturbed(d0, since(l0, log)) {
        let truth = replay(d0, since(l0, log));
        assert(owned_in(truth, dev) == owned_in(dir, dev));
        assert forall|m: Mac| #[trigger]
            owned_in(truth, dev).contains(m) && !set.contains(m) implies may_go(
            t,
            since(l0, log),
            dev,
            m,
        ) by {
            if !gone.contains(m) {
                assert(owned_in(dir, dev).difference(gone).contains(m));
            }
        }
    }
}

pub(crate) proof fn lemma_may_all_go_later(
    t: TopologyModel,
    l0: Seq<Op>,
    d1: Files,
    l1: Seq<Op>,
    d2: Files,
    l2: Seq<Op>,
    dev: Seq<char>,
    gone: Set<Mac>,
)
    requires
        grew(l0, l1),
        filework(d1, l1, d2, l2),
        forall|m: Mac| #[trigger] gone.contains(m) ==> may_go(t, since(l0, l1), dev, m),
    ensures
        forall|m: Mac| #[trigger] gone.contains(m) ==> may_go(t, since(l0, l2), dev, m),
{
    assert forall|m: Mac| #[trigger] gone.contains(m) implies may_go(t, since(l0, l2), dev, m) by {
        lemma_may_go_later(t, l0, d1, l1, d2, l2, dev, m);
    }
}

pub(crate) proof fn lemma_kept_forgets(
    t: TopologyModel,
    d0: Files,
    l0: Seq<Op>,
    b: BookModel,
    log: Seq<Op>,
    dev: Seq<char>,
    dropped: Seq<Mac>,
    b2: BookModel,
    log2: Seq<Op>,
)
    requires
        lines_kept(t, d0, l0, b.dir, log),
        note_forgets(b, log, dev, dropped, b2, log2),
        forall|m: Mac| #[trigger]
            dropped.to_set().contains(m) ==> may_go(t, since(l0, log), dev, m),
    ensures
        lines_kept(t, d0, l0, b2.dir, log2),
{
    if dropped.len() > 0 {
        let (b1, l1, r) = choose|b1: BookModel, l1: Seq<Op>, r: bool|
            #![trigger note_written(
                b1,
                l1,
                dev,
                owned_in(b1.dir, dev).difference(dropped.to_set()),
                b2,
                log2,
                r,
            )]
            note_read(b, log, dev, b1, l1) && note_written(
                b1,
                l1,
                dev,
                owned_in(b1.dir, dev).difference(dropped.to_set()),
                b2,
                log2,
                r,
            );
        let set = owned_in(b1.dir, dev).difference(dropped.to_set());
        lemma_plain_note_read(b, log, dev, b1, l1);
        lemma_kept_read(t, d0, l0, b, log, dev, b1, l1);
        lemma_may_all_go_later(t, l0, b.dir, log, b1.dir, l1, dev, dropped.to_set());
        lemma_may_shrink_by(t, d0, l0, b1.dir, l1, dev, set, dropped.to_set());
        lemma_kept_written(t, d0, l0, b1, l1, dev, set, b2, log2, r);
    }
}

pub(crate) proof fn lemma_kept_reduced(
    t: TopologyModel,
    d0: Files,
    l0: Seq<Op>,
    b: BookModel,
    log: Seq<Op>,
    dev: Seq<char>,
    macs: Set<Mac>,
    b2: BookModel,
    log2: Seq<Op>,
    r: bool,
)
    requires
        lines_kept(t, d0, l0, b.dir, log),
        note_reduced(b, log, dev, macs, b2, log2, r),
        forall|m: Mac| #[trigger] macs.contains(m) ==> may_go(t, since(l0, log), dev, m),
    ensures
        lines_kept(t, d0, l0, b2.dir, log2),
{
    if b.readable(dev) {
        let (b1, l1) = choose|b1: BookModel, l1: Seq<Op>| #[trigger]
            note_looked(b, log, dev, b1, l1) && if owned_in(b1.dir, dev).disjoint(macs) {
                r && b2 == b1 && log2 == l1
            } else {
                note_written(b1, l1, dev, owned_in(b1.dir, dev).difference(macs), b2, log2, r)
            };
        lemma_plain_looked(b, log, dev, b1, l1);
        lemma_kept_looked(t, d0, l0, b, log, dev, b1, l1);
        if !owned_in(b1.dir, dev).disjoint(macs) {
            let set = owned_in(b1.dir, dev).difference(macs);
            lemma_may_all_go_later(t, l0, b.dir, log, b1.dir, l1, dev, macs);
            lemma_may_shrink_by(t, d0, l0, b1.dir, l1, dev, set, macs);
            lemma_kept_written(t, d0, l0, b1, l1, dev, set, b2, log2, r);
        }
    }
}

pub(crate) proof fn lemma_plain_lock(
    b: BookModel,
    log: Seq<Op>,
    dev: Seq<char>,
    b2: BookModel,
    log2: Seq<Op>,
)
    requires
        lock_asked(b, log, dev, b2, log2),
    ensures
        plainwork(b.dir, log, b2.dir, log2),
        filework(b.dir, log, b2.dir, log2),
{
    lemma_plain_one(b.dir, log, log2.last());
    lemma_filework_one(b.dir, log, log2.last());
}

pub(crate) proof fn lemma_kept_unlock(
    t: TopologyModel,
    d0: Files,
    l0: Seq<Op>,
    dir: Files,
    log: Seq<Op>,
    dev: Seq<char>,
)
    requires
        lines_kept(t, d0, l0, dir, log),
    ensures
        lines_kept(t, d0, l0, dir, log.push(Op::Unlock { dev })),
{
    lemma_plain_one(dir, log, Op::Unlock { dev });
    lemma_kept_plain(t, d0, l0, dir, log, dir, log.push(Op::Unlock { dev }));
}

pub(crate) proof fn lemma_kept_merged(
    t: TopologyModel,
    d0: Files,
    l0: Seq<Op>,
    b: BookModel,
    log: Seq<Op>,
    dev: Seq<char>,
    before: Set<Mac>,
    after: Set<Mac>,
    b2: BookModel,
    log2: Seq<Op>,
)
    requires
        lines_kept(t, d0, l0, b.dir, log),
        note_merged(b, log, dev, before, after, b2, log2),
        forall|m: Mac| #[trigger]
            before.difference(after).contains(m) ==> may_go(t, since(l0, log), dev, m),
    ensures
        lines_kept(t, d0, l0, b2.dir, log2),
{
    let (bl, ll, b1, l1, l2, r) = choose|
        bl: BookModel,
        ll: Seq<Op>,
        b1: BookModel,
        l1: Seq<Op>,
        l2: Seq<Op>,
        r: bool,
    |
        {
            &&& #[trigger] lock_asked(b, log, dev, bl, ll)
            &&& #[trigger] note_read(bl, ll, dev, b1, l1)
            &&& #[trigger] note_written(
                b1,
                l1,
                dev,
                merged_set(owned_in(b1.dir, dev), before, after),
                b2,
                l2,
                r,
            )
            &&& log2 == l2.push(Op::Unlock { dev })
        };
    let gone = before.difference(after);
    let set = merged_set(owned_in(b1.dir, dev), before, after);
    lemma_plain_lock(b, log, dev, bl, ll);
    lemma_kept_plain(t, d0, l0, b.dir, log, bl.dir, ll);
    lemma_may_all_go_later(t, l0, b.dir, log, bl.dir, ll, dev, gone);
    lemma_plain_note_read(bl, ll, dev, b1, l1);
    lemma_kept_read(t, d0, l0, bl, ll, dev, b1, l1);
    lemma_may_all_go_later(t, l0, bl.dir, ll, b1.dir, l1, dev, gone);
    lemma_may_shrink_by(t, d0, l0, b1.dir, l1, dev, set, gone);
    lemma_kept_written(t, d0, l0, b1, l1, dev, set, b2, l2, r);
    lemma_kept_unlock(t, d0, l0, b2.dir, l2, dev);
}

pub(crate) proof fn lemma_kept_appended(
    t: TopologyModel,
    d0: Files,
    l0: Seq<Op>,
    b: BookModel,
    log: Seq<Op>,
    dev: Seq<char>,
    added: Seq<Mac>,
    b2: BookModel,
    log2: Seq<Op>,
    r: Option<Seq<Mac>>,
)
    requires
        lines_kept(t, d0, l0, b.dir, log),
        knows(d0, l0, b.dir, log, dev),
        note_appended(b, log, dev, added, b2, log2, r),
    ensures
        lines_kept(t, d0, l0, b2.dir, log2),
{
    let text = file_text(b.dir, note_name(dev));
    let fresh = unnamed(text, added);
    if b.readable(dev) && fresh.len() > 0 {
        let ops = since(log, log2);
        let op = ops[0];
        let l1 = log.push(op);
        let name = note_name(dev);
        if r is Some {
            let truth = replay(d0, since(l0, log));
            let after = replayed(truth, op);
            appended_note_names_both(text, fresh);
            lemma_finished(text);
            assert forall|d: Seq<char>, m: Mac| undisturbed(d0, since(l0, log)) implies !(
            #[trigger] drops(truth, op, d, m)) by {
                if note_name(d) == name {
                    assert(file_text(truth, name) == text);
                    assert(file_text(after, name) == finished(text) + lines_text(fresh));
                } else {
                    assert(owned_in(after, d) == owned_in(truth, d));
                }
            }
            if undisturbed(d0, since(l0, log)) {
                assert(file_text(truth, name) == text);
                assert(believes_right(b2.dir, after));
            }
            lemma_kept_step(t, d0, l0, b.dir, log, op, b2.dir);
            let l2 = l1.push(ops[1]);
            assert(log2 =~= l2.push(ops[2])) by {
                assert(log2.take(log.len() as int) == log);
                assert(log2[log.len() as int] == ops[0]);
                assert(log2[log.len() as int + 1] == ops[1]);
                assert(log2[log.len() as int + 2] == ops[2]);
            }
            lemma_plain_one(b2.dir, l1, ops[1]);
            lemma_kept_plain(t, d0, l0, b2.dir, l1, b2.dir, l2);
            lemma_plain_one(b2.dir, l2, ops[2]);
            lemma_kept_plain(t, d0, l0, b2.dir, l2, b2.dir, log2);
        } else {
            assert(log2 =~= l1) by {
                assert(log2.take(log.len() as int) == log);
                assert(log2[log.len() as int] == ops[0]);
            }
            lemma_kept_refused(t, d0, l0, b.dir, log, op);
        }
    }
}

pub(crate) proof fn lemma_kept_extended(
    t: TopologyModel,
    d0: Files,
    l0: Seq<Op>,
    b: BookModel,
    log: Seq<Op>,
    dev: Seq<char>,
    added: Seq<Mac>,
    b2: BookModel,
    log2: Seq<Op>,
    r: Option<Seq<Mac>>,
)
    requires
        lines_kept(t, d0, l0, b.dir, log),
        note_extended(b, log, dev, added, b2, log2, r),
    ensures
        lines_kept(t, d0, l0, b2.dir, log2),
{
    let (b1, l1) = choose|b1: BookModel, l1: Seq<Op>| #[trigger]
        note_looked(b, log, dev, b1, l1) && note_appended(b1, l1, dev, added, b2, log2, r);
    lemma_kept_looked(t, d0, l0, b, log, dev, b1, l1);
    lemma_kept_appended(t, d0, l0, b1, l1, dev, added, b2, log2, r);
}

pub(crate) proof fn lemma_kept_removed(
    t: TopologyModel,
    d0: Files,
    l0: Seq<Op>,
    b: BookModel,
    log: Seq<Op>,
    dev: Seq<char>,
    b2: BookModel,
    log2: Seq<Op>,
)
    requires
        lines_kept(t, d0, l0, b.dir, log),
        note_removed(b, log, dev, b2, log2),
        may_shrink(t, d0, l0, log, dev, Set::empty()),
    ensures
        lines_kept(t, d0, l0, b2.dir, log2),
{
    let ops = since(log, log2);
    let name = note_name(dev);
    let op = ops[0];
    let l1 = log.push(op);
    let l2 = l1.push(ops[1]);
    assert(log2 =~= l2.push(ops[2])) by {
        assert(log2.take(log.len() as int) == log);
        assert(log2[log.len() as int] == ops[0]);
        assert(log2[log.len() as int + 1] == ops[1]);
        assert(log2[log.len() as int + 2] == ops[2]);
    }
    let d1 = replayed(b.dir, op);
    let d2 = replayed(d1, ops[1]);
    let truth = replay(d0, since(l0, log));
    let after = replayed(truth, op);
    assert forall|d: Seq<char>, m: Mac| undisturbed(d0, since(l0, log)) && #[trigger]
        drops(truth, op, d, m) implies may_go(t, since(l0, log), d, m) by {
        if note_name(d) == name {
            lemma_note_name(d, dev);
            assert(owned_in(truth, dev).contains(m) && !Set::<Mac>::empty().contains(m));
        } else {
            assert(owned_in(after, d) == owned_in(truth, d));
        }
    }
    lemma_kept_step(t, d0, l0, b.dir, log, op, d1);
    assert(no_note(index_name(dev)) && no_note(ports_name(dev))) by {
        assert forall|x: Seq<char>| index_name(dev) != #[trigger] note_name(x) && ports_name(dev)
            != note_name(x) by {
            lemma_kinds_differ(x, dev);
        }
    }
    lemma_plain_one(d1, l1, ops[1]);
    lemma_kept_plain(t, d0, l0, d1, l1, d2, l2);
    lemma_plain_one(d2, l2, ops[2]);
    lemma_kept_plain(t, d0, l0, d2, l2, replayed(d2, ops[2]), log2);
    reveal_with_fuel(replay, 4);
    assert(ops.drop_last().drop_last().drop_last() =~= Seq::empty());
    assert(ops.drop_last().drop_last().last() == ops[0]);
    assert(ops.drop_last().last() == ops[1]);
    assert(b2.dir == replayed(d2, ops[2]));
}

/// An address that was answered in one of two ways had a request that was.
pub(crate) proof fn lemma_answered_at(
    ops: Seq<Op>,
    one: Verdict,
    other: Verdict,
    m: Mac,
) -> (j: int)
    requires
        answered(ops, one, other).contains(m),
    ensures
        0 <= j < ops.len(),
        ops[j] matches Op::Card { mac, add, refused, .. } && mac == m && (verdict_of(add, refused)
            == one || verdict_of(add, refused) == other),
    decreases ops.len(),
{
    let front = ops.drop_last();
    let head = answered(front, one, other);
    if head.contains(m) {
        let j = lemma_answered_at(front, one, other, m);
        assert(front[j] == ops[j]);
        j
    } else {
        let i = choose|i: int|
            0 <= i < answered(ops, one, other).len() && answered(ops, one, other)[i] == m;
        assert(answered(ops, one, other) != head);
        assert(i == head.len()) by {
            if i < head.len() {
                assert(head[i] == m);
            }
        }
        ops.len() - 1
    }
}

/// A row of requests that lets go of addresses.
pub(crate) proof fn lemma_row_lets_go(
    a: Seq<Op>,
    row: Seq<Op>,
    index: u32,
    macs: Seq<Mac>,
    add: bool,
    m: Mac,
)
    requires
        sets_all(row, index, macs, add),
        macs.no_duplicates(),
        if add {
            already_in(row).contains(m)
        } else {
            settled_in(row).contains(m)
        },
    ensures
        let_go(a + row, index, m),
{
    let j = if add {
        lemma_answered_at(row, Verdict::Already, Verdict::Already, m)
    } else {
        lemma_answered_at(row, Verdict::Done, Verdict::Already, m)
    };
    let c = a + row;
    let at = a.len() + j;
    assert(c[at] == row[j]);
    assert(macs[j] == m);
    assert forall|k: int| at < k < c.len() implies !put_in(#[trigger] c[k], index, m) by {
        let x = k - a.len();
        assert(c[k] == row[x]);
        assert(macs[x] != macs[j]);
    }
    assert(let_go_at(c, index, m, at));
}

/// Requests to a card take no line off any note.
pub(crate) proof fn lemma_plain_cards(
    dir: Files,
    log: Seq<Op>,
    log2: Seq<Op>,
    index: u32,
    macs: Seq<Mac>,
    add: bool,
)
    requires
        grew(log, log2),
        sets_all(since(log, log2), index, macs, add),
    ensures
        plainwork(dir, log, dir, log2),
{
    let ops = since(log, log2);
    assert forall|i: int| 0 <= i < ops.len() implies (#[trigger] ops[i]) is Card by {}
    lemma_cards_change_no_file(dir, ops);
}

/// Registering a batch keeps the lines: only what the card calls somebody
/// else's comes off the note again.
pub(crate) proof fn lemma_kept_registered(
    t: TopologyModel,
    d0: Files,
    l0: Seq<Op>,
    b: BookModel,
    log: Seq<Op>,
    dev: Seq<char>,
    index: u32,
    macs: Seq<Mac>,
    b2: BookModel,
    log2: Seq<Op>,
    r: Option<RegisteredModel>,
)
    requires
        lines_kept(t, d0, l0, b.dir, log),
        batch_registered(b, log, dev, index, macs, b2, log2, r),
        macs.no_duplicates(),
        t.names.contains_key(dev) && t.names[dev] == index,
    ensures
        lines_kept(t, d0, l0, b2.dir, log2),
{
    let (bl, ll, l3) = choose|bl: BookModel, ll: Seq<Op>, l2: Seq<Op>|
        {
            &&& #[trigger] lock_asked(b, log, dev, bl, ll)
            &&& #[trigger] batch_noted(bl, ll, dev, index, macs, b2, l2, r)
            &&& log2 == l2.push(Op::Unlock { dev })
        };
    lemma_plain_lock(b, log, dev, bl, ll);
    lemma_kept_plain(t, d0, l0, b.dir, log, bl.dir, ll);
    let (b1, l1, fresh) = choose|b1: BookModel, l1: Seq<Op>, fresh: Option<Seq<Mac>>|
        {
            &&& #[trigger] note_extended(bl, ll, dev, macs, b1, l1, fresh)
            &&& match (fresh, r) {
                (None, None) => b2 == b1.saying(unnoted_text(dev, macs.len())) && l3 == l1,
                (Some(f), Some(reg)) => batch_settled(
                    b1,
                    l1,
                    dev,
                    index,
                    macs,
                    f,
                    b2,
                    l3,
                    reg,
                ),
                _ => false,
            }
        };
    lemma_kept_extended(t, d0, l0, bl, ll, dev, macs, b1, l1, fresh);
    if let Some(f) = fresh {
        let reg = r->0;
        let l2 = choose|l2: Seq<Op>| #[trigger]
            batch_answered(b1, l1, l2, dev, index, macs, f, b2, l3, reg);
        let row = since(l1, l2);
        let theirs = unclaimed(row, f);
        lemma_plain_cards(b1.dir, l1, l2, index, macs, true);
        lemma_kept_plain(t, d0, l0, b1.dir, l1, b1.dir, l2);
        if theirs.len() > 0 {
            let bs = refused_said(b1, dev, row);
            let (ok, b3) = choose|ok: bool, b3: BookModel| #[trigger]
                note_reduced(bs, l2, dev, theirs.to_set(), b3, l3, ok) && b2 == reduced_said(
                    b3,
                    dev,
                    theirs.len(),
                    ok,
                );
            lemma_grew_trans(l0, l1, l2);
            assert forall|m: Mac| #[trigger] theirs.to_set().contains(m) implies may_go(
                t,
                since(l0, l2),
                dev,
                m,
            ) by {
                lemma_filter(already_in(row), |x: Mac| f.contains(x), m);
                lemma_row_lets_go(since(l0, l1), row, index, macs, true, m);
            }
            lemma_kept_reduced(t, d0, l0, bs, l2, dev, theirs.to_set(), b3, l3, ok);
        }
    }
    lemma_kept_unlock(t, d0, l0, b2.dir, l3, dev);
}

/// Taking addresses out keeps the lines: only what the card let go comes off the
/// note. And what it let go stays gone until the end of it.
pub(crate) proof fn lemma_kept_taken_out(
    t: TopologyModel,
    d0: Files,
    l0: Seq<Op>,
    b: BookModel,
    log: Seq<Op>,
    dev: Seq<char>,
    index: u32,
    macs: Seq<Mac>,
    b2: BookModel,
    log2: Seq<Op>,
    o: OutcomeModel,
    why: Why,
)
    requires
        lines_kept(t, d0, l0, b.dir, log),
        taken_out(b, log, dev, index, macs, b2, log2, o, why),
        macs.no_duplicates(),
        t.names.contains_key(dev) && t.names[dev] == index,
    ensures
        lines_kept(t, d0, l0, b2.dir, log2),
        forall|m: Mac| #[trigger]
            o.settled.to_set().contains(m) ==> may_go(t, since(l0, log2), dev, m),
{
    let (bl, ll, l1, l2) = choose|bl: BookModel, ll: Seq<Op>, l1: Seq<Op>, l2: Seq<Op>|
        {
            &&& #[trigger] lock_asked(b, log, dev, bl, ll)
            &&& grew(ll, l1)
            &&& sets_all(since(ll, l1), index, macs, false)
            &&& o == outcome_of(since(ll, l1))
            &&& #[trigger] note_forgets(outcome_said(bl, dev, o, why), l1, dev, o.settled, b2, l2)
            &&& log2 == l2.push(Op::Unlock { dev })
        };
    let gone = o.settled.to_set();
    lemma_plain_lock(b, log, dev, bl, ll);
    lemma_kept_plain(t, d0, l0, b.dir, log, bl.dir, ll);
    lemma_plain_cards(bl.dir, ll, l1, index, macs, false);
    lemma_kept_plain(t, d0, l0, bl.dir, ll, bl.dir, l1);
    lemma_grew_trans(l0, ll, l1);
    assert forall|m: Mac| #[trigger] gone.contains(m) implies may_go(t, since(l0, l1), dev, m) by {
        lemma_row_lets_go(since(l0, ll), since(ll, l1), index, macs, false, m);
    }
    lemma_kept_forgets(t, d0, l0, outcome_said(bl, dev, o, why), l1, dev, o.settled, b2, l2);
    lemma_filework_forgets(outcome_said(bl, dev, o, why), l1, dev, o.settled, b2, l2);
    lemma_may_all_go_later(t, l0, bl.dir, l1, b2.dir, l2, dev, gone);
    lemma_kept_unlock(t, d0, l0, b2.dir, l2, dev);
    lemma_filework_one(b2.dir, l2, Op::Unlock { dev });
    lemma_may_all_go_later(t, l0, b2.dir, l2, b2.dir, log2, dev, gone);
}

pub(crate) proof fn lemma_no_note(dev: Seq<char>)
    ensures
        no_note(index_name(dev)),
        no_note(ports_name(dev)),
{
    assert forall|x: Seq<char>| index_name(dev) != #[trigger] note_name(x) && ports_name(dev)
        != note_name(x) by {
        lemma_kinds_differ(x, dev);
    }
}

pub(crate) proof fn lemma_plain_wrote(
    dir: Files,
    log: Seq<Op>,
    op: Op,
    dir2: Files,
    log2: Seq<Op>,
    r: bool,
)
    requires
        wrote(dir, log, op, dir2, log2, r),
        is_plain(op),
        op matches Op::Put { refused, .. } && refused is None,
    ensures
        plainwork(dir, log, dir2, log2),
{
    lemma_filework_wrote(dir, log, op, dir2, log2, r);
    let ops = since(log, log2);
    assert forall|i: int| 0 <= i < ops.len() implies is_plain(#[trigger] ops[i]) by {
        assert(i == 0 || i == 1 || i == 2);
    }
}

pub(crate) proof fn lemma_plain_index(
    b: BookModel,
    log: Seq<Op>,
    dev: Seq<char>,
    index: u32,
    b2: BookModel,
    log2: Seq<Op>,
)
    requires
        index_noted(b, log, dev, index, b2, log2),
    ensures
        plainwork(b.dir, log, b2.dir, log2),
{
    lemma_plain_same(b.dir, log);
    lemma_no_note(dev);
    if !(b.indices.contains_key(dev) && b.indices[dev] == index) {
        let op = Op::Put { name: index_name(dev), text: index_text(index), refused: None };
        let r = choose|r: bool| #[trigger]
            wrote(b.dir, log, op, b2.dir, log2, r) && put_copied(
                b.copies,
                index_name(dev),
                since(log, log2),
                r,
                b2.copies,
            ) && b2 == (BookModel {
                dir: b2.dir,
                copies: b2.copies,
                indices: b.indices.insert(dev, index),
                ..b.saying_if(!r, index_refused_text(dev, words_in(since(log, log2)[0])))
            });
        lemma_plain_wrote(b.dir, log, op, b2.dir, log2, r);
    }
}

pub(crate) proof fn lemma_plain_loaded(
    mem: MemoryModel,
    b: BookModel,
    log: Seq<Op>,
    t: TopologyModel,
    dev: Seq<char>,
    mem2: MemoryModel,
    b2: BookModel,
    log2: Seq<Op>,
)
    requires
        memory_loaded(mem, b, log, t, dev, mem2, b2, log2),
    ensures
        plainwork(b.dir, log, b2.dir, log2),
{
    lemma_plain_same(b.dir, log);
    if !mem.loaded.contains(dev) && !mem.carried.contains_key(dev) {
        let clock = log2[log.len() as int];
        let l1 = log.push(clock);
        lemma_plain_one(b.dir, log, clock);
        lemma_plain_one(b.dir, l1, log2.last());
        lemma_plain_trans(b.dir, log, b.dir, l1, b2.dir, log2);
    }
}

pub(crate) proof fn lemma_plain_memory_written(
    mem: MemoryModel,
    b: BookModel,
    log: Seq<Op>,
    dev: Seq<char>,
    rows: Seq<Seq<char>>,
    keys: Seq<Seq<char>>,
    mem2: MemoryModel,
    b2: BookModel,
    log2: Seq<Op>,
)
    requires
        memory_written(mem, b, log, dev, rows, keys, mem2, b2, log2),
    ensures
        plainwork(b.dir, log, b2.dir, log2),
{
    lemma_no_note(dev);
    if rows.len() == 0 {
        let r = choose|r: bool| #[trigger] ports_removed(b, log, dev, b2, log2, r);
        let first = log2[log.len() as int];
        let l1 = log.push(first);
        lemma_plain_one(b.dir, log, first);
        if log2 != l1 {
            lemma_plain_one(b2.dir, l1, log2.last());
            lemma_plain_trans(b.dir, log, b2.dir, l1, b2.dir, log2);
        }
    } else {
        let op = Op::Put { name: ports_name(dev), text: memory_text(rows), refused: None };
        let r = choose|r: bool| #[trigger] wrote(b.dir, log, op, b2.dir, log2, r);
        lemma_plain_wrote(b.dir, log, op, b2.dir, log2, r);
    }
}

pub(crate) proof fn lemma_plain_saved(
    mem: MemoryModel,
    b: BookModel,
    log: Seq<Op>,
    t: TopologyModel,
    dev: Seq<char>,
    pass_at: u64,
    dry_run: bool,
    mem2: MemoryModel,
    b2: BookModel,
    log2: Seq<Op>,
)
    requires
        memory_saved(mem, b, log, t, dev, pass_at, dry_run, mem2, b2, log2),
    ensures
        plainwork(b.dir, log, b2.dir, log2),
{
    lemma_plain_same(b.dir, log);
    if !(dry_run || !(mem.loaded.contains(dev) || mem.carried.contains_key(dev))) {
        let ports = mem.ports(dev);
        let keys = sorted_texts(memory_lines(t.links, ports, Some(pass_at)));
        let rows = sorted_texts(memory_lines(t.links, ports, None));
        let (bl, ll, lb) = choose|bl: BookModel, ll: Seq<Op>, lb: Seq<Op>|
            {
                &&& #[trigger] lock_asked(b, log, dev, bl, ll)
                &&& #[trigger] memory_settled(mem, bl, ll, dev, rows, keys, mem2, b2, lb)
                &&& log2 == lb.push(Op::Unlock { dev })
            };
        lemma_plain_lock(b, log, dev, bl, ll);
        let look = lb[ll.len() as int];
        if mem.written.contains_key(dev) && mem.written[dev] == keys {
            lemma_plain_one(bl.dir, ll, look);
            if !(mem2 == mem && b2 == bl && lb == ll.push(look)) {
                lemma_plain_memory_written(mem, bl, ll.push(look), dev, rows, keys, mem2, b2, lb);
                lemma_plain_trans(bl.dir, ll, bl.dir, ll.push(look), b2.dir, lb);
            }
        } else {
            lemma_plain_memory_written(mem, bl, ll, dev, rows, keys, mem2, b2, lb);
        }
        lemma_plain_trans(b.dir, log, bl.dir, ll, b2.dir, lb);
        lemma_plain_one(b2.dir, lb, Op::Unlock { dev });
        lemma_plain_trans(b.dir, log, b2.dir, lb, b2.dir, log2);
    }
}

/// Moving a note to another name keeps the lines, once the old name is gone.
pub(crate) proof fn lemma_kept_moved(
    t: TopologyModel,
    d0: Files,
    l0: Seq<Op>,
    b: BookModel,
    log: Seq<Op>,
    from: Seq<char>,
    to: Seq<char>,
    index: u32,
    b2: BookModel,
    log2: Seq<Op>,
    r: bool,
)
    requires
        lines_kept(t, d0, l0, b.dir, log),
        note_moved(b, log, from, to, index, b2, log2, r),
        !t.names.contains_key(from),
    ensures
        lines_kept(t, d0, l0, b2.dir, log2),
{
    if from != to {
        let (first, second) = if name_le(from, to) {
            (from, to)
        } else {
            (to, from)
        };
        let (ba, la, bb, lb, bc, lc, ld) = choose|
            ba: BookModel,
            la: Seq<Op>,
            bb: BookModel,
            lb: Seq<Op>,
            bc: BookModel,
            lc: Seq<Op>,
            ld: Seq<Op>,
        |
            {
                &&& #[trigger] lock_asked(b, log, first, ba, la)
                &&& #[trigger] lock_asked(ba, la, second, bb, lb)
                &&& #[trigger] note_looked(bb, lb, from, bc, lc)
                &&& #[trigger] note_carried_over(bc, lc, from, to, index, b2, ld, r)
                &&& log2 == ld.push(Op::Unlock { dev: second }).push(Op::Unlock { dev: first })
            };
        lemma_plain_lock(b, log, first, ba, la);
        lemma_kept_plain(t, d0, l0, b.dir, log, ba.dir, la);
        lemma_plain_lock(ba, la, second, bb, lb);
        lemma_kept_plain(t, d0, l0, ba.dir, la, bb.dir, lb);
        lemma_kept_looked(t, d0, l0, bb, lb, from, bc, lc);
        lemma_kept_carried_over(t, d0, l0, bc, lc, from, to, index, b2, ld, r);
        lemma_kept_unlock(t, d0, l0, b2.dir, ld, second);
        lemma_kept_unlock(t, d0, l0, b2.dir, ld.push(Op::Unlock { dev: second }), first);
    }
}

pub(crate) proof fn lemma_kept_carried_over(
    t: TopologyModel,
    d0: Files,
    l0: Seq<Op>,
    b: BookModel,
    log: Seq<Op>,
    from: Seq<char>,
    to: Seq<char>,
    index: u32,
    b2: BookModel,
    log2: Seq<Op>,
    r: bool,
)
    requires
        lines_kept(t, d0, l0, b.dir, log),
        note_carried_over(b, log, from, to, index, b2, log2, r),
        !t.names.contains_key(from),
    ensures
        lines_kept(t, d0, l0, b2.dir, log2),
{
    if b.readable(from) {
        if owned_in(b.dir, from) == Set::<Mac>::empty() {
            lemma_kept_removed(t, d0, l0, b, log, from, b2, log2);
        } else {
            let (macs, fresh, bx, lx) = choose|
                macs: Seq<Mac>,
                fresh: Option<Seq<Mac>>,
                bx: BookModel,
                lx: Seq<Op>,
            |
                {
                    &&& sorted_list(macs, owned_in(b.dir, from))
                    &&& #[trigger] note_extended(b, log, to, macs, bx, lx, fresh)
                    &&& r == (fresh is Some)
                    &&& if r {
                        exists|by: BookModel, ly: Seq<Op>| #[trigger]
                            index_noted(bx, lx, to, index, by, ly) && note_removed(
                                by,
                                ly,
                                from,
                                b2,
                                log2,
                            )
                    } else {
                        b2 == bx && log2 == lx
                    }
                };
            lemma_kept_extended(t, d0, l0, b, log, to, macs, bx, lx, fresh);
            if r {
                let (by, ly) = choose|by: BookModel, ly: Seq<Op>| #[trigger]
                    index_noted(bx, lx, to, index, by, ly) && note_removed(
                        by,
                        ly,
                        from,
                        b2,
                        log2,
                    );
                lemma_plain_index(bx, lx, to, index, by, ly);
                lemma_kept_plain(t, d0, l0, bx.dir, lx, by.dir, ly);
                lemma_kept_removed(t, d0, l0, by, ly, from, b2, log2);
            }
        }
    }
}

/// Settling a note keeps the lines of what the card would not let go.
pub(crate) proof fn lemma_kept_settled(
    t: TopologyModel,
    d0: Files,
    l0: Seq<Op>,
    b: BookModel,
    log: Seq<Op>,
    dev: Seq<char>,
    l1: Seq<Op>,
    kept: Set<Mac>,
    index: Option<u32>,
    b2: BookModel,
    log2: Seq<Op>,
    clean: bool,
)
    requires
        lines_kept(t, d0, l0, b.dir, log),
        knows(d0, l0, b.dir, log, dev),
        entries_taken(index, owned_in(b.dir, dev), log, l1, kept),
        note_settled(b, l1, dev, kept, b2, log2, clean),
        t.names.contains_key(dev) ==> index == Some(t.names[dev]),
    ensures
        lines_kept(t, d0, l0, b2.dir, log2),
{
    let owned = owned_in(b.dir, dev);
    if let Some(i) = index {
        let macs = choose|macs: Seq<Mac>|
            {
                &&& macs.no_duplicates() && macs.to_set() == owned
                &&& grew(log, l1)
                &&& #[trigger] sets_all(since(log, l1), i, macs, false)
                &&& kept == failed_in(since(log, l1)).to_set()
            };
        let row = since(log, l1);
        lemma_plain_cards(b.dir, log, l1, i, macs, false);
        lemma_kept_plain(t, d0, l0, b.dir, log, b.dir, l1);
        lemma_grew_trans(l0, log, l1);
        lemma_answered(row, i, macs, false);
        if undisturbed(d0, since(l0, l1)) {
            let truth = replay(d0, since(l0, l1));
            assert(owned_in(truth, dev) == owned);
            assert forall|m: Mac| #[trigger]
                owned_in(truth, dev).contains(m) && !kept.contains(m) implies may_go(
                t,
                since(l0, l1),
                dev,
                m,
            ) by {
                assert(macs.to_set().contains(m));
                assert(macs.contains(m));
                assert(!failed_in(row).contains(m)) by {
                    if failed_in(row).contains(m) {
                        assert(failed_in(row).to_set().contains(m));
                    }
                }
                assert(settled_in(row).contains(m));
                if t.names.contains_key(dev) {
                    lemma_row_lets_go(since(l0, log), row, i, macs, false, m);
                }
            }
        }
    }
    assert(may_shrink(t, d0, l0, l1, dev, kept));
    if kept == Set::<Mac>::empty() && b.readable(dev) {
        lemma_kept_removed(t, d0, l0, b, l1, dev, b2, log2);
    } else {
        let r = choose|r: bool| note_written(b, l1, dev, kept, b2, log2, r);
        lemma_kept_written(t, d0, l0, b, l1, dev, kept, b2, log2, r);
    }
}

} // verus!
