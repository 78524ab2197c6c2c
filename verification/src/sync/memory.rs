//! The quiet memory: behind which port each owned address was last learnt, and
//! when it was last heard of.
//!
//! What it buys: a guest that goes quiet outlives the bridge's ageing as long
//! as its port does. It is written down beside the note because a restarting
//! daemon is mostly one being updated, and forgetting it would unregister
//! every quiet guest on the next pass.

use vstd::prelude::*;
use vstd::relations::total_ordering;
use vstd::seq_lib::lemma_sorted_unique;
use vstd::utf8::{encode_utf8, encode_utf8_decode_utf8};

use crate::graph::reaches;
use crate::keyed::{
    entry_map, entry_models, lemma_entry, lemma_entry_dom, lemma_mac_models, lemma_push_contains,
    KeyMap, KeySet,
};
use crate::mac::{mac_text, spelling_is_unique, written_mac_spells_it, Mac};
use crate::netlink::{FdbEntry, FdbWriter, Op, Recorded, RTM_DELNEIGH};
use crate::order::{lemma_lex_same, lemma_lex_total, lemma_lex_trans, name_le, sorted, Ordered};
use crate::sync::files::{file_text, put_copied, since, words_in, wrote};
use crate::sync::journal::memory_refused_text;
use crate::sync::notes::{
    file_read, filework, lemma_filework_one, lemma_filework_same, lemma_filework_trans,
    lemma_filework_wrote, lock_asked, ports_name, ports_removed, BookModel, Notebook,
};
use crate::sync::record::{
    lemma_mac_text, memory_list, memory_of, memory_text, port_line, write_port_line, Remembered,
    RememberedModel,
};
use crate::sync::said::{carried_entry, Marks};
use crate::sync::types::{pair_list, Pair, PairModel};
use crate::topology::{edges, LinkModel, Topology, TopologyModel, Way};
use crate::topology::detect::texts;

verus! {

/// Behind which port each address was last learnt, and when it was last heard
/// of, in milliseconds since boot.
pub type Ports = KeyMap<Mac, (u32, u64)>;

/// What a `Ports` holds.
pub type PortsModel = Map<Mac, (u32, u64)>;

/// The quiet memory of every uplink.
pub struct PortMemory {
    /// per uplink
    pub carried: KeyMap<String, Ports>,
    /// Uplinks whose written-down memory has been read this run: the file is
    /// believed once, at the first pass that needs it.
    pub loaded: KeySet<String>,
    /// What was last written to each uplink's memory file, so that an idle
    /// pass writes nothing at all.
    pub written: KeyMap<String, Vec<String>>,
}

/// What a `PortMemory` holds.
pub struct MemoryModel {
    pub carried: Map<Seq<char>, PortsModel>,
    pub loaded: Set<Seq<char>>,
    pub written: Map<Seq<char>, Seq<Seq<char>>>,
}

/// What the memories in a map hold.
pub open spec fn port_maps(m: Map<Seq<char>, Ports>) -> Map<Seq<char>, PortsModel> {
    m.map_values(|p: Ports| p@)
}

impl View for PortMemory {
    type V = MemoryModel;

    open spec fn view(&self) -> MemoryModel {
        MemoryModel {
            carried: port_maps(self.carried@),
            loaded: self.loaded@,
            written: self.written@.map_values(|v: Vec<String>| texts(v@)),
        }
    }
}

impl MemoryModel {
    /// What is remembered for an uplink.
    pub open spec fn ports(self, dev: Seq<char>) -> PortsModel {
        if self.carried.contains_key(dev) {
            self.carried[dev]
        } else {
            Map::empty()
        }
    }

    /// When an address of an uplink was last heard of; at boot, when nothing
    /// is remembered.
    pub open spec fn stamp(self, dev: Seq<char>, m: Mac) -> u64 {
        if self.ports(dev).contains_key(m) {
            self.ports(dev)[m].1
        } else {
            0
        }
    }
}

/// An observation about an address: where the bridge holds it, if that is
/// known, and when it was heard from. A stamp only moves forward; an address
/// nothing knows a port for is not recorded.
pub open spec fn seen_at(ports: PortsModel, mac: Mac, port: Option<u32>, at: u64) -> PortsModel {
    if ports.contains_key(mac) {
        ports.insert(
            mac,
            (
                match port {
                    Some(p) => p,
                    None => ports[mac].0,
                },
                if ports[mac].1 >= at {
                    ports[mac].1
                } else {
                    at
                },
            ),
        )
    } else {
        match port {
            Some(p) => ports.insert(mac, (p, at)),
            None => ports,
        }
    }
}

/// Records an observation about an owned address: where the bridge holds it,
/// and when it was last heard from. The one place a stamp is written, and it
/// only moves forward: an older observation is no evidence against a newer
/// one, whatever its source.
pub fn note_seen(ports: &mut Ports, mac: Mac, port: Option<u32>, at: u64)
    ensures
        final(ports)@ == seen_at(old(ports)@, mac, port, at),
{
    match ports.get(&mac) {
        Some(slot) => {
            let p = match port {
                Some(p) => p,
                None => slot.0,
            };
            let t = if slot.1 >= at {
                slot.1
            } else {
                at
            };
            ports.insert(mac, (p, t));
        },
        None => {
            if let Some(p) = port {
                ports.insert(mac, (p, at));
            }
        },
    }
}

/// Whether no stamp of `a` is later than the same address's in `b`.
pub open spec fn no_older(a: PortsModel, b: PortsModel) -> bool {
    forall|m: Mac| #[trigger] a.contains_key(m) ==> b.contains_key(m) && a[m].1 <= b[m].1
}

/// A stamp never moves backwards, whoever writes it.
pub proof fn stamps_only_move_forward(ports: PortsModel, mac: Mac, port: Option<u32>, at: u64)
    ensures
        no_older(ports, seen_at(ports, mac, port, at)),
{
}

/// An observation without a port records no address that was not there.
pub proof fn deletion_records_no_address(ports: PortsModel, mac: Mac, at: u64)
    ensures
        seen_at(ports, mac, None, at).dom() == ports.dom(),
{
    assert(seen_at(ports, mac, None, at).dom() =~= ports.dom());
}

/// Texts in the order of their bytes: whether `v` lists exactly `s`, each once.
pub open spec fn lists_texts(v: Seq<Seq<char>>, s: Set<Seq<char>>) -> bool {
    &&& v.no_duplicates()
    &&& v.to_set() == s
    &&& forall|i: int, j: int|
        #![trigger v[i], v[j]]
        0 <= i <= j < v.len() ==> name_le(v[i], v[j])
}

/// Texts in the order of their bytes.
pub open spec fn sorted_texts(s: Set<Seq<char>>) -> Seq<Seq<char>> {
    choose|v: Seq<Seq<char>>| lists_texts(v, s)
}

/// Texts by the order of their bytes, as a relation.
pub open spec fn name_order() -> spec_fn(Seq<char>, Seq<char>) -> bool {
    |a: Seq<char>, b: Seq<char>| name_le(a, b)
}

proof fn lemma_name_order()
    ensures
        total_ordering(name_order()),
{
    let leq = name_order();
    assert(total_ordering(leq)) by {
        assert forall|a: Seq<char>| #[trigger] leq(a, a) by {
            lemma_lex_total(encode_utf8(a), encode_utf8(a));
        }
        assert forall|a: Seq<char>, b: Seq<char>| #[trigger] leq(a, b) && #[trigger] leq(
            b,
            a,
        ) implies a == b by {
            lemma_lex_same(encode_utf8(a), encode_utf8(b));
            encode_utf8_decode_utf8(a);
            encode_utf8_decode_utf8(b);
        }
        assert forall|a: Seq<char>, b: Seq<char>, c: Seq<char>| #[trigger] leq(a, b) && #[trigger] leq(
            b,
            c,
        ) implies leq(a, c) by {
            lemma_lex_trans(encode_utf8(a), encode_utf8(b), encode_utf8(c));
        }
        assert forall|a: Seq<char>, b: Seq<char>| #[trigger] leq(a, b) || #[trigger] leq(b, a) by {
            lemma_lex_total(encode_utf8(a), encode_utf8(b));
        }
    }
}

proof fn lemma_to_seq_len(s: Set<Seq<char>>)
    requires
        s.finite(),
    ensures
        s.to_seq().len() == s.len(),
    decreases s.len(),
{
    if s.len() > 0 {
        vstd::set_lib::lemma_set_empty_equivalency_len(s);
        lemma_to_seq_len(s.remove(s.choose()));
    }
}

/// Every finite set of texts can be put in order.
pub proof fn lemma_sorted_texts_list(s: Set<Seq<char>>)
    requires
        s.finite(),
    ensures
        lists_texts(sorted_texts(s), s),
{
    broadcast use vstd::seq_lib::group_to_multiset_ensures;

    let leq = name_order();
    lemma_name_order();
    let v = s.to_seq();
    let w = v.sort_by(leq);
    v.lemma_sort_by_ensures(leq);
    s.lemma_to_seq_to_set_id();
    lemma_to_seq_len(s);
    v.lemma_no_dup_set_cardinality();
    v.lemma_multiset_has_no_duplicates();
    w.lemma_multiset_has_no_duplicates_conv();
    assert forall|x: Seq<char>| w.to_set().contains(x) <==> s.contains(x) by {
        assert(v.contains(x) <==> v.to_multiset().count(x) > 0);
        assert(w.contains(x) <==> w.to_multiset().count(x) > 0);
        assert(v.contains(x) <==> v.to_set().contains(x));
    }
    assert(w.to_set() =~= s);
    assert forall|i: int, j: int|
        #![trigger w[i], w[j]]
        0 <= i <= j < w.len() implies name_le(w[i], w[j]) by {
        if i < j {
            assert(leq(w[i], w[j]));
        } else {
            assert(leq(w[i], w[i]));
        }
    }
    assert(lists_texts(w, s));
}

/// There is one way to put texts in order.
pub proof fn lemma_sorted_texts(v: Seq<Seq<char>>, s: Set<Seq<char>>)
    requires
        lists_texts(v, s),
    ensures
        sorted_texts(s) == v,
{
    let other = sorted_texts(s);
    let leq = name_order();
    lemma_name_order();
    assert forall|i: int, j: int| 0 <= i < j < v.len() implies #[trigger] leq(v[i], v[j]) by {
        assert(name_le(v[i], v[j]));
    }
    assert forall|i: int, j: int| 0 <= i < j < other.len() implies #[trigger] leq(
        other[i],
        other[j],
    ) by {
        assert(name_le(other[i], other[j]));
    }
    assert(v.to_multiset() == other.to_multiset()) by {
        broadcast use vstd::seq_lib::group_to_multiset_ensures;

        v.lemma_multiset_has_no_duplicates();
        other.lemma_multiset_has_no_duplicates();
        assert forall|x: Seq<char>| v.to_multiset().count(x) == other.to_multiset().count(x) by {
            assert(v.contains(x) <==> v.to_set().contains(x));
            assert(other.contains(x) <==> other.to_set().contains(x));
            if v.contains(x) {
                assert(v.to_multiset().contains(x));
                assert(other.to_multiset().contains(x));
            }
        }
        assert(v.to_multiset() =~= other.to_multiset());
    }
    lemma_sorted_unique(v, other, leq);
}

/// Sorts texts that are all different.
fn sort_texts(v: Vec<String>) -> (r: Vec<String>)
    requires
        texts(v@).no_duplicates(),
    ensures
        lists_texts(texts(r@), texts(v@).to_set()),
        texts(r@) == sorted_texts(texts(v@).to_set()),
{
    let ghost given = v@;
    proof {
        assert forall|a: int, b: int|
            0 <= a < given.len() && 0 <= b < given.len() && a != b implies given[a] != given[b] by {
            assert(texts(given)[a] != texts(given)[b]);
        }
    }
    let out = sorted(v);
    proof {
        let t = texts(out@);
        let g = texts(given);
        assert forall|x: Seq<char>| t.to_set().contains(x) <==> g.to_set().contains(x) by {
            if t.contains(x) {
                let j = choose|j: int| 0 <= j < t.len() && t[j] == x;
                assert(out@.contains(out@[j]));
                assert(given.contains(out@[j]));
                let q = choose|q: int| 0 <= q < given.len() && given[q] == out@[j];
                assert(g[q] == x);
            }
            if g.contains(x) {
                let q = choose|q: int| 0 <= q < g.len() && g[q] == x;
                assert(given.contains(given[q]));
                assert(out@.contains(given[q]));
                let j = choose|j: int| 0 <= j < out@.len() && out@[j] == given[q];
                assert(t[j] == x);
            }
        }
        assert(t.to_set() =~= g.to_set());
        assert forall|a: int, b: int|
            0 <= a < t.len() && 0 <= b < t.len() && a != b implies t[a] != t[b] by {
            assert(out@.contains(out@[a]) && out@.contains(out@[b]));
            assert(given.contains(out@[a]) && given.contains(out@[b]));
            let p = choose|p: int| 0 <= p < given.len() && given[p] == out@[a];
            let q = choose|q: int| 0 <= q < given.len() && given[q] == out@[b];
            assert(p != q);
            assert(g[p] != g[q]);
        }
        assert forall|a: int, b: int|
            #![trigger t[a], t[b]]
            0 <= a <= b < t.len() implies name_le(t[a], t[b]) by {
            assert(out@[a].leq(&out@[b]));
        }
        lemma_sorted_texts(t, g.to_set());
    }
    out
}

/// What a line of the memory is for, without the stamp: which address, behind
/// which port, and whether it is quiet since `at`. With `at` none, the line
/// itself.
pub open spec fn memory_line(
    links: Map<u32, LinkModel>,
    ports: PortsModel,
    m: Mac,
    at: Option<u64>,
) -> Seq<char> {
    port_line(
        m,
        links[ports[m].0].name,
        ports[m].0,
        match at {
            Some(t) => if ports[m].1 < t {
                1
            } else {
                0
            },
            None => ports[m].1 as nat,
        },
    )
}

/// Whether an address has a line: its port has a name. A port whose index no
/// longer has one is gone, and the keep is over for it anyway.
pub open spec fn has_line(links: Map<u32, LinkModel>, ports: PortsModel, m: Mac) -> bool {
    ports.contains_key(m) && links.contains_key(ports[m].0)
}

/// The lines of a memory.
pub open spec fn memory_lines(
    links: Map<u32, LinkModel>,
    ports: PortsModel,
    at: Option<u64>,
) -> Set<Seq<char>> {
    Set::new(
        |l: Seq<char>|
            exists|m: Mac| #[trigger]
                has_line(links, ports, m) && l == memory_line(links, ports, m, at),
    )
}

pub(crate) proof fn lemma_line_starts(
    a: Mac,
    an: Seq<char>,
    ai: u32,
    at: nat,
    b: Mac,
    bn: Seq<char>,
    bi: u32,
    bt: nat,
)
    requires
        port_line(a, an, ai, at) == port_line(b, bn, bi, bt),
    ensures
        a == b,
{
    lemma_mac_text(a);
    lemma_mac_text(b);
    assert(port_line(a, an, ai, at).take(17) =~= mac_text(a));
    assert(port_line(b, bn, bi, bt).take(17) =~= mac_text(b));
    written_mac_spells_it(a);
    written_mac_spells_it(b);
    spelling_is_unique(mac_text(a), a, b);
}

/// The lines of a memory, in order.
fn lines_of(topo: &Topology, ports: &Ports, at: Option<u64>) -> (r: Vec<String>)
    ensures
        lists_texts(texts(r@), memory_lines(topo@.links, ports@, at)),
        texts(r@) == sorted_texts(memory_lines(topo@.links, ports@, at)),
{
    let ghost links = topo@.links;
    let entries = ports.list();
    let ghost ks = entry_models(entries@);
    let mut out: Vec<String> = Vec::new();
    let mut i: usize = 0;
    assert(texts(out@) =~= Seq::empty());
    while i < entries.len()
        invariant
            links == topo@.links,
            ks == entry_models(entries@),
            ks.no_duplicates(),
            entry_map(entries@) == ports@,
            i <= entries@.len(),
            texts(out@).no_duplicates(),
            forall|l: Seq<char>| #[trigger]
                texts(out@).contains(l) <==> exists|j: int|
                    0 <= j < i && has_line(links, ports@, #[trigger] ks[j]) && l == memory_line(
                        links,
                        ports@,
                        ks[j],
                        at,
                    ),
        decreases entries@.len() - i,
    {
        let m = entries[i].0;
        let (index, seen) = entries[i].1;
        let ghost out0 = out@;
        proof {
            lemma_entry(entries@, i as int);
            assert(ks[i as int] == m);
        }
        if let Some(name) = topo.name_of(index) {
            let n: u64 = match at {
                Some(t) => if seen < t {
                    1
                } else {
                    0
                },
                None => seen,
            };
            let line = write_port_line(&m, name, index, n);
            proof {
                assert(line@ == memory_line(links, ports@, m, at));
                assert(texts(out0.push(line)) =~= texts(out0).push(line@));
                lemma_push_contains(texts(out0), line@);
                assert(!texts(out0).contains(line@)) by {
                    if texts(out0).contains(line@) {
                        let j = choose|j: int|
                            0 <= j < i && has_line(links, ports@, #[trigger] ks[j]) && line@
                                == memory_line(links, ports@, ks[j], at);
                        let q = ks[j];
                        let nq: nat = match at {
                            Some(t) => if ports@[q].1 < t {
                                1
                            } else {
                                0
                            },
                            None => ports@[q].1 as nat,
                        };
                        lemma_line_starts(
                            m,
                            name@,
                            index,
                            n as nat,
                            q,
                            links[ports@[q].0].name,
                            ports@[q].0,
                            nq,
                        );
                        assert(ks[j] == ks[i as int]);
                    }
                }
                assert forall|j: int| 0 <= j < out0.len() implies texts(out0)[j] != line@ by {
                    assert(texts(out0).contains(texts(out0)[j]));
                }
            }
            out.push(line);
        }
        i += 1;
    }
    proof {
        let all = memory_lines(links, ports@, at);
        assert forall|l: Seq<char>| texts(out@).to_set().contains(l) <==> all.contains(l) by {
            if texts(out@).contains(l) {
                let j = choose|j: int|
                    0 <= j < ks.len() && has_line(links, ports@, #[trigger] ks[j]) && l
                        == memory_line(links, ports@, ks[j], at);
                assert(has_line(links, ports@, ks[j]));
            }
            if all.contains(l) {
                let m = choose|m: Mac| #[trigger]
                    has_line(links, ports@, m) && l == memory_line(links, ports@, m, at);
                assert(ks.contains(m));
                let j = choose|j: int| 0 <= j < ks.len() && ks[j] == m;
                assert(has_line(links, ports@, ks[j]) && l == memory_line(links, ports@, ks[j], at));
                assert(texts(out@).contains(l));
            }
        }
        assert(texts(out@).to_set() =~= all);
    }
    sort_texts(out)
}

/// Whether a line of the memory still describes this host: its port is there
/// and carries the recorded index.
pub open spec fn believed(t: TopologyModel, x: RememberedModel) -> bool {
    t.names.contains_key(x.name) && t.names[x.name] == x.index
}

/// The lines of the memory that still describe this host.
pub open spec fn believed_lines(t: TopologyModel, xs: Seq<RememberedModel>) -> Seq<RememberedModel>
    decreases xs.len(),
{
    if xs.len() == 0 {
        Seq::empty()
    } else if believed(t, xs.last()) {
        believed_lines(t, xs.drop_last()).push(xs.last())
    } else {
        believed_lines(t, xs.drop_last())
    }
}

/// The latest stamp of a list.
pub open spec fn latest(xs: Seq<RememberedModel>) -> nat
    decreases xs.len(),
{
    if xs.len() == 0 {
        0
    } else if xs.last().seen >= latest(xs.drop_last()) {
        xs.last().seen as nat
    } else {
        latest(xs.drop_last())
    }
}

/// `a` less `b`, or nothing.
pub open spec fn less(a: nat, b: nat) -> nat {
    if a >= b {
        (a - b) as nat
    } else {
        0
    }
}

/// The memory that a list of lines describes, every stamp moved back by `ahead`.
pub open spec fn ports_from(xs: Seq<RememberedModel>, ahead: nat) -> PortsModel
    decreases xs.len(),
{
    if xs.len() == 0 {
        Map::empty()
    } else {
        ports_from(xs.drop_last(), ahead).insert(
            xs.last().mac,
            (xs.last().index, less(xs.last().seen as nat, ahead) as u64),
        )
    }
}

/// Whether `t` is the latest stamp of a memory.
pub open spec fn is_latest(ports: PortsModel, t: u64) -> bool {
    &&& exists|m: Mac| #[trigger] ports.contains_key(m) && ports[m].1 == t
    &&& forall|m: Mac| #[trigger] ports.contains_key(m) ==> ports[m].1 <= t
}

/// The memory of the previous process, as far as it still describes this host.
/// Stamps from the future are moved back, all by as much: clamping them would
/// lose the order between them.
pub open spec fn previous_memory(
    t: TopologyModel,
    xs: Seq<RememberedModel>,
    now: u64,
) -> PortsModel {
    let ours = believed_lines(t, xs);
    ports_from(ours, less(latest(ours), now as nat))
}

/// The milliseconds since boot that a reading of the clocks gave.
pub open spec fn millis_of(op: Op) -> u64 {
    match op {
        Op::Clock { reading } => reading.boot_millis,
        _ => 0,
    }
}

/// What taking over the previous process's memory leaves behind. It is done
/// once per uplink; a memory already carried is ahead of any file.
pub open spec fn memory_loaded(
    mem: MemoryModel,
    b: BookModel,
    log: Seq<Op>,
    t: TopologyModel,
    dev: Seq<char>,
    mem2: MemoryModel,
    b2: BookModel,
    log2: Seq<Op>,
) -> bool {
    let clock = log2[log.len() as int];
    let ports = previous_memory(
        t,
        memory_of(file_text(b2.dir, ports_name(dev))),
        millis_of(clock),
    );
    let marked = MemoryModel { loaded: mem.loaded.insert(dev), ..mem };
    if mem.loaded.contains(dev) {
        mem2 == mem && b2 == b && log2 == log
    } else if mem.carried.contains_key(dev) {
        mem2 == marked && b2 == b && log2 == log
    } else {
        &&& clock is Clock
        &&& file_read(b, log.push(clock), ports_name(dev), b2, log2)
        &&& if ports == Map::<Mac, (u32, u64)>::empty() {
            mem2 == marked
        } else {
            exists|at: u64| #[trigger]
                is_latest(ports, at) && mem2 == (MemoryModel {
                    carried: mem.carried.insert(dev, ports),
                    written: mem.written.insert(
                        dev,
                        sorted_texts(memory_lines(t.links, ports, Some(at))),
                    ),
                    ..marked
                })
        }
    }
}

/// No stamp taken over from the previous process lies in the future.
pub proof fn taken_over_stamps_are_past(
    t: TopologyModel,
    xs: Seq<RememberedModel>,
    now: u64,
    m: Mac,
)
    requires
        previous_memory(t, xs, now).contains_key(m),
    ensures
        previous_memory(t, xs, now)[m].1 <= now,
{
    let ours = believed_lines(t, xs);
    lemma_ports_from(ours, less(latest(ours), now as nat), latest(ours), m);
}

proof fn lemma_ports_from(xs: Seq<RememberedModel>, ahead: nat, top: nat, m: Mac)
    requires
        ports_from(xs, ahead).contains_key(m),
        latest(xs) <= top,
    ensures
        ports_from(xs, ahead)[m].1 <= less(top, ahead),
    decreases xs.len(),
{
    if xs.len() > 0 && xs.last().mac != m {
        lemma_ports_from(xs.drop_last(), ahead, top, m);
    }
}

/// Of two addresses in one memory file the one heard of later is heard of no
/// earlier once the stamps have been moved back.
pub proof fn moving_back_keeps_the_order(a: u64, b: u64, ahead: nat)
    requires
        a <= b,
    ensures
        less(a as nat, ahead) <= less(b as nat, ahead),
{
}

/// What the file with the memory is made to say, and what is remembered of
/// that: an empty memory keeps no file.
pub open spec fn memory_written(
    mem: MemoryModel,
    b: BookModel,
    log: Seq<Op>,
    dev: Seq<char>,
    rows: Seq<Seq<char>>,
    keys: Seq<Seq<char>>,
    mem2: MemoryModel,
    b2: BookModel,
    log2: Seq<Op>,
) -> bool {
    let name = ports_name(dev);
    let noted = MemoryModel { written: mem.written.insert(dev, keys), ..mem };
    let unsure = MemoryModel { written: mem.written.remove(dev), ..mem };
    if rows.len() == 0 {
        exists|r: bool| #[trigger]
            ports_removed(b, log, dev, b2, log2, r) && mem2 == if r {
                noted
            } else {
                unsure
            }
    } else {
        exists|r: bool|
            {
                &&& #[trigger] wrote(
                    b.dir,
                    log,
                    Op::Put { name, text: memory_text(rows), refused: None },
                    b2.dir,
                    log2,
                    r,
                )
                &&& put_copied(b.copies, name, since(log, log2), r, b2.copies)
                &&& b2.place == b.place
                &&& b2.indices == b.indices && b2.dir_list_warned == b.dir_list_warned
                &&& b2.said == if r {
                    b.said
                } else {
                    Marks { ports: b.said.ports.insert(dev), ..b.said }
                }
                &&& b2.journal == b.saying_if(
                    !r && !b.said.ports.contains(dev),
                    memory_refused_text(dev, words_in(since(log, log2)[0])),
                ).journal
                &&& mem2 == if r {
                    noted
                } else {
                    unsure
                }
            }
    }
}

/// What is done under the lock: where the file is known to say all that matters
/// already, one look tells whether it is still there, or still gone.
pub open spec fn memory_settled(
    mem: MemoryModel,
    b: BookModel,
    log: Seq<Op>,
    dev: Seq<char>,
    rows: Seq<Seq<char>>,
    keys: Seq<Seq<char>>,
    mem2: MemoryModel,
    b2: BookModel,
    log2: Seq<Op>,
) -> bool {
    let look = log2[log.len() as int];
    if mem.written.contains_key(dev) && mem.written[dev] == keys {
        &&& look matches Op::Stat { name, meta } && name == ports_name(dev) && if (meta is Some)
            != (rows.len() == 0) {
            mem2 == mem && b2 == b && log2 == log.push(look)
        } else {
            memory_written(mem, b, log.push(look), dev, rows, keys, mem2, b2, log2)
        }
    } else {
        memory_written(mem, b, log, dev, rows, keys, mem2, b2, log2)
    }
}

/// What writing the memory down leaves behind. Nothing is written for an
/// uplink whose file nobody has read, nor where the file is known to say all
/// that matters already and is still there, or still gone.
pub open spec fn memory_saved(
    mem: MemoryModel,
    b: BookModel,
    log: Seq<Op>,
    t: TopologyModel,
    dev: Seq<char>,
    pass_at: u64,
    dry_run: bool,
    mem2: MemoryModel,
    b2: BookModel,
    log2: Seq<Op>,
) -> bool {
    let ports = mem.ports(dev);
    let keys = sorted_texts(memory_lines(t.links, ports, Some(pass_at)));
    let rows = sorted_texts(memory_lines(t.links, ports, None));
    if dry_run || !(mem.loaded.contains(dev) || mem.carried.contains_key(dev)) {
        mem2 == mem && b2 == b && log2 == log
    } else {
        exists|bl: BookModel, ll: Seq<Op>, lb: Seq<Op>|
            {
                &&& #[trigger] lock_asked(b, log, dev, bl, ll)
                &&& #[trigger] memory_settled(mem, bl, ll, dev, rows, keys, mem2, b2, lb)
                &&& log2 == lb.push(Op::Unlock { dev })
            }
    }
}

/// Taking over the memory reads a file and nothing else.
pub proof fn lemma_filework_loaded(
    mem: MemoryModel,
    b: BookModel,
    log: Seq<Op>,
    t: TopologyModel,
    dev: Seq<char>,
    mem2: MemoryModel,
    b2: BookModel,
    log2: Seq<Op>,
)
    requires
        memory_loaded(mem, b, log, t, dev, mem2, b2, log2),
    ensures
        filework(b.dir, log, b2.dir, log2),
{
    lemma_filework_same(b.dir, log);
    if !mem.loaded.contains(dev) && !mem.carried.contains_key(dev) {
        let clock = log2[log.len() as int];
        let l1 = log.push(clock);
        lemma_filework_one(b.dir, log, clock);
        lemma_filework_one(b.dir, l1, log2.last());
        lemma_filework_trans(b.dir, log, b.dir, l1, b2.dir, log2);
    }
}

proof fn lemma_filework_settled(
    mem: MemoryModel,
    b: BookModel,
    log: Seq<Op>,
    dev: Seq<char>,
    rows: Seq<Seq<char>>,
    keys: Seq<Seq<char>>,
    mem2: MemoryModel,
    b2: BookModel,
    log2: Seq<Op>,
)
    requires
        memory_settled(mem, b, log, dev, rows, keys, mem2, b2, log2),
    ensures
        filework(b.dir, log, b2.dir, log2),
{
    let look = log2[log.len() as int];
    let known = mem.written.contains_key(dev) && mem.written[dev] == keys;
    let start = if known {
        log.push(look)
    } else {
        log
    };
    lemma_filework_same(b.dir, log);
    if known {
        lemma_filework_one(b.dir, log, look);
    }
    if known && log2 == start && b2 == b {
    } else {
        if rows.len() == 0 {
            let r = choose|r: bool| #[trigger] ports_removed(b, start, dev, b2, log2, r);
            let first = log2[start.len() as int];
            let l1 = start.push(first);
            lemma_filework_one(b.dir, start, first);
            if log2 != l1 {
                lemma_filework_one(b2.dir, l1, log2.last());
                lemma_filework_trans(b.dir, start, b2.dir, l1, b2.dir, log2);
            }
        } else {
            let op = Op::Put {
                name: ports_name(dev),
                text: memory_text(rows),
                refused: None,
            };
            let r = choose|r: bool| #[trigger] wrote(b.dir, start, op, b2.dir, log2, r);
            lemma_filework_wrote(b.dir, start, op, b2.dir, log2, r);
        }
        lemma_filework_trans(b.dir, log, b.dir, start, b2.dir, log2);
    }
}

/// Writing the memory down is a matter of files and locks only.
pub proof fn lemma_filework_saved(
    mem: MemoryModel,
    b: BookModel,
    log: Seq<Op>,
    t: TopologyModel,
    dev: Seq<char>,
    pass_at: u64,
    dry_run: bool,
    mem2: MemoryModel,
    b2: BookModel,
    log2: Seq<Op>,
)
    requires
        memory_saved(mem, b, log, t, dev, pass_at, dry_run, mem2, b2, log2),
    ensures
        filework(b.dir, log, b2.dir, log2),
{
    lemma_filework_same(b.dir, log);
    if !(dry_run || !(mem.loaded.contains(dev) || mem.carried.contains_key(dev))) {
        let ports = mem.ports(dev);
        let keys = sorted_texts(memory_lines(t.links, ports, Some(pass_at)));
        let rows = sorted_texts(memory_lines(t.links, ports, None));
        let (bl, ll, lb) = choose|bl: BookModel, ll: Seq<Op>, lb: Seq<Op>|
            {
                &&& #[trigger] lock_asked(b, log, dev, bl, ll)
                &&& #[trigger] memory_settled(mem, bl, ll, dev, rows, keys, mem2, b2, lb)
                &&& log2 == lb.push(Op::Unlock { dev })
            };
        lemma_filework_one(b.dir, log, ll.last());
        lemma_filework_settled(mem, bl, ll, dev, rows, keys, mem2, b2, lb);
        lemma_filework_trans(b.dir, log, bl.dir, ll, b2.dir, lb);
        lemma_filework_one(b2.dir, lb, Op::Unlock { dev });
        lemma_filework_trans(b.dir, log, b2.dir, lb, b2.dir, log2);
    }
}

/// An uplink's memory once a pass has been over it: what the dump found learnt
/// was heard of just now, what it did not find keeps its stamp, and only what
/// is owned is remembered.
pub open spec fn passed_over(
    ports: PortsModel,
    learnt: Map<Mac, u32>,
    at: u64,
    owned: Set<Mac>,
) -> PortsModel {
    Map::new(
        |m: Mac| owned.contains(m) && (ports.contains_key(m) || learnt.contains_key(m)),
        |m: Mac|
            if learnt.contains_key(m) {
                (
                    learnt[m],
                    if ports.contains_key(m) && ports[m].1 >= at {
                        ports[m].1
                    } else {
                        at
                    },
                )
            } else {
                ports[m]
            },
    )
}

/// A memory in which these addresses have been heard of behind these ports.
pub open spec fn heard(ports: PortsModel, learnt: Map<Mac, u32>, at: u64) -> PortsModel {
    Map::new(
        |m: Mac| ports.contains_key(m) || learnt.contains_key(m),
        |m: Mac|
            if learnt.contains_key(m) {
                (
                    learnt[m],
                    if ports.contains_key(m) && ports[m].1 >= at {
                        ports[m].1
                    } else {
                        at
                    },
                )
            } else {
                ports[m]
            },
    )
}

/// One uplink's memory with the date of a silence put on an address.
pub open spec fn dated_for(
    carried: Map<Seq<char>, PortsModel>,
    t: TopologyModel,
    pairs: Seq<PairModel>,
    master: u32,
    mac: Mac,
    spoke: u64,
) -> Map<Seq<char>, PortsModel>
    decreases pairs.len(),
{
    if pairs.len() == 0 {
        carried
    } else {
        let c = dated_for(carried, t, pairs.drop_last(), master, mac, spoke);
        let p = pairs.last();
        if t.names.contains_key(p.bridge) && reaches(
            edges(t.links, Way::Down),
            master,
            t.names[p.bridge],
        ) && c.contains_key(p.dev) {
            c.insert(p.dev, seen_at(c[p.dev], mac, None, spoke))
        } else {
            c
        }
    }
}

/// The date that one notification puts on a silence: a bridge that forgets an
/// address now last heard of it one ageing time ago. Only the uplinks that
/// this bridge serves are dated.
pub open spec fn dated_by(
    carried: Map<Seq<char>, PortsModel>,
    t: TopologyModel,
    pairs: Seq<PairModel>,
    event: (u16, FdbEntry),
    now: u64,
) -> Map<Seq<char>, PortsModel> {
    let e = event.1;
    if event.0 != RTM_DELNEIGH {
        carried
    } else {
        match e.master {
            Some(m) => if t.links.contains_key(m) && t.links[m].ageing_ms is Some {
                dated_for(
                    carried,
                    t,
                    pairs,
                    m,
                    e.mac,
                    less(now as nat, t.links[m].ageing_ms->0 as nat) as u64,
                )
            } else {
                carried
            },
            None => carried,
        }
    }
}

/// The dates that a batch of notifications puts on silences.
pub open spec fn dated(
    carried: Map<Seq<char>, PortsModel>,
    t: TopologyModel,
    pairs: Seq<PairModel>,
    events: Seq<(u16, FdbEntry)>,
    now: u64,
) -> Map<Seq<char>, PortsModel>
    decreases events.len(),
{
    if events.len() == 0 {
        carried
    } else {
        dated_by(dated(carried, t, pairs, events.drop_last(), now), t, pairs, events.last(), now)
    }
}

/// Dating silences moves no stamp backwards, and records no address that was
/// not remembered.
pub proof fn dating_only_moves_forward(
    carried: Map<Seq<char>, PortsModel>,
    t: TopologyModel,
    pairs: Seq<PairModel>,
    events: Seq<(u16, FdbEntry)>,
    now: u64,
)
    ensures
        dated(carried, t, pairs, events, now).dom() == carried.dom(),
        forall|dev: Seq<char>| #[trigger]
            carried.contains_key(dev) ==> no_older(
                carried[dev],
                dated(carried, t, pairs, events, now)[dev],
            ) && dated(carried, t, pairs, events, now)[dev].dom() == carried[dev].dom(),
    decreases events.len(),
{
    if events.len() > 0 {
        let c = dated(carried, t, pairs, events.drop_last(), now);
        dating_only_moves_forward(carried, t, pairs, events.drop_last(), now);
        let e = events.last().1;
        if let Some(m) = e.master {
            if events.last().0 == RTM_DELNEIGH && t.links.contains_key(m)
                && t.links[m].ageing_ms is Some {
                let spoke = less(now as nat, t.links[m].ageing_ms->0 as nat) as u64;
                lemma_dated_for(c, t, pairs, m, e.mac, spoke);
            }
        }
    }
}

proof fn lemma_dated_for(
    carried: Map<Seq<char>, PortsModel>,
    t: TopologyModel,
    pairs: Seq<PairModel>,
    master: u32,
    mac: Mac,
    spoke: u64,
)
    ensures
        dated_for(carried, t, pairs, master, mac, spoke).dom() == carried.dom(),
        forall|dev: Seq<char>| #[trigger]
            carried.contains_key(dev) ==> no_older(
                carried[dev],
                dated_for(carried, t, pairs, master, mac, spoke)[dev],
            ) && dated_for(carried, t, pairs, master, mac, spoke)[dev].dom()
                == carried[dev].dom(),
    decreases pairs.len(),
{
    if pairs.len() > 0 {
        let c = dated_for(carried, t, pairs.drop_last(), master, mac, spoke);
        lemma_dated_for(carried, t, pairs.drop_last(), master, mac, spoke);
        let p = pairs.last();
        if c.contains_key(p.dev) {
            stamps_only_move_forward(c[p.dev], mac, None, spoke);
            deletion_records_no_address(c[p.dev], mac, spoke);
            assert(c.insert(p.dev, seen_at(c[p.dev], mac, None, spoke)).dom() =~= c.dom());
        }
    }
}

/// How long an address has been silent.
pub open spec fn silence(mem: MemoryModel, dev: Seq<char>, m: Mac, now: u64) -> u64 {
    less(now as nat, mem.stamp(dev, m) as nat) as u64
}

impl PortMemory {
    /// Nothing remembered yet.
    pub fn new() -> (r: Self)
        ensures
            r@.carried == Map::<Seq<char>, PortsModel>::empty(),
            r@.loaded == Set::<Seq<char>>::empty(),
            r@.written == Map::<Seq<char>, Seq<Seq<char>>>::empty(),
    {
        let r = PortMemory {
            carried: KeyMap::new(),
            loaded: KeySet::new(),
            written: KeyMap::new(),
        };
        assert(r@.carried =~= Map::empty());
        assert(r@.written =~= Map::empty());
        r
    }

    /// Takes the memory of an uplink out, an empty one when there is none.
    fn take(&mut self, dev: &String) -> (r: Ports)
        ensures
            r@ == old(self)@.ports(dev@),
            final(self)@ == (MemoryModel {
                carried: old(self)@.carried.remove(dev@),
                ..old(self)@
            }),
    {
        let r = match self.carried.remove(dev) {
            Some(p) => p,
            None => KeyMap::new(),
        };
        assert(self@.carried =~= old(self)@.carried.remove(dev@));
        r
    }

    /// Gives an uplink a memory.
    fn give(&mut self, dev: &String, ports: Ports)
        ensures
            final(self)@ == (MemoryModel {
                carried: old(self)@.carried.insert(dev@, ports@),
                ..old(self)@
            }),
    {
        self.carried.insert(dev.clone(), ports);
        assert(self@.carried =~= old(self)@.carried.insert(dev@, ports@));
    }

    /// Takes the previous process's quiet memory, once per uplink per run. It
    /// is believed only where it still describes this kernel: a line counts
    /// when its port still exists and still carries the recorded index.
    pub fn load_ports<W: FdbWriter>(
        &mut self,
        book: &mut Notebook,
        sock: &mut Recorded<W>,
        dev: &String,
        topo: &Topology,
    )
        ensures
            final(sock).marks() == old(sock).marks(),
            memory_loaded(
                old(self)@,
                old(book)@,
                old(sock).log(),
                topo@,
                dev@,
                final(self)@,
                final(book)@,
                final(sock).log(),
            ),
    {
        if !self.loaded.insert(dev.clone()) {
            assert(self@.loaded =~= old(self)@.loaded);
            return;
        }
        if self.carried.contains_key(dev) {
            return;
        }
        let ghost log = sock.log();
        let now: u64 = sock.now().boot_millis;
        let ghost clock = sock.log().last();
        let read = book.read_ports(sock, dev);
        assert(sock.log()[log.len() as int] == clock);
        let ghost xs = memory_list(read@);
        let mut ours: Vec<Remembered> = Vec::new();
        let mut top: u64 = 0;
        let mut i: usize = 0;
        assert(xs.take(0) =~= Seq::empty());
        assert(memory_list(ours@) =~= Seq::empty());
        while i < read.len()
            invariant
                xs == memory_list(read@),
                i <= read@.len(),
                memory_list(ours@) == believed_lines(topo@, xs.take(i as int)),
                top == latest(memory_list(ours@)),
            decreases read@.len() - i,
        {
            let x = &read[i];
            let ghost ours0 = ours@;
            proof {
                let next = xs.take(i + 1);
                assert(next.drop_last() =~= xs.take(i as int));
                assert(next.last() == x@);
            }
            if topo.index_of(&x.name) == Some(x.index) {
                let y = Remembered { mac: x.mac, name: x.name.clone(), index: x.index, seen: x.seen };
                proof {
                    assert(memory_list(ours0.push(y)) =~= memory_list(ours0).push(x@));
                    assert(memory_list(ours0).push(x@).drop_last() =~= memory_list(ours0));
                }
                ours.push(y);
                if x.seen >= top {
                    top = x.seen;
                }
            }
            i += 1;
        }
        assert(xs.take(i as int) =~= xs);
        let ahead: u64 = if top >= now {
            top - now
        } else {
            0
        };
        let ghost all = memory_list(ours@);
        let mut ports: Ports = KeyMap::new();
        let mut k: usize = 0;
        assert(all.take(0) =~= Seq::empty());
        while k < ours.len()
            invariant
                all == memory_list(ours@),
                k <= ours@.len(),
                ports@ == ports_from(all.take(k as int), ahead as nat),
            decreases ours@.len() - k,
        {
            let x = &ours[k];
            proof {
                let next = all.take(k + 1);
                assert(next.drop_last() =~= all.take(k as int));
                assert(next.last() == x@);
            }
            let seen: u64 = if x.seen >= ahead {
                x.seen - ahead
            } else {
                0
            };
            ports.insert(x.mac, (x.index, seen));
            k += 1;
        }
        assert(all.take(k as int) =~= all);
        if ports.is_empty() {
            return;
        }
        let entries = ports.list();
        let ghost ks = entry_models(entries@);
        let mut newest: u64 = 0;
        let mut n: usize = 0;
        let ghost mut who: Mac = ks[0];
        proof {
            if entries@.len() == 0 {
                assert(ports@ =~= Map::empty());
            }
        }
        while n < entries.len()
            invariant
                ks == entry_models(entries@),
                ks.no_duplicates(),
                entry_map(entries@) == ports@,
                entries@.len() > 0,
                n <= entries@.len(),
                n > 0 ==> ports@.contains_key(who) && ports@[who].1 == newest,
                forall|j: int| 0 <= j < n ==> ports@[#[trigger] ks[j]].1 <= newest,
            decreases entries@.len() - n,
        {
            proof {
                lemma_entry(entries@, n as int);
                assert(ks[n as int] == entries@[n as int].0);
            }
            let seen = entries[n].1.1;
            if n == 0 || seen >= newest {
                newest = seen;
                proof {
                    who = ks[n as int];
                }
            }
            n += 1;
        }
        proof {
            assert forall|m: Mac| #[trigger] ports@.contains_key(m) implies ports@[m].1
                <= newest by {
                assert(ks.contains(m));
                let j = choose|j: int| 0 <= j < ks.len() && ks[j] == m;
                assert(ports@[ks[j]].1 <= newest);
            }
            assert(is_latest(ports@, newest));
        }
        let keys = lines_of(topo, &ports, Some(newest));
        self.give(dev, ports);
        self.written.insert(dev.clone(), keys);
        assert(self@.written =~= old(self)@.written.insert(dev@, texts(keys@)));
    }

    /// Writes the quiet memory down for whoever runs next, when it changed.
    /// Stamps move every pass and are not what a rewrite is for: which
    /// addresses, behind which port, and whether they are quiet since
    /// `pass_at`, is.
    pub fn save_ports<W: FdbWriter>(
        &mut self,
        book: &mut Notebook,
        sock: &mut Recorded<W>,
        dev: &String,
        topo: &Topology,
        pass_at: u64,
        dry_run: bool,
    )
        ensures
            final(sock).marks() == old(sock).marks(),
            memory_saved(
                old(self)@,
                old(book)@,
                old(sock).log(),
                topo@,
                dev@,
                pass_at,
                dry_run,
                final(self)@,
                final(book)@,
                final(sock).log(),
            ),
    {
        if dry_run {
            return;
        }
        if !self.loaded.contains(dev) && !self.carried.contains_key(dev) {
            return;
        }
        let empty: Ports = KeyMap::new();
        let ports: &Ports = match self.carried.get(dev) {
            Some(p) => p,
            None => &empty,
        };
        assert(ports@ == self@.ports(dev@));
        let rows = lines_of(topo, ports, None);
        let keys = lines_of(topo, ports, Some(pass_at));
        let known = match self.written.get(dev) {
            Some(w) => same_lines(w, &keys),
            None => false,
        };
        book.locked(sock, dev);
        let ghost bl = book@;
        let ghost ll = sock.log();
        assert(lock_asked(old(book)@, old(sock).log(), dev@, bl, ll));
        let none = rows.len() == 0;
        let skip = known && book.has_ports(sock, dev) != none;
        let ghost la = sock.log();
        let ghost mem = self@;
        if skip {
            assert(memory_settled(mem, bl, ll, dev@, texts(rows@), texts(keys@), self@, book@, la));
            sock.unlock(dev);
            return;
        }
        let done = if none {
            book.remove_ports(sock, dev)
        } else {
            book.write_ports(sock, dev, &rows)
        };
        let ghost ks = texts(keys@);
        if done {
            self.written.insert(dev.clone(), keys);
            assert(self@.written =~= mem.written.insert(dev@, ks));
        } else {
            let _ = self.written.remove(dev);
            assert(self@.written =~= mem.written.remove(dev@));
        }
        let ghost lb = sock.log();
        proof {
            assert(texts(rows@).len() == rows@.len());
            if none {
                assert(ports_removed(bl, la, dev@, book@, lb, done));
            } else {
                assert(wrote(
                    bl.dir,
                    la,
                    Op::Put {
                        name: ports_name(dev@),
                        text: memory_text(texts(rows@)),
                        refused: None,
                    },
                    book@.dir,
                    lb,
                    done,
                ));
            }
            assert(memory_written(mem, bl, la, dev@, texts(rows@), ks, self@, book@, lb));
            if known {
                assert(lb[ll.len() as int] == la.last()) by {
                    if !none {
                        assert(lb.take(la.len() as int) == la);
                        assert(lb.take(la.len() as int)[ll.len() as int] == la[ll.len() as int]);
                    }
                }
            }
            assert(memory_settled(mem, bl, ll, dev@, texts(rows@), ks, self@, book@, lb));
        }
        sock.unlock(dev);
    }

    /// Brings the memory of an uplink up to date with a pass.
    pub fn pass_over(
        &mut self,
        dev: &String,
        learnt: &KeyMap<Mac, u32>,
        at: u64,
        owned: &KeySet<Mac>,
    )
        ensures
            final(self)@ == (MemoryModel {
                carried: old(self)@.carried.insert(
                    dev@,
                    passed_over(old(self)@.ports(dev@), learnt@, at, owned@),
                ),
                ..old(self)@
            }),
    {
        let was = self.take(dev);
        let mut now: Ports = KeyMap::new();
        let ghost want = passed_over(was@, learnt@, at, owned@);
        let list = owned.list();
        proof {
            lemma_mac_models(list@);
        }
        let mut i: usize = 0;
        while i < list.len()
            invariant
                i <= list@.len(),
                want == passed_over(was@, learnt@, at, owned@),
                forall|m: Mac| #[trigger]
                    now@.contains_key(m) <==> list@.take(i as int).contains(m) && (
                    was@.contains_key(m) || learnt@.contains_key(m)),
                forall|m: Mac| #[trigger]
                    now@.contains_key(m) ==> now@[m] == if learnt@.contains_key(m) {
                        (
                            learnt@[m],
                            if was@.contains_key(m) && was@[m].1 >= at {
                                was@[m].1
                            } else {
                                at
                            },
                        )
                    } else {
                        was@[m]
                    },
            decreases list@.len() - i,
        {
            let m = list[i];
            proof {
                assert(list@.take(i + 1) =~= list@.take(i as int).push(m));
                lemma_push_contains(list@.take(i as int), m);
            }
            if let Some(slot) = was.get(&m) {
                now.insert(m, *slot);
            }
            if let Some(p) = learnt.get(&m) {
                note_seen(&mut now, m, Some(*p), at);
            }
            i += 1;
        }
        proof {
            assert(list@.take(i as int) =~= list@);
            assert forall|m: Mac| list@.contains(m) <==> owned@.contains(m) by {
                assert(list@.to_set().contains(m) <==> list@.contains(m));
            }
            assert(now@ =~= want);
        }
        self.give(dev, now);
        assert(self@.carried =~= old(self)@.carried.insert(dev@, want));
    }

    /// Records that these addresses have just been heard of behind these ports.
    pub fn hear(&mut self, dev: &String, learnt: &KeyMap<Mac, u32>, at: u64)
        ensures
            final(self)@ == (MemoryModel {
                carried: old(self)@.carried.insert(
                    dev@,
                    heard(old(self)@.ports(dev@), learnt@, at),
                ),
                ..old(self)@
            }),
    {
        let mut ports = self.take(dev);
        let ghost was = ports@;
        let list = learnt.list();
        let ghost ks = entry_models(list@);
        let mut i: usize = 0;
        while i < list.len()
            invariant
                ks == entry_models(list@),
                ks.no_duplicates(),
                entry_map(list@) == learnt@,
                i <= list@.len(),
                forall|m: Mac| #[trigger]
                    ports@.contains_key(m) <==> was.contains_key(m) || ks.take(i as int).contains(
                        m,
                    ),
                forall|m: Mac| #[trigger]
                    ports@.contains_key(m) ==> ports@[m] == if ks.take(i as int).contains(m) {
                        (
                            learnt@[m],
                            if was.contains_key(m) && was[m].1 >= at {
                                was[m].1
                            } else {
                                at
                            },
                        )
                    } else {
                        was[m]
                    },
            decreases list@.len() - i,
        {
            let m = list[i].0;
            proof {
                lemma_entry(list@, i as int);
                assert(ks.take(i + 1) =~= ks.take(i as int).push(m));
                lemma_push_contains(ks.take(i as int), m);
                assert(!ks.take(i as int).contains(m)) by {
                    if ks.take(i as int).contains(m) {
                        let j = choose|j: int| 0 <= j < i && ks.take(i as int)[j] == m;
                        assert(ks[j] == ks[i as int]);
                    }
                }
            }
            note_seen(&mut ports, m, Some(list[i].1), at);
            i += 1;
        }
        proof {
            assert(ks.take(i as int) =~= ks);
            lemma_entry_dom(list@);
            assert(ports@ =~= heard(was, learnt@, at));
        }
        self.give(dev, ports);
        assert(self@.carried =~= old(self)@.carried.insert(dev@, heard(was, learnt@, at)));
    }

    /// Carries the memory of an uplink over to its new name. What is known of
    /// the files does not follow: the old one went with the note, and there is
    /// none under the new name yet.
    pub fn rename(&mut self, from: &String, to: &String)
        ensures
            final(self)@ == (MemoryModel {
                carried: carried_entry(old(self)@.carried, from@, to@),
                loaded: if old(self)@.carried.contains_key(from@) {
                    old(self)@.loaded.insert(to@).remove(from@)
                } else {
                    old(self)@.loaded.remove(from@)
                },
                written: old(self)@.written.remove(from@).remove(to@),
            }),
    {
        if self.carried.contains_key(from) {
            let ports = self.take(from);
            self.give(to, ports);
            let _ = self.loaded.insert(to.clone());
        }
        let _ = self.loaded.remove(from);
        let _ = self.written.remove(from);
        let _ = self.written.remove(to);
        assert(self@.carried =~= carried_entry(old(self)@.carried, from@, to@));
        assert(self@.written =~= old(self)@.written.remove(from@).remove(to@));
    }

    /// Forgets an uplink altogether: one that returns records afresh.
    pub fn forget(&mut self, dev: &String)
        ensures
            final(self)@ == (MemoryModel {
                carried: old(self)@.carried.remove(dev@),
                loaded: old(self)@.loaded.remove(dev@),
                written: old(self)@.written.remove(dev@),
            }),
    {
        let _ = self.carried.remove(dev);
        let _ = self.loaded.remove(dev);
        let _ = self.written.remove(dev);
        assert(self@.carried =~= old(self)@.carried.remove(dev@));
        assert(self@.written =~= old(self)@.written.remove(dev@));
    }

    /// Puts a date on a silence a bridge has just announced: a deletion
    /// arriving now says that the guest last spoke one ageing time ago.
    pub fn date_the_silence(
        &mut self,
        pairs: &Vec<Pair>,
        topo: &Topology,
        events: &Vec<(u16, FdbEntry)>,
        now: u64,
    )
        ensures
            final(self)@ == (MemoryModel {
                carried: dated(old(self)@.carried, topo@, pair_list(pairs@), events@, now),
                ..old(self)@
            }),
    {
        let ghost t = topo@;
        let ghost ps = pair_list(pairs@);
        let ghost start = self@;
        let mut i: usize = 0;
        assert(events@.take(0) =~= Seq::empty());
        while i < events.len()
            invariant
                t == topo@,
                ps == pair_list(pairs@),
                i <= events@.len(),
                self@ == (MemoryModel {
                    carried: dated(start.carried, t, ps, events@.take(i as int), now),
                    ..start
                }),
            decreases events@.len() - i,
        {
            let (kind, entry) = events[i];
            proof {
                let next = events@.take(i + 1);
                assert(next.drop_last() =~= events@.take(i as int));
                assert(next.last() == events@[i as int]);
            }
            if kind == RTM_DELNEIGH {
                if let Some(master) = entry.master {
                    let ageing = match topo.at(master) {
                        Some(l) => l.ageing_ms,
                        None => None,
                    };
                    if let Some(a) = ageing {
                        let spoke: u64 = if now >= a {
                            now - a
                        } else {
                            0
                        };
                        self.date_for(pairs, topo, master, entry.mac, spoke);
                    }
                }
            }
            i += 1;
        }
        assert(events@.take(i as int) =~= events@);
    }

    fn date_for(
        &mut self,
        pairs: &Vec<Pair>,
        topo: &Topology,
        master: u32,
        mac: Mac,
        spoke: u64,
    )
        ensures
            final(self)@ == (MemoryModel {
                carried: dated_for(
                    old(self)@.carried,
                    topo@,
                    pair_list(pairs@),
                    master,
                    mac,
                    spoke,
                ),
                ..old(self)@
            }),
    {
        let ghost t = topo@;
        let ghost ps = pair_list(pairs@);
        let ghost start = self@;
        let mut i: usize = 0;
        assert(ps.take(0) =~= Seq::empty());
        while i < pairs.len()
            invariant
                t == topo@,
                ps == pair_list(pairs@),
                i <= pairs@.len(),
                self@ == (MemoryModel {
                    carried: dated_for(start.carried, t, ps.take(i as int), master, mac, spoke),
                    ..start
                }),
            decreases pairs@.len() - i,
        {
            let p = &pairs[i];
            let ghost c = self@.carried;
            proof {
                let next = ps.take(i + 1);
                assert(next.drop_last() =~= ps.take(i as int));
                assert(next.last() == p@);
            }
            let serves = match topo.index_of(&p.bridge) {
                Some(b) => topo.leads_to(master, b),
                None => false,
            };
            if serves && self.carried.contains_key(&p.dev) {
                let mut ports = self.take(&p.dev);
                note_seen(&mut ports, mac, None, spoke);
                self.give(&p.dev, ports);
                assert(self@.carried =~= c.insert(
                    p.dev@,
                    seen_at(c[p.dev@], mac, None, spoke),
                ));
            }
            i += 1;
        }
        assert(ps.take(i as int) =~= ps);
    }

    /// How long each of these has been silent, in milliseconds. An address
    /// never seen learnt counts as silent since boot.
    pub fn silence_of(&self, dev: &String, macs: &KeySet<Mac>, now: u64) -> (r: Vec<(Mac, u64)>)
        ensures
            r@.map_values(|x: (Mac, u64)| x.0).no_duplicates(),
            r@.map_values(|x: (Mac, u64)| x.0).to_set() == macs@,
            forall|i: int|
                0 <= i < r@.len() ==> (#[trigger] r@[i]).1 == silence(self@, dev@, r@[i].0, now),
    {
        let list = macs.list();
        proof {
            lemma_mac_models(list@);
        }
        let mut out: Vec<(Mac, u64)> = Vec::new();
        let ports = self.carried.get(dev);
        let mut i: usize = 0;
        while i < list.len()
            invariant
                i <= list@.len(),
                out@.len() == i,
                match ports {
                    Some(p) => self@.ports(dev@) == p@,
                    None => self@.ports(dev@) == Map::<Mac, (u32, u64)>::empty(),
                },
                forall|j: int| 0 <= j < i ==> (#[trigger] out@[j]).0 == list@[j],
                forall|j: int|
                    0 <= j < i ==> (#[trigger] out@[j]).1 == silence(self@, dev@, out@[j].0, now),
            decreases list@.len() - i,
        {
            let m = list[i];
            let seen: u64 = match ports {
                Some(p) => match p.get(&m) {
                    Some(slot) => slot.1,
                    None => 0,
                },
                None => 0,
            };
            let s: u64 = if now >= seen {
                now - seen
            } else {
                0
            };
            out.push((m, s));
            i += 1;
        }
        assert(out@.map_values(|x: (Mac, u64)| x.0) =~= list@);
        out
    }

    /// Forgets these addresses for an uplink.
    pub fn evict(&mut self, dev: &String, macs: &Vec<Mac>)
        ensures
            final(self)@ == (MemoryModel {
                carried: if old(self)@.carried.contains_key(dev@) {
                    old(self)@.carried.insert(
                        dev@,
                        old(self)@.carried[dev@].remove_keys(macs@.to_set()),
                    )
                } else {
                    old(self)@.carried
                },
                ..old(self)@
            }),
    {
        if !self.carried.contains_key(dev) {
            return;
        }
        let mut ports = self.take(dev);
        let ghost before = ports@;
        let mut i: usize = 0;
        assert(macs@.take(0).to_set() =~= Set::empty());
        assert(ports@ =~= before.remove_keys(macs@.take(0).to_set()));
        while i < macs.len()
            invariant
                i <= macs@.len(),
                ports@ == before.remove_keys(macs@.take(i as int).to_set()),
            decreases macs@.len() - i,
        {
            let _ = ports.remove(&macs[i]);
            proof {
                assert(macs@.take(i + 1) =~= macs@.take(i as int).push(macs@[i as int]));
                lemma_push_contains(macs@.take(i as int), macs@[i as int]);
                assert(ports@ =~= before.remove_keys(macs@.take(i + 1).to_set()));
            }
            i += 1;
        }
        assert(macs@.take(i as int) =~= macs@);
        self.give(dev, ports);
        assert(self@.carried =~= old(self)@.carried.insert(
            dev@,
            old(self)@.carried[dev@].remove_keys(macs@.to_set()),
        ));
    }
}

/// Whether two lists hold the same lines.
fn same_lines(a: &Vec<String>, b: &Vec<String>) -> (r: bool)
    ensures
        r == (texts(a@) == texts(b@)),
{
    if a.len() != b.len() {
        assert(texts(a@).len() != texts(b@).len());
        return false;
    }
    let mut i: usize = 0;
    while i < a.len()
        invariant
            a@.len() == b@.len(),
            i <= a@.len(),
            forall|j: int| 0 <= j < i ==> texts(a@)[j] == texts(b@)[j],
        decreases a@.len() - i,
    {
        if a[i] != b[i] {
            assert(texts(a@)[i as int] != texts(b@)[i as int]);
            return false;
        }
        i += 1;
    }
    assert(texts(a@) =~= texts(b@));
    true
}

} // verus!
