//! The syncer's state, and the small questions it answers from it.

use vstd::prelude::*;

use crate::keyed::{entry_map, entry_models, lemma_entry, lemma_mac_models, KeyMap, KeySet};
use crate::mac::{all_zero, is_zero, Mac};
use crate::netlink::{FdbWriter, Meta, Recorded, Wall};
use crate::sync::journal::{say_unknown, unknown_text};
use crate::sync::memory::{MemoryModel, PortMemory};
use crate::sync::notes::{
    notes_counted, owned_in, probe_forgotten, probe_noted, BookModel, Notebook,
};
use crate::sync::said::{mac_sets, Marks};
use crate::sync::timings::{no_findings, Findings, Timings};
use crate::sync::types::{pair_list, Carried, CarriedModel, Pair, PairModel};
use crate::topology::{carrier, functions_of, holds_index, Topology, TopologyModel};
use crate::topology::detect::texts;

verus! {

/// What a vport list holds - the assumption where neither the operator nor the
/// card says otherwise.
pub const DEFAULT_MAX_MACS: usize = 128;

/// Slots left free below the limit: an allowance for counting drift, not a
/// working reserve.
pub const CAPACITY_HEADROOM: usize = 4;

/// The virtual functions' addresses, remembered together with the physical
/// functions they were read for.
pub type CarriedVf = (Vec<u32>, Vec<(u32, Mac)>);

/// Decides which addresses belong in each uplink's filter, and puts them there.
pub struct Syncer {
    pub pairs: Vec<Pair>,
    pub exclude: KeySet<Mac>,
    /// addresses to register whether or not a bridge has learnt them
    pub extra: KeySet<Mac>,
    pub dry_run: bool,
    /// Whether each pass also builds the per-address half of its report.
    pub detail: bool,
    /// Whether the pair list is the whole picture: only something that knows
    /// every uplink may declare a note an orphan.
    pub authoritative: bool,
    /// The ownership notes, and everything said once per device.
    pub book: Notebook,
    /// Behind which port each owned address was last learnt, and when.
    pub memory: PortMemory,
    /// What the most recent pass cost.
    pub timings: Timings,
    /// The virtual functions' addresses from the last pass. A pass that no link
    /// message preceded works from these instead of asking the driver again.
    pub carried_vf: Option<CarriedVf>,
    /// Whether the carried answer can no longer be believed.
    pub vf_stale: bool,
    /// How long a device must be absent from the pair list before its note
    /// counts as an orphan, in nanoseconds.
    pub orphan_grace: u64,
    /// When each noted device was first seen to be missing, in nanoseconds.
    pub absent_since: KeyMap<String, u64>,
    /// Which addresses the last pass saw on the wire, per uplink.
    pub carried_wire: KeyMap<String, KeySet<Mac>>,
    /// The filter capacity for any card that did not report a number.
    pub max_macs: usize,
    /// Which interface holds the filter an uplink writes into, where that is
    /// not the uplink itself.
    pub karte_von: KeyMap<String, String>,
    /// What single cards reported, by the interface holding the filter.
    pub max_macs_je_karte: KeyMap<String, usize>,
    /// Set by the event path when a learn named a port or a bridge the picture
    /// does not know: the picture is old.
    pub disputed: bool,
    /// Whether the last capacity question reached every configured device and
    /// got an answer.
    pub capacity_settled: bool,
    /// What the last pass measured about each uplink's filter.
    pub carried: KeyMap<String, Carried>,
    /// The stamp the last pass wrote.
    pub last_pass_at: u64,
    /// How long a pass spent asking the driver afresh, in nanoseconds.
    pub asking: u64,
}

/// What a `Syncer` holds.
pub struct SyncerModel {
    pub pairs: Seq<PairModel>,
    pub exclude: Set<Mac>,
    pub extra: Set<Mac>,
    pub dry_run: bool,
    pub detail: bool,
    pub authoritative: bool,
    pub book: BookModel,
    pub memory: MemoryModel,
    pub timings: Findings,
    pub carried_vf: Option<(Seq<u32>, Seq<(u32, Mac)>)>,
    pub vf_stale: bool,
    pub orphan_grace: u64,
    pub absent_since: Map<Seq<char>, u64>,
    pub carried_wire: Map<Seq<char>, Set<Mac>>,
    pub max_macs: usize,
    pub karte_von: Map<Seq<char>, Seq<char>>,
    pub max_macs_je_karte: Map<Seq<char>, usize>,
    pub disputed: bool,
    pub capacity_settled: bool,
    pub carried: Map<Seq<char>, CarriedModel>,
    pub last_pass_at: u64,
}

/// Whether what passes cost is the same.
pub open spec fn same_cost(a: Syncer, b: Syncer) -> bool {
    b.asking == a.asking && b.timings == a.timings
}

/// What was carried about each filter.
pub open spec fn carried_models(m: Map<Seq<char>, Carried>) -> Map<Seq<char>, CarriedModel> {
    m.map_values(|c: Carried| c@)
}

/// The names in a map.
pub open spec fn name_map(m: Map<Seq<char>, String>) -> Map<Seq<char>, Seq<char>> {
    m.map_values(|s: String| s@)
}

/// What a carried answer says.
pub open spec fn vf_model(v: Option<CarriedVf>) -> Option<(Seq<u32>, Seq<(u32, Mac)>)> {
    match v {
        Some((pfs, macs)) => Some((pfs@, macs@)),
        None => None,
    }
}

impl View for Syncer {
    type V = SyncerModel;

    open spec fn view(&self) -> SyncerModel {
        SyncerModel {
            pairs: pair_list(self.pairs@),
            exclude: self.exclude@,
            extra: self.extra@,
            dry_run: self.dry_run,
            detail: self.detail,
            authoritative: self.authoritative,
            book: self.book@,
            memory: self.memory@,
            timings: self.timings@,
            carried_vf: vf_model(self.carried_vf),
            vf_stale: self.vf_stale,
            orphan_grace: self.orphan_grace,
            absent_since: self.absent_since@,
            carried_wire: mac_sets(self.carried_wire@),
            max_macs: self.max_macs,
            karte_von: name_map(self.karte_von@),
            max_macs_je_karte: self.max_macs_je_karte@,
            disputed: self.disputed,
            capacity_settled: self.capacity_settled,
            carried: carried_models(self.carried@),
            last_pass_at: self.last_pass_at,
        }
    }
}

impl SyncerModel {
    /// The interface that holds the filter an uplink writes into.
    pub open spec fn card_of(self, dev: Seq<char>) -> Seq<char> {
        if self.karte_von.contains_key(dev) {
            self.karte_von[dev]
        } else {
            dev
        }
    }

    /// The capacity of the card an uplink writes into.
    pub open spec fn limit(self, dev: Seq<char>) -> usize {
        if self.max_macs_je_karte.contains_key(self.card_of(dev)) {
            self.max_macs_je_karte[self.card_of(dev)]
        } else {
            self.max_macs
        }
    }

    /// What the card of an uplink is known to hold.
    pub open spec fn held(self, dev: Seq<char>) -> Set<Mac> {
        if self.carried.contains_key(dev) {
            self.carried[dev].present
        } else {
            Set::empty()
        }
    }

    /// When the last pass over an uplink ran that could read its note.
    pub open spec fn passed_at(self, dev: Seq<char>) -> u64 {
        if self.carried.contains_key(dev) {
            self.carried[dev].passed_at
        } else {
            0
        }
    }

    /// The driver's answer about the virtual functions that is in force.
    pub open spec fn vf_answer(self) -> Seq<(u32, Mac)> {
        match self.carried_vf {
            Some((_, macs)) => macs,
            None => Seq::empty(),
        }
    }

    /// Whether the carried answer may be used for these very functions: it is
    /// about them, and nothing has cast doubt on it.
    pub open spec fn vf_usable(self, pfs: Seq<u32>) -> bool {
        !self.vf_stale && (self.carried_vf matches Some((for_pfs, _)) && for_pfs == pfs)
    }

    /// The same with a fresh answer from the driver.
    pub open spec fn with_answer(self, pfs: Seq<u32>, macs: Seq<(u32, Mac)>) -> SyncerModel {
        SyncerModel { carried_vf: Some((pfs, macs)), vf_stale: false, ..self }
    }

    /// The same with other marks.
    pub open spec fn with_said(self, said: Marks) -> SyncerModel {
        SyncerModel { book: BookModel { said, ..self.book }, ..self }
    }

    /// The same with one more line for the journal.
    pub open spec fn saying(self, line: Seq<char>) -> SyncerModel {
        self.with_book(self.book.saying(line))
    }

    /// The same with more lines for the journal.
    pub open spec fn saying_all(self, lines: Seq<Seq<char>>) -> SyncerModel {
        self.with_book(self.book.saying_all(lines))
    }

    /// The same with a card known to hold these too.
    pub open spec fn holding(self, dev: Seq<char>, macs: Set<Mac>) -> SyncerModel {
        let was = if self.carried.contains_key(dev) {
            self.carried[dev]
        } else {
            nothing_carried()
        };
        SyncerModel {
            carried: self.carried.insert(
                dev,
                CarriedModel { present: was.present.union(macs), ..was },
            ),
            ..self
        }
    }

    /// The same with a card known not to hold these.
    pub open spec fn not_holding(self, dev: Seq<char>, macs: Set<Mac>) -> SyncerModel {
        if self.carried.contains_key(dev) {
            let was = self.carried[dev];
            SyncerModel {
                carried: self.carried.insert(
                    dev,
                    CarriedModel {
                        present: was.present.difference(macs),
                        quiet: was.quiet.difference(macs),
                        ..was
                    },
                ),
                ..self
            }
        } else {
            self
        }
    }
}

/// What is known of a filter no pass has looked at.
pub open spec fn nothing_carried() -> CarriedModel {
    CarriedModel { present: Set::empty(), quiet: Set::empty(), passed_at: 0 }
}

/// How many entries the fullest of these filters holds.
pub open spec fn is_fullest(carried: Map<Seq<char>, CarriedModel>, n: nat) -> bool {
    &&& forall|d: Seq<char>| #[trigger] carried.contains_key(d) ==> carried[d].present.len() <= n
    &&& n == 0 || exists|d: Seq<char>| #[trigger]
        carried.contains_key(d) && carried[d].present.len() == n
}

/// Could a link message about this interface have changed the address of a
/// virtual function? Nothing when this picture does not know the interface.
pub open spec fn touches_vf(t: TopologyModel, index: u32) -> Option<bool> {
    if t.links.contains_key(index) {
        Some(t.links[index].numvfs > 0 || t.links[index].physfn is Some)
    } else {
        None
    }
}

/// Whether what a message about an interface says is worth asking the driver
/// for: one of the two pictures says so, or neither knows the interface.
pub open spec fn may_change_vf(
    before: Option<TopologyModel>,
    after: Option<TopologyModel>,
    index: u32,
) -> bool {
    let b = match before {
        Some(t) => touches_vf(t, index),
        None => None,
    };
    let a = match after {
        Some(t) => touches_vf(t, index),
        None => None,
    };
    ||| b is None && a is None
    ||| b == Some(true)
    ||| a == Some(true)
}

/// What a picture shows, if there is one.
pub open spec fn opt_model(t: Option<&Topology>) -> Option<TopologyModel> {
    match t {
        Some(x) => Some(x@),
        None => None,
    }
}

/// Could a link message about this interface have changed the address of a
/// virtual function? `None` when this picture does not know the interface.
///
/// Asking the driver is the most expensive thing a pass does, and the answer
/// changes only when somebody sets such an address - not when a container's
/// interface appears, which is what link messages mostly are.
pub fn touches_virtual_functions(topo: &Topology, index: u32) -> (r: Option<bool>)
    ensures
        r == touches_vf(topo@, index),
{
    match topo.at(index) {
        Some(link) => Some(link.numvfs > 0 || link.physfn.is_some()),
        None => None,
    }
}

/// The same question for a batch, against the old and the new picture. Both: an
/// interface that has just gone is not in the new picture. An interface neither
/// picture knows is a reason to ask.
pub fn vf_may_have_changed(
    before: Option<&Topology>,
    after: Option<&Topology>,
    changed: &Vec<u32>,
) -> (r: bool)
    ensures
        r == exists|i: int|
            0 <= i < changed@.len() && may_change_vf(
                opt_model(before),
                opt_model(after),
                #[trigger] changed@[i],
            ),
{
    let mut i: usize = 0;
    while i < changed.len()
        invariant
            i <= changed@.len(),
            forall|j: int|
                0 <= j < i ==> !may_change_vf(
                    opt_model(before),
                    opt_model(after),
                    #[trigger] changed@[j],
                ),
        decreases changed@.len() - i,
    {
        let x = changed[i];
        let b = match before {
            Some(t) => touches_virtual_functions(t, x),
            None => None,
        };
        let a = match after {
            Some(t) => touches_virtual_functions(t, x),
            None => None,
        };
        let worth = match (b, a) {
            (None, None) => true,
            (Some(p), Some(q)) => p || q,
            (Some(p), None) => p,
            (None, Some(q)) => q,
        };
        if worth {
            assert(may_change_vf(opt_model(before), opt_model(after), changed@[i as int]));
            return true;
        }
        i += 1;
    }
    false
}

/// How many of these addresses, reported for one of these functions, somebody
/// has set: an address of all zeroes is the driver saying "nobody did".
pub open spec fn named_vfs(functions: Set<u32>, vf: Seq<(u32, Mac)>) -> nat
    decreases vf.len(),
{
    if vf.len() == 0 {
        0
    } else {
        let (f, m) = vf.last();
        named_vfs(functions, vf.drop_last()) + if functions.contains(f) && !all_zero(m) {
            1nat
        } else {
            0nat
        }
    }
}

/// Whether a virtual function behind an uplink has an address that cannot be
/// known: nobody set it from this host, and there is no interface here either.
/// The functions' first port answers for the whole card. Nothing when the
/// uplink has no functions.
pub open spec fn has_unknowable_vf(
    t: TopologyModel,
    dev: Seq<char>,
    vf: Seq<(u32, Mac)>,
) -> Option<bool> {
    if t.names.contains_key(dev) {
        let functions = functions_of(t.links, carrier(t.links, t.names[dev]));
        if exists|f: u32| #[trigger] is_first(functions, f) && t.links.contains_key(f) {
            let f = choose|f: u32| #[trigger] is_first(functions, f) && t.links.contains_key(f);
            let here = t.links[f].vf_netdevs.len();
            let named = named_vfs(functions, vf);
            Some(t.links[f].numvfs > named && t.links[f].numvfs > here)
        } else {
            None
        }
    } else {
        None
    }
}

/// Whether `f` is the first of these.
pub open spec fn is_first(s: Set<u32>, f: u32) -> bool {
    s.contains(f) && forall|g: u32| #[trigger] s.contains(g) ==> f <= g
}

/// The marks about virtual functions whose address cannot be known.
pub open spec fn unknown_marks(
    marks: Set<Seq<char>>,
    t: TopologyModel,
    dev: Seq<char>,
    vf: Seq<(u32, Mac)>,
) -> Set<Seq<char>> {
    match has_unknowable_vf(t, dev, vf) {
        Some(true) => marks.insert(dev),
        Some(false) => marks.remove(dev),
        None => marks,
    }
}

/// The physical function that answers for the card behind an uplink.
pub open spec fn answering_function(t: TopologyModel, dev: Seq<char>) -> u32 {
    let functions = functions_of(t.links, carrier(t.links, t.names[dev]));
    choose|f: u32| #[trigger] is_first(functions, f) && t.links.contains_key(f)
}

/// What is said of virtual functions whose address cannot be known, once as long
/// as there are any.
pub open spec fn unknown_lines(
    marks: Set<Seq<char>>,
    t: TopologyModel,
    dev: Seq<char>,
    vf: Seq<(u32, Mac)>,
) -> Seq<Seq<char>> {
    if has_unknowable_vf(t, dev, vf) == Some(true) && !marks.contains(dev) {
        let pf = t.links[answering_function(t, dev)];
        let named = named_vfs(functions_of(t.links, carrier(t.links, t.names[dev])), vf);
        let known = if named > pf.vf_netdevs.len() {
            named
        } else {
            pf.vf_netdevs.len()
        };
        seq![unknown_text(dev, pf.name, (pf.numvfs - known) as nat, pf.numvfs as nat)]
    } else {
        Seq::empty()
    }
}

/// Copies a driver's answer.
pub fn copy_answer(v: &Vec<(u32, Mac)>) -> (r: Vec<(u32, Mac)>)
    ensures
        r@ == v@,
{
    let mut out: Vec<(u32, Mac)> = Vec::new();
    let mut i: usize = 0;
    while i < v.len()
        invariant
            i <= v@.len(),
            out@ == v@.take(i as int),
        decreases v@.len() - i,
    {
        out.push(v[i]);
        assert(v@.take(i + 1) =~= v@.take(i as int).push(v@[i as int]));
        i += 1;
    }
    assert(v@.take(i as int) =~= v@);
    out
}

/// Whether two lists of interfaces are the same.
fn same_indices(a: &Vec<u32>, b: &Vec<u32>) -> (r: bool)
    ensures
        r == (a@ == b@),
{
    if a.len() != b.len() {
        return false;
    }
    let mut i: usize = 0;
    while i < a.len()
        invariant
            a@.len() == b@.len(),
            i <= a@.len(),
            forall|j: int| 0 <= j < i ==> a@[j] == b@[j],
        decreases a@.len() - i,
    {
        if a[i] != b[i] {
            return false;
        }
        i += 1;
    }
    assert(a@ =~= b@);
    true
}

impl Syncer {
    /// Hands out the lines for the journal that have come up since the last time,
    /// in order.
    pub fn take_journal(&mut self) -> (r: Vec<String>)
        ensures
            same_cost(*old(self), *final(self)),
            texts(r@) == old(self)@.book.journal,
            final(self)@ == old(self)@.with_book(
                (BookModel { journal: Seq::empty(), ..old(self)@.book }),
            ),
    {
        let mut lines: Vec<String> = Vec::new();
        core::mem::swap(&mut self.book.journal, &mut lines);
        assert(self@.book.journal =~= Seq::<Seq<char>>::empty());
        lines
    }

    /// A syncer for these pairs that has seen nothing yet, with its notes in this
    /// directory.
    pub fn new(pairs: Vec<Pair>, state_dir: String) -> (r: Self)
        ensures
            r@.book.place == state_dir@,
            r@.pairs == pair_list(pairs@),
            r@.exclude == Set::<Mac>::empty(),
            r@.extra == Set::<Mac>::empty(),
            !r@.dry_run && !r@.detail && !r@.authoritative,
            r@.book.dir == Map::<Seq<char>, Option<Seq<char>>>::empty(),
            r@.book.copies == Map::<Seq<char>, (Meta, Wall)>::empty(),
            r@.book.indices == Map::<Seq<char>, u32>::empty(),
            forall|d: Seq<char>| !r@.book.said.mentions(d),
            !r@.book.dir_list_warned,
            r@.book.journal == Seq::<Seq<char>>::empty(),
            r@.memory.carried == Map::<Seq<char>, Map<Mac, (u32, u64)>>::empty(),
            r@.memory.loaded == Set::<Seq<char>>::empty(),
            r@.memory.written == Map::<Seq<char>, Seq<Seq<char>>>::empty(),
            r@.timings == no_findings(),
            r@.carried_vf is None,
            r@.vf_stale,
            r@.orphan_grace == 0,
            r@.absent_since == Map::<Seq<char>, u64>::empty(),
            r@.carried_wire == Map::<Seq<char>, Set<Mac>>::empty(),
            r@.max_macs == DEFAULT_MAX_MACS,
            r@.karte_von == Map::<Seq<char>, Seq<char>>::empty(),
            r@.max_macs_je_karte == Map::<Seq<char>, usize>::empty(),
            !r@.disputed && !r@.capacity_settled,
            r@.carried == Map::<Seq<char>, CarriedModel>::empty(),
            r@.last_pass_at == 0,
    {
        let r = Syncer {
            pairs,
            exclude: KeySet::new(),
            extra: KeySet::new(),
            dry_run: false,
            detail: false,
            authoritative: false,
            book: Notebook::new(state_dir),
            memory: PortMemory::new(),
            timings: Timings::new(),
            carried_vf: None,
            vf_stale: true,
            orphan_grace: 0,
            absent_since: KeyMap::new(),
            carried_wire: KeyMap::new(),
            max_macs: DEFAULT_MAX_MACS,
            karte_von: KeyMap::new(),
            max_macs_je_karte: KeyMap::new(),
            disputed: false,
            capacity_settled: false,
            carried: KeyMap::new(),
            last_pass_at: 0,
            asking: 0,
        };
        assert(r@.carried_wire =~= Map::empty());
        assert(r@.karte_von =~= Map::empty());
        assert(r@.carried =~= Map::empty());
        r
    }

    /// Records the driver's answer about the virtual functions, and that it is
    /// current. One function, so that the answer and "is it still true" cannot
    /// be set apart from each other.
    pub fn remember_vf(&mut self, pfs: Vec<u32>, macs: Vec<(u32, Mac)>)
        ensures
            same_cost(*old(self), *final(self)),
            final(self)@ == old(self)@.with_answer(pfs@, macs@),
    {
        self.carried_vf = Some((pfs, macs));
        self.vf_stale = false;
    }

    /// The carried answer, if it may be used for these very physical functions.
    pub fn carried_vf_for(&self, pfs: &Vec<u32>) -> (r: Option<Vec<(u32, Mac)>>)
        ensures
            match r {
                Some(v) => self@.vf_usable(pfs@) && v@ == self@.vf_answer(),
                None => !self@.vf_usable(pfs@),
            },
    {
        if self.vf_stale {
            return None;
        }
        match &self.carried_vf {
            Some(c) => if same_indices(&c.0, pfs) {
                Some(copy_answer(&c.1))
            } else {
                None
            },
            None => None,
        }
    }

    /// The capacity of the card this uplink writes into: what it reported, or
    /// the assumed number where it reported nothing.
    pub fn limit_of(&self, dev: &String) -> (r: usize)
        ensures
            r == self@.limit(dev@),
            !self@.karte_von.contains_key(dev@) && self@.max_macs_je_karte.contains_key(dev@) ==> r
                == self@.max_macs_je_karte[dev@],
            self@.karte_von.contains_key(dev@) && self@.max_macs_je_karte.contains_key(
                self@.karte_von[dev@],
            ) ==> r == self@.max_macs_je_karte[self@.karte_von[dev@]],
            !self@.max_macs_je_karte.contains_key(
                if self@.karte_von.contains_key(dev@) {
                    self@.karte_von[dev@]
                } else {
                    dev@
                },
            ) ==> r == self@.max_macs,
    {
        let card: &String = match self.karte_von.get(dev) {
            Some(c) => c,
            None => dev,
        };
        match self.max_macs_je_karte.get(card) {
            Some(n) => *n,
            None => self.max_macs,
        }
    }

    /// How full the fullest uplink's filter is, as the last pass measured it
    /// against the card. The limit applies per card, so the fullest list
    /// counts, not the total; foreign entries take real slots too.
    pub fn fullest_filter(&self) -> (r: usize)
        ensures
            is_fullest(self@.carried, r as nat),
    {
        let list = self.carried.list();
        let ghost ks = entry_models(list@);
        let mut most: usize = 0;
        let mut i: usize = 0;
        while i < list.len()
            invariant
                ks == entry_models(list@),
                ks.no_duplicates(),
                entry_map(list@) == self.carried@,
                i <= list@.len(),
                forall|j: int|
                    0 <= j < i ==> self@.carried[#[trigger] ks[j]].present.len() <= most,
                most == 0 || exists|d: Seq<char>| #[trigger]
                    self@.carried.contains_key(d) && self@.carried[d].present.len() == most,
            decreases list@.len() - i,
        {
            let n = list[i].1.present.len();
            proof {
                lemma_entry(list@, i as int);
                assert(self@.carried.contains_key(ks[i as int]));
                assert(self@.carried[ks[i as int]].present.len() == n);
            }
            if n > most {
                most = n;
            }
            i += 1;
        }
        assert forall|d: Seq<char>| #[trigger] self@.carried.contains_key(d) implies self@.carried[d].present.len()
            <= most by {
            assert(self.carried@.contains_key(d));
            assert(ks.contains(d));
            let j = choose|j: int| 0 <= j < ks.len() && ks[j] == d;
            assert(self@.carried[ks[j]].present.len() <= most);
        }
        most
    }

    /// The card is now known to hold these. Only ever called with what the card
    /// really took or really had.
    pub fn card_now_holds(&mut self, dev: &String, macs: &Vec<Mac>)
        ensures
            same_cost(*old(self), *final(self)),
            final(self)@ == old(self)@.holding(dev@, macs@.to_set()),
    {
        let mut c = match self.carried.remove(dev) {
            Some(c) => c,
            None => Carried { present: KeySet::new(), quiet: KeySet::new(), passed_at: 0 },
        };
        c.present.extend_list(macs);
        proof {
            lemma_mac_models(macs@);
        }
        self.carried.insert(dev.clone(), c);
        assert(self@.carried =~= old(self)@.holding(dev@, macs@.to_set()).carried);
    }

    /// The card no longer holds these - taken out, or never had. Both free the
    /// slot, and what is surrendered is no longer kept either, or a second
    /// batch counts the room twice.
    pub fn card_no_longer_holds(&mut self, dev: &String, macs: &Vec<Mac>)
        ensures
            same_cost(*old(self), *final(self)),
            final(self)@ == old(self)@.not_holding(dev@, macs@.to_set()),
    {
        match self.carried.remove(dev) {
            Some(c) => {
                let mut c = c;
                c.present.subtract_list(macs);
                c.quiet.subtract_list(macs);
                proof {
                    lemma_mac_models(macs@);
                }
                self.carried.insert(dev.clone(), c);
                assert(self@.carried =~= old(self)@.not_holding(dev@, macs@.to_set()).carried);
            },
            None => {
                assert(self@.carried =~= old(self)@.carried);
            },
        }
    }

    /// Says that a virtual function's address cannot be known, once per
    /// situation.
    ///
    /// A function is recognised by an address set from the host, or by an
    /// interface still bound here. One handed to a guest with neither is in no
    /// exclusion set.
    pub fn warn_about_unknowable_vfs(&mut self, topo: &Topology, dev: &String, vf: &Vec<(u32, Mac)>)
        ensures
            same_cost(*old(self), *final(self)),
            final(self)@ == old(self)@.with_said(
                Marks {
                    unknown_vf: unknown_marks(
                        old(self)@.book.said.unknown_vf,
                        topo@,
                        dev@,
                        vf@,
                    ),
                    ..old(self)@.book.said
                },
            ).saying_all(
                unknown_lines(old(self)@.book.said.unknown_vf, topo@, dev@, vf@),
            ),
    {
        let ghost journal = self@.book.journal;
        assert(journal + Seq::<Seq<char>>::empty() =~= journal);
        let d = match topo.index_of(dev) {
            Some(d) => d,
            None => {
                return;
            },
        };
        let pfs = topo.physical_functions(topo.filter_carrier(d));
        let ghost functions = functions_of(topo@.links, carrier(topo@.links, d));
        if pfs.len() == 0 {
            assert forall|f: u32| !functions.contains(f) by {
                assert(functions.contains(f) ==> pfs@.contains(f));
            }
            return;
        }
        proof {
            assert(pfs@.contains(pfs@[0]));
            assert(is_first(functions, pfs@[0])) by {
                assert forall|g: u32| #[trigger] functions.contains(g) implies pfs@[0] <= g by {
                    assert(pfs@.contains(g));
                }
            }
            assert forall|f: u32| #[trigger] is_first(functions, f) implies f == pfs@[0] by {
                assert(functions.contains(pfs@[0]));
            }
        }
        let link = match topo.at(pfs[0]) {
            Some(l) => l,
            None => {
                return;
            },
        };
        let mut named: usize = 0;
        let mut i: usize = 0;
        assert(vf@.take(0) =~= Seq::empty());
        while i < vf.len()
            invariant
                i <= vf@.len(),
                named <= i,
                pfs@.to_set() == functions,
                named == named_vfs(functions, vf@.take(i as int)),
            decreases vf@.len() - i,
        {
            proof {
                let next = vf@.take(i + 1);
                assert(next.drop_last() =~= vf@.take(i as int));
                assert(next.last() == vf@[i as int]);
            }
            let (f, m) = vf[i];
            if holds_index(&pfs, f) && !is_zero(&m) {
                named += 1;
            }
            i += 1;
        }
        assert(vf@.take(i as int) =~= vf@);
        let here = link.vf_netdevs.len();
        let most: usize = if named > here {
            named
        } else {
            here
        };
        if link.numvfs as u64 > most as u64 {
            if self.book.said.unknown_vf.insert(dev.clone()) {
                let line = say_unknown(
                    dev,
                    &link.name,
                    link.numvfs as u64 - most as u64,
                    link.numvfs as u64,
                );
                assert(journal.push(line@) =~= journal + seq![line@]);
                self.book.say(line);
            }
        } else {
            let _ = self.book.said.unknown_vf.remove(dev);
        }
    }

    /// The probe entry of a check is owned from the moment it exists: noted
    /// before it is written, forgotten after it is taken out. Whether the note
    /// took it; a probe the note could not take must not be written at all.
    pub fn note_check_probe<W: FdbWriter>(
        &mut self,
        sock: &mut Recorded<W>,
        dev: &String,
        index: u32,
        mac: &Mac,
    ) -> (r: bool)
        ensures
            same_cost(*old(self), *final(self)),
            final(sock).marks() == old(sock).marks(),
            probe_noted(
                old(self)@.book,
                old(sock).log(),
                dev@,
                index,
                *mac,
                old(self)@.dry_run,
                final(self)@.book,
                final(sock).log(),
                r,
            ),
            final(self)@ == (SyncerModel { book: final(self)@.book, ..old(self)@ }),
            r && !old(self)@.dry_run ==> owned_in(final(self)@.book.dir, dev@).contains(*mac),
    {
        let dry_run = self.dry_run;
        self.book.note_check_probe(sock, dev, index, mac, dry_run)
    }

    /// Takes the probe of a check off the note again: one line out, the rest
    /// letter by letter. When it was the only line, note and index go with it.
    pub fn forget_check_probe<W: FdbWriter>(
        &mut self,
        sock: &mut Recorded<W>,
        dev: &String,
        mac: &Mac,
    )
        ensures
            same_cost(*old(self), *final(self)),
            final(sock).marks() == old(sock).marks(),
            probe_forgotten(
                old(self)@.book,
                old(sock).log(),
                dev@,
                *mac,
                final(self)@.book,
                final(sock).log(),
            ),
            final(self)@ == (SyncerModel { book: final(self)@.book, ..old(self)@ }),
    {
        self.book.forget_check_probe(sock, dev, mac);
    }

    /// How many addresses this daemon has on record as its own, across every
    /// note.
    pub fn registered<W: FdbWriter>(&mut self, sock: &mut Recorded<W>) -> (r: usize)
        ensures
            same_cost(*old(self), *final(self)),
            final(sock).marks() == old(sock).marks(),
            notes_counted(
                old(self)@.book,
                old(sock).log(),
                final(self)@.book,
                final(sock).log(),
                r,
            ),
            final(self)@ == (SyncerModel { book: final(self)@.book, ..old(self)@ }),
    {
        self.book.registered(sock)
    }
}

} // verus!
