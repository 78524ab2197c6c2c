//! How much a card holds, and what becomes of quiet addresses when it is nearly
//! full.

use vstd::prelude::*;

use crate::mac::Mac;
use crate::netlink::FdbEntry;
use crate::order::lex_le;
use crate::sync::batch::{burst_over, sheddable};
use crate::sync::filter_laws::{
    belongs, can_stand, hangs_on, kept_out, learnt_on_wire, what_is_kept_hangs_on,
};
use crate::sync::journal::over_text;
use crate::sync::memory::PortsModel;
use crate::sync::pass::{
    kept_of, own_entries, pair_carried, pair_decided, pair_shed, want_of, Decision, Pass,
};
use crate::sync::pass_laws::{dump_shows, lemma_dump_shows};
use crate::sync::syncer::SyncerModel;
use crate::sync::valve::released;
use crate::topology::AnatomyModel;

verus! {

/// How much the card of this name holds: what it reported, or what is assumed of
/// a card that reported nothing.
pub open spec fn room_in(s: SyncerModel, card: Seq<char>) -> usize {
    if s.max_macs_je_karte.contains_key(card) {
        s.max_macs_je_karte[card]
    } else {
        s.max_macs
    }
}

/// The limit of an uplink is the number that its card reported: the card of the
/// interface recorded for it, or its own where none is recorded. Only where that
/// card reported nothing is it the assumed number.
pub proof fn a_reported_capacity_is_the_limit(s: SyncerModel, dev: Seq<char>, card: Seq<char>)
    requires
        if s.karte_von.contains_key(dev) {
            card == s.karte_von[dev]
        } else {
            card == dev
        },
    ensures
        s.max_macs_je_karte.contains_key(card) ==> s.limit(dev) == s.max_macs_je_karte[card],
        !s.max_macs_je_karte.contains_key(card) ==> s.limit(dev) == s.max_macs,
{
}

/// What a pass wants for an uplink: what belongs in its filter by the table and
/// the driver's answer, and what is on the note and was heard behind a port that
/// still hangs under the bridge.
pub proof fn a_pass_wants_what_belongs_and_what_hangs_on(
    c: Pass,
    anat: AnatomyModel,
    dev: Seq<char>,
    owned: Set<Mac>,
    s: SyncerModel,
    m: Mac,
)
    requires
        c.t.links.contains_key(anat.bridge),
        c.t.links.contains_key(anat.dev),
    ensures
        kept_of(c, anat, dev, owned, s).contains(m) <==> {
            &&& owned.contains(m)
            &&& s.memory.carried.contains_key(dev)
            &&& s.memory.carried[dev].contains_key(m)
            &&& hangs_on(c.t.links, anat, s.memory.carried[dev][m].0)
            &&& !belongs(s.rules(), c.t.links, anat, c.fdb, s.vf_answer(), m)
            &&& !kept_out(s.exclude, c.t.links, anat, s.vf_answer(), m)
            &&& !learnt_on_wire(c.fdb, anat.port, m)
            &&& can_stand(m)
        },
        want_of(c, anat, dev, owned, s).contains(m) <==> belongs(
            s.rules(),
            c.t.links,
            anat,
            c.fdb,
            s.vf_answer(),
            m,
        ) || kept_of(c, anat, dev, owned, s).contains(m),
{
    what_is_kept_hangs_on(
        s.rules(),
        c.t.links,
        anat,
        c.fdb,
        s.vf_answer(),
        owned,
        s.memory.ports(dev),
        m,
    );
}

/// The entries of a card that are neither wanted nor on the note: they take slots
/// and are not ours to remove.
pub open spec fn not_ours(
    fdb: Seq<FdbEntry>,
    card: u32,
    want: Set<Mac>,
    owned: Set<Mac>,
) -> Set<Mac> {
    Set::new(|m: Mac| dump_shows(fdb, card, m) && !want.contains(m) && !owned.contains(m))
}

/// When an address was last heard of, of those that something is remembered of.
pub open spec fn heard_at(ports: PortsModel, m: Mac) -> int {
    if ports.contains_key(m) {
        ports[m].1 as int
    } else {
        0
    }
}

/// Whether one address has been silent for at least as long as another; of two
/// that went silent together the smaller comes first.
pub open spec fn silent_longer(ports: PortsModel, a: Mac, b: Mac) -> bool {
    ||| heard_at(ports, a) < heard_at(ports, b)
    ||| heard_at(ports, a) == heard_at(ports, b) && lex_le(a@, b@)
}

/// How many slots too many this would take, with four left free.
pub open spec fn slots_short(needed: nat, room: usize) -> nat {
    if needed + 4 > room {
        (needed + 4 - room) as nat
    } else {
        0
    }
}

/// The valve of a pass, measured against what the card that holds the filter
/// reported, or the assumed number where it reported nothing. The slots that are
/// needed are those of what is wanted and of the card's entries that are not ours
/// to remove. As long as four stay free nothing is surrendered; otherwise as many
/// of the kept addresses as are too many, the longest-silent first, and nothing
/// else.
pub proof fn the_valve_opens_where_the_card_is_full(
    c: Pass,
    anat: AnatomyModel,
    dev: Seq<char>,
    owned: Set<Mac>,
    s: SyncerModel,
    s2: SyncerModel,
    d: Decision,
) -> (shed: Seq<Mac>)
    requires
        pair_decided(c, anat, dev, owned, s, s2, d),
        c.t.links.contains_key(anat.card),
    ensures
        ({
            let want = want_of(c, anat, dev, owned, s);
            let kept = kept_of(c, anat, dev, owned, s);
            let needed = want.len() + not_ours(c.fdb, anat.card, want, owned).len();
            let short = slots_short(needed, room_in(s, c.t.links[anat.card].name));
            let ports = s.memory.ports(dev);
            &&& shed.no_duplicates()
            &&& shed.len() == if short < kept.len() {
                short
            } else {
                kept.len()
            }
            &&& forall|m: Mac| #[trigger]
                d.want.contains(m) <==> want.contains(m) && !shed.contains(m)
            &&& forall|m: Mac| #[trigger]
                d.kept.contains(m) <==> kept.contains(m) && !shed.contains(m)
            &&& forall|m: Mac| #[trigger] shed.contains(m) ==> kept.contains(m)
            &&& forall|a: Mac, b: Mac|
                #![trigger shed.contains(a), kept.contains(b)]
                shed.contains(a) && kept.contains(b) && !shed.contains(b) ==> silent_longer(
                    ports,
                    a,
                    b,
                )
            &&& d.occupied == needed - shed.len()
            &&& needed + 4 <= room_in(s, c.t.links[anat.card].name) ==> d.want =~= want
        }),
{
    let want = want_of(c, anat, dev, owned, s);
    let kept = kept_of(c, anat, dev, owned, s);
    let shed = choose|shed: Seq<Mac>| #[trigger] pair_shed(c, anat, dev, owned, s, shed, d);
    let others = own_entries(c.fdb, anat.card).difference(want).difference(owned);
    assert(others =~= not_ours(c.fdb, anat.card, want, owned)) by {
        assert forall|m: Mac| others.contains(m) <==> not_ours(
            c.fdb,
            anat.card,
            want,
            owned,
        ).contains(m) by {
            lemma_dump_shows(c.fdb, anat.card, m);
        }
    }
    assert forall|m: Mac| #[trigger] shed.contains(m) implies kept.contains(m) by {
        assert(shed.to_set().contains(m));
    }
    assert forall|m: Mac| #[trigger] d.want.contains(m) <==> want.contains(m) && !shed.contains(
        m,
    ) by {
        assert(shed.to_set().contains(m) <==> shed.contains(m));
    }
    assert forall|m: Mac| #[trigger] d.kept.contains(m) <==> kept.contains(m) && !shed.contains(
        m,
    ) by {
        assert(shed.to_set().contains(m) <==> shed.contains(m));
    }
    if want.len() + others.len() + 4 <= room_in(s, c.t.links[anat.card].name) {
        assert(shed.len() == 0);
        assert(d.want =~= want);
    }
    shed
}

/// A pass remembers which interface holds the filter that an uplink writes into,
/// where that is another one, and changes nothing about the other uplinks.
pub proof fn a_pass_records_the_card(
    c: Pass,
    anat: AnatomyModel,
    dev: Seq<char>,
    owned: Set<Mac>,
    s: SyncerModel,
    s2: SyncerModel,
    d: Decision,
)
    requires
        pair_decided(c, anat, dev, owned, s, s2, d),
        c.t.links.contains_key(anat.card),
    ensures
        c.t.links[anat.card].name != dev ==> s2.karte_von.contains_key(dev) && s2.karte_von[dev]
            == c.t.links[anat.card].name,
        c.t.links[anat.card].name == dev ==> !s2.karte_von.contains_key(dev),
        forall|other: Seq<char>|
            other != dev ==> (#[trigger] s2.karte_von.contains_key(other)
                == s.karte_von.contains_key(other)) && s2.karte_von[other] == s.karte_von[other],
        s2.limit(dev) == room_in(s, c.t.links[anat.card].name),
{
}

/// A filter that a pass leaves past the end of its card is warned about, with the
/// number that the card reported, or the assumed one where it reported nothing;
/// one that fits is not. A pass that may not touch the card says nothing of it.
pub proof fn a_full_card_is_warned_about(
    c: Pass,
    anat: AnatomyModel,
    dev: Seq<char>,
    d: Decision,
    landed: Set<Mac>,
    gone: Set<Mac>,
    readable: bool,
    s: SyncerModel,
    card: Seq<char>,
)
    requires
        if s.karte_von.contains_key(dev) {
            card == s.karte_von[dev]
        } else {
            card == dev
        },
    ensures
        ({
            let s2 = pair_carried(c, anat, dev, d, landed, gone, readable, s);
            let room = room_in(s, card);
            let was = s.book.said.over.contains(dev);
            &&& c.apply ==> (s2.book.said.over.contains(dev) <==> d.occupied > room)
            &&& c.apply && d.occupied > room && !was ==> s2.book.journal == s.book.journal.push(
                over_text(dev, d.occupied, room as nat),
            )
            &&& !c.apply || d.occupied <= room || was ==> s2.book.journal == s.book.journal
            &&& c.apply && d.occupied + 4 <= room ==> !s2.book.said.tight.contains(dev)
        }),
{
}

/// How many slots a burst is short of: what the card is known to hold together
/// with the burst, as far as it takes more than the card's room with four left
/// free.
pub proof fn a_burst_is_measured_against_the_card(
    s: SyncerModel,
    dev: Seq<char>,
    macs: Set<Mac>,
    card: Seq<char>,
)
    requires
        macs.finite(),
        s.carried.contains_key(dev),
        s.carried[dev].present.finite(),
        if s.karte_von.contains_key(dev) {
            card == s.karte_von[dev]
        } else {
            card == dev
        },
    ensures
        room_in(s, card) >= 4 ==> burst_over(s, dev, macs) == slots_short(
            s.carried[dev].present.union(macs).len(),
            room_in(s, card),
        ),
        room_in(s, card) < 4 ==> burst_over(s, dev, macs) == s.carried[dev].present.union(
            macs,
        ).len(),
{
    let held = s.carried[dev].present;
    let more = macs.difference(held);
    assert(held.union(macs) =~= held.union(more));
    assert(held.disjoint(more));
    vstd::set_lib::lemma_set_disjoint_lens(held, more);
}

/// What a burst may surrender: only what the last pass kept, and of which nothing
/// has been heard since that pass.
pub proof fn only_what_stayed_silent_is_surrendered(s: SyncerModel, dev: Seq<char>, m: Mac)
    ensures
        sheddable(s, dev).contains(m) <==> {
            &&& s.carried.contains_key(dev)
            &&& s.carried[dev].quiet.contains(m)
            &&& s.memory.carried.contains_key(dev)
            &&& s.memory.carried[dev].contains_key(m)
            &&& s.memory.carried[dev][m].1 < s.carried[dev].passed_at
        },
{
}

/// What is released has been silent for longer than what is not.
pub(crate) proof fn lemma_released_order(
    cands: Set<Mac>,
    ports: PortsModel,
    n: nat,
    shed: Seq<Mac>,
)
    requires
        released(cands, ports, n, shed),
    ensures
        forall|a: Mac, b: Mac|
            #![trigger shed.contains(a), cands.contains(b)]
            shed.contains(a) && cands.contains(b) && !shed.contains(b) ==> silent_longer(
                ports,
                a,
                b,
            ),
{
}

} // verus!
