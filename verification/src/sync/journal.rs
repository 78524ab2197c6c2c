//! The lines for the journal: what an operator should read, each said once per
//! situation. The library collects them in order; whoever runs it prints them.

use vstd::prelude::*;

use crate::keyed::KeySet;
use crate::mac::{mac_of, mac_text, push_mac, spells, Mac};
use crate::sync::notes::{list_in_order, sorted_macs};
use crate::sync::syncer::CAPACITY_HEADROOM;
use crate::text::{
    chars_of, digits, lines, push_number, push_text, push_wide, split_lines, trim, trimmed, views,
};
use crate::topology::detect::texts;

verus! {

/// A filter holds more than the card's list does.
pub open spec fn over_text(dev: Seq<char>, occupied: nat, limit: nat) -> Seq<char> {
    "warning: "@ + dev + ": "@ + digits(occupied) + " unicast entries against the "@ + digits(limit)
        + " the vport list holds - some will be dropped silently, and not by choice"@
}

/// A burst found no room.
pub open spec fn tight_text(dev: Seq<char>, fresh: nat, limit: nat) -> Seq<char> {
    "warning: "@ + dev + ": no room for "@ + digits(fresh)
        + " new address(es) and no quiet ones left to release - the list is within "@ + digits(
        CAPACITY_HEADROOM as nat,
    ) + " of the "@ + digits(limit) + " the card holds, and past that it drops silently"@
}

/// Kept addresses were surrendered because the list nears its limit.
pub open spec fn pressure_text(dev: Seq<char>, limit: nat, n: nat) -> Seq<char> {
    dev + ": filter nearing its "@ + digits(limit) + " limit, released "@ + digits(n)
        + " quiet address(es) [pressure]"@
}

/// Addresses have gone quiet and are kept.
pub open spec fn quiet_text(dev: Seq<char>, n: nat) -> Seq<char> {
    dev + ": "@ + digits(n)
        + " address(es) aged out of the bridge but their ports live on; kept [quiet]"@
}

/// A pinned address could not be registered.
pub open spec fn pinned_text(dev: Seq<char>, m: Mac) -> Seq<char> {
    "warning: "@ + dev + ": pinned address "@ + mac_text(m)
        + " not registered - it is excluded, multicast, the host's own, or the bridge has it out on the wire"@
}

/// The pinned addresses that could not be registered, in the order of their
/// bytes.
pub open spec fn pinned_lines(dev: Seq<char>, macs: Set<Mac>) -> Seq<Seq<char>> {
    sorted_macs(macs).map_values(|m: Mac| pinned_text(dev, m))
}

/// There are virtual functions whose address cannot be known.
pub open spec fn unknown_text(dev: Seq<char>, pf: Seq<char>, missing: nat, all: nat) -> Seq<char> {
    "warning: "@ + dev + ": "@ + digits(missing) + " of "@ + pf + "'s "@ + digits(all)
        + " virtual function(s) have no address set from this host and no interface here, so their addresses cannot be excluded - a guest holding one would have its own traffic sent past it if this bridge ever learns that address. Set them with `ip link set "@
        + pf + " vf N mac ...`, or list them in EXCLUDE."@
}

/// The bridge of a pair is not there.
pub open spec fn no_bridge_text(dev: Seq<char>, bridge: Seq<char>) -> Seq<char> {
    "warning: "@ + dev + ": bridge "@ + bridge + " not found, leaving the filter alone"@
}

/// A device is not under the bridge of its pair.
pub open spec fn not_under_text(dev: Seq<char>, bridge: Seq<char>) -> Seq<char> {
    "warning: "@ + dev + ": not under bridge "@ + bridge
        + " in this reading, leaving the filter alone"@
}

/// The note would not take a batch.
pub open spec fn unnoted_text(dev: Seq<char>, n: nat) -> Seq<char> {
    "warning: "@ + dev + ": "@ + digits(n)
        + " address(es) not registered - the ownership note has to take them first and could not"@
}

/// Somebody else's addresses did not come off the note again.
pub open spec fn unclaimed_text(dev: Seq<char>, n: nat) -> Seq<char> {
    "warning: "@ + dev + ": "@ + digits(n)
        + " refused address(es) could not be taken back off the ownership note - they are somebody else's entries and would be removed when they stop being wanted"@
}

/// An address of ours was seen on the wire.
pub open spec fn moved_text(dev: Seq<char>, m: Mac) -> Seq<char> {
    dev + ": "@ + mac_text(m) + " moved out onto the wire, unregistered [reflection]"@
}

/// A note's entries were taken out of a card.
pub open spec fn cleared_text(
    dev: Seq<char>,
    orphan: bool,
    gone: nat,
    kept: nat,
    clean: bool,
) -> Seq<char> {
    let head = if orphan {
        dev + ": no longer an uplink, removed "@
    } else {
        dev + ": removed "@
    };
    if clean {
        head + digits(gone) + " address(es)"@
    } else {
        head + digits(gone) + " address(es), "@ + digits(kept)
            + " could not be removed and stay on record"@
    }
}

/// A note's entries are taken out of an interface that has another name now.
pub open spec fn through_text(dev: Seq<char>, name: Seq<char>) -> Seq<char> {
    dev + ": now called "@ + name + ", removing through it"@
}

/// What a flush would do with a note.
pub open spec fn would_remove_text(dev: Seq<char>, n: nat) -> Seq<char> {
    dev + ": would remove "@ + digits(n) + " address(es)"@
}

/// What a flush would do with a note that cannot be read.
pub open spec fn would_fail_text(dev: Seq<char>) -> Seq<char> {
    dev + ": note unreadable, a real flush would fail here"@
}

/// A device has another name now, and its note would follow it.
pub open spec fn would_follow_text(dev: Seq<char>, name: Seq<char>) -> Seq<char> {
    dev + ": now called "@ + name + "; its note would follow"@
}

/// A device has another name now, and its note follows it.
pub open spec fn follows_text(dev: Seq<char>, name: Seq<char>) -> Seq<char> {
    dev + ": now called "@ + name + ", its note follows the interface"@
}

/// A device is no uplink any more, and its addresses are still there.
pub open spec fn still_text(dev: Seq<char>, n: nat) -> Seq<char> {
    dev + ": no longer an uplink, "@ + digits(n) + " address(es) still registered"@
}

/// A note is not written because it cannot be read.
pub open spec fn on_hold_text(dev: Seq<char>) -> Seq<char> {
    "warning: not writing the ownership note for "@ + dev
        + ": it could not be read, and replacing it would abandon whatever it names"@
}

/// The memory of the previous process was taken over.
pub open spec fn took_over_text(dev: Seq<char>, n: nat) -> Seq<char> {
    dev + ": took over the last run's memory of "@ + digits(n) + " address(es)"@
}

/// The fraction `rem` of a unit in decimal digits, as many as it takes.
pub open spec fn decimals(rem: nat, unit: nat) -> Seq<char>
    decreases unit,
{
    if rem == 0 || unit < 10 {
        Seq::empty()
    } else {
        digits(rem / (unit / 10)) + decimals(rem % (unit / 10), unit / 10)
    }
}

/// A number of parts in whole units, with a fraction where there is one.
pub open spec fn scaled_text(parts: nat, unit: nat) -> Seq<char> {
    if parts % unit == 0 {
        digits(parts / unit)
    } else {
        digits(parts / unit) + "."@ + decimals(parts % unit, unit)
    }
}

/// A span of time in the largest unit that it fills.
pub open spec fn span_text(nanos: nat) -> Seq<char> {
    if nanos >= 1_000_000_000 {
        scaled_text(nanos, 1_000_000_000) + "s"@
    } else if nanos >= 1_000_000 {
        scaled_text(nanos, 1_000_000) + "ms"@
    } else if nanos >= 1_000 {
        scaled_text(nanos, 1_000) + "µs"@
    } else {
        digits(nanos) + "ns"@
    }
}

/// A device is missing among the uplinks.
pub open spec fn waiting_text(dev: Seq<char>, grace: nat) -> Seq<char> {
    dev + ": no longer among the uplinks; waiting "@ + span_text(grace)
        + " before taking its addresses back out"@
}

/// How many bytes a character takes in a file.
pub open spec fn char_bytes(c: char) -> nat {
    if (c as u32) < 0x80 {
        1
    } else if (c as u32) < 0x800 {
        2
    } else if (c as u32) < 0x10000 {
        3
    } else {
        4
    }
}

/// How many bytes a line takes.
pub open spec fn line_bytes(l: Seq<char>) -> nat
    decreases l.len(),
{
    if l.len() == 0 {
        0
    } else {
        line_bytes(l.drop_last()) + char_bytes(l.last())
    }
}

/// Whether a line says something, but no address.
pub open spec fn is_bad_line(l: Seq<char>) -> bool {
    trim(l).len() > 0 && forall|m: Mac| !#[trigger] spells(trim(l), m)
}

/// What is said of the lines of a note that name no address.
pub open spec fn bad_lines(path: Seq<char>, ls: Seq<Seq<char>>) -> Seq<Seq<char>>
    decreases ls.len(),
{
    if ls.len() == 0 {
        Seq::empty()
    } else {
        let head = bad_lines(path, ls.drop_last());
        if is_bad_line(ls.last()) {
            head.push(bad_line_text(path, ls.len(), line_bytes(ls.last())))
        } else {
            head
        }
    }
}

/// An address that was about to be registered is a virtual function's.
pub open spec fn kept_out_text(dev: Seq<char>, m: Mac) -> Seq<char> {
    dev + ": "@ + mac_text(m)
        + " is a virtual function's address by the driver's fresh answer, kept out [vf refresh]"@
}

/// The memory of an uplink could not be written down.
pub open spec fn memory_refused_text(dev: Seq<char>, words: Seq<char>) -> Seq<char> {
    "warning: cannot write the quiet-keep memory for "@ + dev + ": "@ + words
        + " - addresses held while their port lives will be forgotten if this daemon restarts"@
}

/// The lock file of a note could not be opened.
pub open spec fn unopened_text(path: Seq<char>, dev: Seq<char>, words: Seq<char>) -> Seq<char> {
    "warning: cannot lock "@ + path + ": "@ + words + " - writing the ownership note for "@ + dev
        + " unlocked, so a --once or --flush run by hand at the same moment can lose entries from it"@
}

/// The lock of a note could not be taken.
pub open spec fn unlocked_text(path: Seq<char>, dev: Seq<char>, words: Seq<char>) -> Seq<char> {
    "warning: cannot take the lock on "@ + path + ": "@ + words
        + " - writing the ownership note for "@ + dev
        + " unlocked, so a --once or --flush run by hand at the same moment can lose entries from it"@
}

/// A note cannot be read.
pub open spec fn unreadable_text(path: Seq<char>, words: Seq<char>) -> Seq<char> {
    "warning: cannot read "@ + path + ": "@ + words
        + " - leaving that device alone until it can be read"@
}

/// A note can be read again.
pub open spec fn readable_text(path: Seq<char>, dev: Seq<char>) -> Seq<char> {
    path + ": readable again, "@ + dev + " is back in the reckoning"@
}

/// Which interface a note is about could not be recorded.
pub open spec fn index_refused_text(dev: Seq<char>, words: Seq<char>) -> Seq<char> {
    "warning: cannot record which interface "@ + dev + " is: "@ + words
        + " - a rename of it would not be followed"@
}

/// A note could not be written.
pub open spec fn unwritten_text(dev: Seq<char>, words: Seq<char>) -> Seq<char> {
    "warning: cannot write the ownership note for "@ + dev + ": "@ + words
}

/// A note could not be added to.
pub open spec fn unadded_text(dev: Seq<char>, words: Seq<char>) -> Seq<char> {
    "warning: cannot add to the ownership note for "@ + dev + ": "@ + words
}

/// The state directory cannot be listed.
pub open spec fn unlisted_text(path: Seq<char>, words: Seq<char>) -> Seq<char> {
    "warning: cannot list "@ + path + ": "@ + words
        + " - the notes in it, if any, are out of reach until it can be listed"@
}

/// A line of a note names no address: its number and its length, never what it
/// says.
pub open spec fn bad_line_text(path: Seq<char>, number: nat, bytes: nat) -> Seq<char> {
    "warning: "@ + path + ": unreadable line "@ + digits(number) + " ("@ + digits(bytes)
        + " bytes) in the ownership note, the entry it named is now nobody's"@
}

fn warning(dev: &String) -> (r: String)
    ensures
        r@ == "warning: "@ + dev@ + ": "@,
{
    let mut s = String::new();
    push_text(&mut s, "warning: ");
    push_text(&mut s, dev);
    push_text(&mut s, ": ");
    assert(s@ =~= "warning: "@ + dev@ + ": "@);
    s
}

pub(crate) fn say_over(dev: &String, occupied: u128, limit: u64) -> (r: String)
    ensures
        r@ == over_text(dev@, occupied as nat, limit as nat),
{
    let mut s = warning(dev);
    push_wide(&mut s, occupied);
    push_text(&mut s, " unicast entries against the ");
    push_number(&mut s, limit);
    push_text(
        &mut s,
        " the vport list holds - some will be dropped silently, and not by choice",
    );
    s
}

pub(crate) fn say_tight(dev: &String, fresh: u64, limit: u64) -> (r: String)
    ensures
        r@ == tight_text(dev@, fresh as nat, limit as nat),
{
    let mut s = String::new();
    push_text(&mut s, "warning: ");
    push_text(&mut s, dev);
    push_text(&mut s, ": no room for ");
    push_number(&mut s, fresh);
    push_text(
        &mut s,
        " new address(es) and no quiet ones left to release - the list is within ",
    );
    push_number(&mut s, CAPACITY_HEADROOM as u64);
    push_text(&mut s, " of the ");
    push_number(&mut s, limit);
    push_text(&mut s, " the card holds, and past that it drops silently");
    s
}

pub(crate) fn say_pressure(dev: &String, limit: u64, n: u64) -> (r: String)
    ensures
        r@ == pressure_text(dev@, limit as nat, n as nat),
{
    let mut s = dev.clone();
    push_text(&mut s, ": filter nearing its ");
    push_number(&mut s, limit);
    push_text(&mut s, " limit, released ");
    push_number(&mut s, n);
    push_text(&mut s, " quiet address(es) [pressure]");
    s
}

pub(crate) fn say_quiet(dev: &String, n: u64) -> (r: String)
    ensures
        r@ == quiet_text(dev@, n as nat),
{
    let mut s = dev.clone();
    push_text(&mut s, ": ");
    push_number(&mut s, n);
    push_text(
        &mut s,
        " address(es) aged out of the bridge but their ports live on; kept [quiet]",
    );
    s
}

fn say_pinned(dev: &String, m: &Mac) -> (r: String)
    ensures
        r@ == pinned_text(dev@, *m),
{
    let mut s = String::new();
    push_text(&mut s, "warning: ");
    push_text(&mut s, dev);
    push_text(&mut s, ": pinned address ");
    push_mac(&mut s, m);
    push_text(
        &mut s,
        " not registered - it is excluded, multicast, the host's own, or the bridge has it out on the wire",
    );
    s
}

pub(crate) fn say_all_pinned(dev: &String, macs: &KeySet<Mac>) -> (r: Vec<String>)
    ensures
        texts(r@) == pinned_lines(dev@, macs@),
{
    let list = list_in_order(macs);
    let mut out: Vec<String> = Vec::new();
    let mut i: usize = 0;
    while i < list.len()
        invariant
            i <= list@.len(),
            out@.len() == i,
            forall|j: int| 0 <= j < i ==> (#[trigger] out@[j])@ == pinned_text(dev@, list@[j]),
        decreases list@.len() - i,
    {
        out.push(say_pinned(dev, &list[i]));
        i += 1;
    }
    assert(texts(out@) =~= pinned_lines(dev@, macs@));
    out
}

pub(crate) fn say_unknown(dev: &String, pf: &String, missing: u64, all: u64) -> (r: String)
    ensures
        r@ == unknown_text(dev@, pf@, missing as nat, all as nat),
{
    let mut s = warning(dev);
    push_number(&mut s, missing);
    push_text(&mut s, " of ");
    push_text(&mut s, pf);
    push_text(&mut s, "'s ");
    push_number(&mut s, all);
    push_text(
        &mut s,
        " virtual function(s) have no address set from this host and no interface here, so their addresses cannot be excluded - a guest holding one would have its own traffic sent past it if this bridge ever learns that address. Set them with `ip link set ",
    );
    push_text(&mut s, pf);
    push_text(&mut s, " vf N mac ...`, or list them in EXCLUDE.");
    s
}

pub(crate) fn say_no_bridge(dev: &String, bridge: &String) -> (r: String)
    ensures
        r@ == no_bridge_text(dev@, bridge@),
{
    let mut s = String::new();
    push_text(&mut s, "warning: ");
    push_text(&mut s, dev);
    push_text(&mut s, ": bridge ");
    push_text(&mut s, bridge);
    push_text(&mut s, " not found, leaving the filter alone");
    s
}

pub(crate) fn say_not_under(dev: &String, bridge: &String) -> (r: String)
    ensures
        r@ == not_under_text(dev@, bridge@),
{
    let mut s = String::new();
    push_text(&mut s, "warning: ");
    push_text(&mut s, dev);
    push_text(&mut s, ": not under bridge ");
    push_text(&mut s, bridge);
    push_text(&mut s, " in this reading, leaving the filter alone");
    s
}

pub(crate) fn say_unnoted(dev: &String, n: u64) -> (r: String)
    ensures
        r@ == unnoted_text(dev@, n as nat),
{
    let mut s = warning(dev);
    push_number(&mut s, n);
    push_text(
        &mut s,
        " address(es) not registered - the ownership note has to take them first and could not",
    );
    s
}

pub(crate) fn say_unclaimed(dev: &String, n: u64) -> (r: String)
    ensures
        r@ == unclaimed_text(dev@, n as nat),
{
    let mut s = warning(dev);
    push_number(&mut s, n);
    push_text(
        &mut s,
        " refused address(es) could not be taken back off the ownership note - they are somebody else's entries and would be removed when they stop being wanted",
    );
    s
}

pub(crate) fn moved_line(dev: &String, m: &Mac) -> (r: String)
    ensures
        r@ == moved_text(dev@, *m),
{
    let mut s = dev.clone();
    push_text(&mut s, ": ");
    push_mac(&mut s, m);
    push_text(&mut s, " moved out onto the wire, unregistered [reflection]");
    s
}

pub(crate) fn say_cleared(
    dev: &String,
    orphan: bool,
    gone: u64,
    kept: u64,
    clean: bool,
) -> (r: String)
    ensures
        r@ == cleared_text(dev@, orphan, gone as nat, kept as nat, clean),
{
    let mut s = dev.clone();
    if orphan {
        push_text(&mut s, ": no longer an uplink, removed ");
    } else {
        push_text(&mut s, ": removed ");
    }
    push_number(&mut s, gone);
    if clean {
        push_text(&mut s, " address(es)");
    } else {
        push_text(&mut s, " address(es), ");
        push_number(&mut s, kept);
        push_text(&mut s, " could not be removed and stay on record");
    }
    s
}

pub(crate) fn say_through(dev: &String, name: &String) -> (r: String)
    ensures
        r@ == through_text(dev@, name@),
{
    let mut s = dev.clone();
    push_text(&mut s, ": now called ");
    push_text(&mut s, name);
    push_text(&mut s, ", removing through it");
    s
}

pub(crate) fn say_would_remove(dev: &String, n: u64) -> (r: String)
    ensures
        r@ == would_remove_text(dev@, n as nat),
{
    let mut s = dev.clone();
    push_text(&mut s, ": would remove ");
    push_number(&mut s, n);
    push_text(&mut s, " address(es)");
    s
}

pub(crate) fn say_would_fail(dev: &String) -> (r: String)
    ensures
        r@ == would_fail_text(dev@),
{
    let mut s = dev.clone();
    push_text(&mut s, ": note unreadable, a real flush would fail here");
    s
}

pub(crate) fn say_would_follow(dev: &String, name: &String) -> (r: String)
    ensures
        r@ == would_follow_text(dev@, name@),
{
    let mut s = dev.clone();
    push_text(&mut s, ": now called ");
    push_text(&mut s, name);
    push_text(&mut s, "; its note would follow");
    s
}

pub(crate) fn say_follows(dev: &String, name: &String) -> (r: String)
    ensures
        r@ == follows_text(dev@, name@),
{
    let mut s = dev.clone();
    push_text(&mut s, ": now called ");
    push_text(&mut s, name);
    push_text(&mut s, ", its note follows the interface");
    s
}

pub(crate) fn say_still(dev: &String, n: u64) -> (r: String)
    ensures
        r@ == still_text(dev@, n as nat),
{
    let mut s = dev.clone();
    push_text(&mut s, ": no longer an uplink, ");
    push_number(&mut s, n);
    push_text(&mut s, " address(es) still registered");
    s
}

pub(crate) fn say_on_hold(dev: &String) -> (r: String)
    ensures
        r@ == on_hold_text(dev@),
{
    let mut s = String::new();
    push_text(&mut s, "warning: not writing the ownership note for ");
    push_text(&mut s, dev);
    push_text(&mut s, ": it could not be read, and replacing it would abandon whatever it names");
    assert(s@ =~= on_hold_text(dev@));
    s
}

pub(crate) fn say_took_over(dev: &String, n: u64) -> (r: String)
    ensures
        r@ == took_over_text(dev@, n as nat),
{
    let mut s = dev.clone();
    push_text(&mut s, ": took over the last run's memory of ");
    push_number(&mut s, n);
    push_text(&mut s, " address(es)");
    s
}

fn push_decimals(s: &mut String, rem: u64, unit: u64)
    ensures
        final(s)@ == old(s)@ + decimals(rem as nat, unit as nat),
    decreases unit,
{
    let ghost before = s@;
    if rem == 0 || unit < 10 {
        assert(s@ =~= before + decimals(rem as nat, unit as nat));
        return;
    }
    let part: u64 = unit / 10;
    push_number(s, rem / part);
    push_decimals(s, rem % part, part);
    assert(s@ =~= before + decimals(rem as nat, unit as nat));
}

fn push_scaled(s: &mut String, parts: u64, unit: u64)
    requires
        unit > 0,
    ensures
        final(s)@ == old(s)@ + scaled_text(parts as nat, unit as nat),
{
    let ghost before = s@;
    push_number(s, parts / unit);
    if parts % unit != 0 {
        push_text(s, ".");
        push_decimals(s, parts % unit, unit);
    }
    assert(s@ =~= before + scaled_text(parts as nat, unit as nat));
}

fn push_span(s: &mut String, nanos: u64)
    ensures
        final(s)@ == old(s)@ + span_text(nanos as nat),
{
    let ghost before = s@;
    if nanos >= 1_000_000_000 {
        push_scaled(s, nanos, 1_000_000_000);
        push_text(s, "s");
    } else if nanos >= 1_000_000 {
        push_scaled(s, nanos, 1_000_000);
        push_text(s, "ms");
    } else if nanos >= 1_000 {
        push_scaled(s, nanos, 1_000);
        push_text(s, "µs");
    } else {
        push_number(s, nanos);
        push_text(s, "ns");
    }
    assert(s@ =~= before + span_text(nanos as nat));
}

pub(crate) fn say_waiting(dev: &String, grace: u64) -> (r: String)
    ensures
        r@ == waiting_text(dev@, grace as nat),
{
    let mut s = dev.clone();
    push_text(&mut s, ": no longer among the uplinks; waiting ");
    push_span(&mut s, grace);
    push_text(&mut s, " before taking its addresses back out");
    s
}

fn count_bytes(l: &Vec<char>) -> (r: u128)
    ensures
        r == line_bytes(l@),
{
    let mut n: u128 = 0;
    let mut i: usize = 0;
    assert(l@.take(0) =~= Seq::empty());
    while i < l.len()
        invariant
            i <= l@.len(),
            n == line_bytes(l@.take(i as int)),
            n <= 4 * i,
        decreases l@.len() - i,
    {
        proof {
            let next = l@.take(i + 1);
            assert(next.drop_last() =~= l@.take(i as int));
            assert(next.last() == l@[i as int]);
        }
        let c = l[i] as u32;
        let width: u128 = if c < 0x80 {
            1
        } else if c < 0x800 {
            2
        } else if c < 0x10000 {
            3
        } else {
            4
        };
        n = n + width;
        i += 1;
    }
    assert(l@.take(i as int) =~= l@);
    n
}

pub(crate) fn say_bad_lines(path: &String, text: &String) -> (r: Vec<String>)
    ensures
        texts(r@) == bad_lines(path@, lines(text@)),
{
    let ls = split_lines(&chars_of(text));
    let ghost all = lines(text@);
    let mut out: Vec<String> = Vec::new();
    let mut i: usize = 0;
    proof {
        assert(all.take(0) =~= Seq::empty());
        assert(texts(out@) =~= Seq::empty());
    }
    while i < ls.len()
        invariant
            i <= ls@.len(),
            all == views(ls@),
            texts(out@) == bad_lines(path@, all.take(i as int)),
        decreases ls@.len() - i,
    {
        let l = &ls[i];
        proof {
            let next = all.take(i + 1);
            assert(next.drop_last() =~= all.take(i as int));
            assert(next.last() == l@);
        }
        let t = trimmed(l);
        if t.len() > 0 && mac_of(&t).is_none() {
            let line = say_bad_line(path, i as u64 + 1, count_bytes(l));
            let ghost before = out@;
            assert(texts(before.push(line)) =~= texts(before).push(line@));
            out.push(line);
        }
        i += 1;
    }
    assert(all.take(i as int) =~= all);
    out
}

pub(crate) fn say_kept_out(dev: &String, m: &Mac) -> (r: String)
    ensures
        r@ == kept_out_text(dev@, *m),
{
    let mut s = dev.clone();
    push_text(&mut s, ": ");
    push_mac(&mut s, m);
    push_text(
        &mut s,
        " is a virtual function's address by the driver's fresh answer, kept out [vf refresh]",
    );
    s
}

pub(crate) fn say_memory_refused(dev: &String, words: &String) -> (r: String)
    ensures
        r@ == memory_refused_text(dev@, words@),
{
    let mut s = String::new();
    push_text(&mut s, "warning: cannot write the quiet-keep memory for ");
    push_text(&mut s, dev);
    push_text(&mut s, ": ");
    push_text(&mut s, words);
    push_text(
        &mut s,
        " - addresses held while their port lives will be forgotten if this daemon restarts",
    );
    assert(s@ =~= memory_refused_text(dev@, words@));
    s
}

pub(crate) fn say_unopened(path: &String, dev: &String, words: &String) -> (r: String)
    ensures
        r@ == unopened_text(path@, dev@, words@),
{
    let mut s = String::new();
    push_text(&mut s, "warning: cannot lock ");
    push_text(&mut s, path);
    push_text(&mut s, ": ");
    push_text(&mut s, words);
    push_text(&mut s, " - writing the ownership note for ");
    push_text(&mut s, dev);
    push_text(
        &mut s,
        " unlocked, so a --once or --flush run by hand at the same moment can lose entries from it",
    );
    assert(s@ =~= unopened_text(path@, dev@, words@));
    s
}

pub(crate) fn say_unlocked(path: &String, dev: &String, words: &String) -> (r: String)
    ensures
        r@ == unlocked_text(path@, dev@, words@),
{
    let mut s = String::new();
    push_text(&mut s, "warning: cannot take the lock on ");
    push_text(&mut s, path);
    push_text(&mut s, ": ");
    push_text(&mut s, words);
    push_text(&mut s, " - writing the ownership note for ");
    push_text(&mut s, dev);
    push_text(
        &mut s,
        " unlocked, so a --once or --flush run by hand at the same moment can lose entries from it",
    );
    assert(s@ =~= unlocked_text(path@, dev@, words@));
    s
}

pub(crate) fn say_unreadable(path: &String, words: &String) -> (r: String)
    ensures
        r@ == unreadable_text(path@, words@),
{
    let mut s = String::new();
    push_text(&mut s, "warning: cannot read ");
    push_text(&mut s, path);
    push_text(&mut s, ": ");
    push_text(&mut s, words);
    push_text(&mut s, " - leaving that device alone until it can be read");
    assert(s@ =~= unreadable_text(path@, words@));
    s
}

pub(crate) fn say_readable(path: &String, dev: &String) -> (r: String)
    ensures
        r@ == readable_text(path@, dev@),
{
    let mut s = String::new();
    push_text(&mut s, path);
    push_text(&mut s, ": readable again, ");
    push_text(&mut s, dev);
    push_text(&mut s, " is back in the reckoning");
    assert(s@ =~= readable_text(path@, dev@));
    s
}

pub(crate) fn say_index_refused(dev: &String, words: &String) -> (r: String)
    ensures
        r@ == index_refused_text(dev@, words@),
{
    let mut s = String::new();
    push_text(&mut s, "warning: cannot record which interface ");
    push_text(&mut s, dev);
    push_text(&mut s, " is: ");
    push_text(&mut s, words);
    push_text(&mut s, " - a rename of it would not be followed");
    assert(s@ =~= index_refused_text(dev@, words@));
    s
}

pub(crate) fn say_unwritten(dev: &String, words: &String) -> (r: String)
    ensures
        r@ == unwritten_text(dev@, words@),
{
    let mut s = String::new();
    push_text(&mut s, "warning: cannot write the ownership note for ");
    push_text(&mut s, dev);
    push_text(&mut s, ": ");
    push_text(&mut s, words);
    assert(s@ =~= unwritten_text(dev@, words@));
    s
}

pub(crate) fn say_unadded(dev: &String, words: &String) -> (r: String)
    ensures
        r@ == unadded_text(dev@, words@),
{
    let mut s = String::new();
    push_text(&mut s, "warning: cannot add to the ownership note for ");
    push_text(&mut s, dev);
    push_text(&mut s, ": ");
    push_text(&mut s, words);
    assert(s@ =~= unadded_text(dev@, words@));
    s
}

pub(crate) fn say_unlisted(path: &String, words: &String) -> (r: String)
    ensures
        r@ == unlisted_text(path@, words@),
{
    let mut s = String::new();
    push_text(&mut s, "warning: cannot list ");
    push_text(&mut s, path);
    push_text(&mut s, ": ");
    push_text(&mut s, words);
    push_text(&mut s, " - the notes in it, if any, are out of reach until it can be listed");
    assert(s@ =~= unlisted_text(path@, words@));
    s
}

pub(crate) fn say_bad_line(path: &String, number: u64, bytes: u128) -> (r: String)
    ensures
        r@ == bad_line_text(path@, number as nat, bytes as nat),
{
    let mut s = String::new();
    push_text(&mut s, "warning: ");
    push_text(&mut s, path);
    push_text(&mut s, ": unreadable line ");
    push_number(&mut s, number);
    push_text(&mut s, " (");
    push_wide(&mut s, bytes);
    push_text(&mut s, " bytes) in the ownership note, the entry it named is now nobody's");
    assert(s@ =~= bad_line_text(path@, number as nat, bytes as nat));
    s
}

} // verus!
