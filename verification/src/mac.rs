//! Hardware addresses and how they are written.

use vstd::prelude::*;

use crate::text::chars_of;

verus! {

/// A hardware address, first byte first.
pub type Mac = [u8; 6];

/// Whether an address names one station rather than a group.
pub open spec fn unicast(mac: Mac) -> bool {
    mac[0] & 1 == 0
}

/// Whether an address may appear in a unicast filter at all: unicast, and not
/// the all-zero address that a never-configured interface reports.
pub open spec fn registerable(mac: Mac) -> bool {
    unicast(mac) && !all_zero(mac)
}

/// Whether an address is nothing but zeroes.
pub open spec fn all_zero(mac: Mac) -> bool {
    forall|i: int| 0 <= i < 6 ==> mac[i] == 0
}

/// Whether an address names one station rather than a group.
pub fn is_unicast(mac: &Mac) -> (r: bool)
    ensures
        r == unicast(*mac),
{
    mac[0] & 1 == 0
}

/// Whether an address is nothing but zeroes.
pub fn is_zero(mac: &Mac) -> (r: bool)
    ensures
        r == all_zero(*mac),
{
    mac[0] == 0 && mac[1] == 0 && mac[2] == 0 && mac[3] == 0 && mac[4] == 0 && mac[5] == 0
}

/// Whether an address may appear in a unicast filter at all.
pub fn is_registerable(mac: &Mac) -> (r: bool)
    ensures
        r == registerable(*mac),
{
    is_unicast(mac) && !is_zero(mac)
}

/// What a hexadecimal digit counts for, in either case.
pub open spec fn hex_value(c: char) -> Option<nat> {
    if '0' <= c <= '9' {
        Some((c as u32 - 48) as nat)
    } else if 'a' <= c <= 'f' {
        Some((c as u32 - 87) as nat)
    } else if 'A' <= c <= 'F' {
        Some((c as u32 - 55) as nat)
    } else {
        None
    }
}

/// Whether `s` spells `mac`: six bytes of two hexadecimal digits each, with a
/// colon between one and the next.
pub open spec fn spells(s: Seq<char>, mac: Mac) -> bool {
    &&& s.len() == 17
    &&& forall|i: int| #![trigger mac[i]]
        0 <= i < 6 ==> hex_value(s[3 * i]) == Some((mac[i] / 16) as nat) && hex_value(s[3 * i + 1])
            == Some((mac[i] % 16) as nat)
    &&& s[2] == ':' && s[5] == ':' && s[8] == ':' && s[11] == ':' && s[14] == ':'
}

/// The lower-case hexadecimal digit for a value below sixteen.
pub open spec fn hex_char(v: int) -> char {
    if v < 10 {
        (48 + v) as char
    } else {
        (87 + v) as char
    }
}

/// How an address is written: lower case, with colons.
pub open spec fn mac_text(mac: Mac) -> Seq<char> {
    Seq::new(
        17,
        |i: int|
            if i % 3 == 0 {
                hex_char(mac[i / 3] as int / 16)
            } else if i % 3 == 1 {
                hex_char(mac[i / 3] as int % 16)
            } else {
                ':'
            },
    )
}

/// What `mac_text` writes spells the address it was given.
pub proof fn written_mac_spells_it(mac: Mac)
    ensures
        spells(mac_text(mac), mac),
{
    let s = mac_text(mac);
    assert forall|i: int| #![trigger mac[i]] 0 <= i < 6 implies hex_value(s[3 * i]) == Some(
        (mac[i] / 16) as nat,
    ) && hex_value(s[3 * i + 1]) == Some((mac[i] % 16) as nat) by {
        lemma_hex(mac[i] as int / 16);
        lemma_hex(mac[i] as int % 16);
    }
}

proof fn lemma_hex(v: int)
    requires
        0 <= v < 16,
    ensures
        hex_value(hex_char(v)) == Some(v as nat),
{
    if v < 10 {
        assert((48 + v) as char as u32 == 48 + v);
    } else {
        assert((87 + v) as char as u32 == 87 + v);
    }
}

/// A text spells one address at most.
pub proof fn spelling_is_unique(s: Seq<char>, a: Mac, b: Mac)
    requires
        spells(s, a),
        spells(s, b),
    ensures
        a == b,
{
    assert forall|i: int| 0 <= i < 6 implies a[i] == b[i] by {
        assert(a[i] == a[i] / 16 * 16 + a[i] % 16);
        assert(b[i] == b[i] / 16 * 16 + b[i] % 16);
    }
    assert(a =~= b);
}

/// What a hexadecimal digit counts for.
fn hex_digit(c: char) -> (r: Option<u8>)
    ensures
        match r {
            Some(v) => hex_value(c) == Some(v as nat) && v < 16,
            None => hex_value(c) is None,
        },
{
    let n: u32 = c as u32;
    if 48 <= n && n <= 57 {
        Some((n - 48) as u8)
    } else if 97 <= n && n <= 102 {
        Some((n - 87) as u8)
    } else if 65 <= n && n <= 70 {
        Some((n - 55) as u8)
    } else {
        None
    }
}

/// The address a row of characters spells, if it spells one.
pub fn mac_of(s: &Vec<char>) -> (r: Option<Mac>)
    ensures
        match r {
            Some(mac) => spells(s@, mac),
            None => forall|mac: Mac| !spells(s@, mac),
        },
{
    if s.len() != 17 {
        return None;
    }
    if s[2] != ':' || s[5] != ':' || s[8] != ':' || s[11] != ':' || s[14] != ':' {
        return None;
    }
    let mut out: Mac = [0u8; 6];
    let mut i: usize = 0;
    while i < 6
        invariant
            0 <= i <= 6,
            s@.len() == 17,
            s@[2] == ':' && s@[5] == ':' && s@[8] == ':' && s@[11] == ':' && s@[14] == ':',
            forall|j: int| #![trigger out[j]]
                0 <= j < i ==> hex_value(s@[3 * j]) == Some((out[j] / 16) as nat) && hex_value(
                    s@[3 * j + 1],
                ) == Some((out[j] % 16) as nat),
        decreases 6 - i,
    {
        let hi = hex_digit(s[3 * i]);
        let lo = hex_digit(s[3 * i + 1]);
        match (hi, lo) {
            (Some(h), Some(l)) => {
                let b: u8 = h * 16 + l;
                assert(b / 16 == h && b % 16 == l);
                out[i] = b;
            },
            _ => {
                proof {
                    assert forall|mac: Mac| !spells(s@, mac) by {
                        if spells(s@, mac) {
                            let b = mac[i as int];
                            assert(hex_value(s@[3 * i as int]) == Some((b / 16) as nat));
                            assert(hex_value(s@[3 * i as int + 1]) == Some((b % 16) as nat));
                        }
                    }
                }
                return None;
            },
        }
        i += 1;
    }
    Some(out)
}

/// The address a text spells, if it spells one.
pub fn parse_mac(s: &str) -> (r: Option<Mac>)
    ensures
        match r {
            Some(mac) => spells(s@, mac),
            None => forall|mac: Mac| !spells(s@, mac),
        },
{
    mac_of(&chars_of(s))
}

/// The lower-case hexadecimal digit for a value below sixteen.
fn hex_of(v: u8) -> (r: char)
    requires
        v < 16,
    ensures
        r == hex_char(v as int),
{
    if v < 10 {
        (48 + v) as char
    } else {
        (87 + v) as char
    }
}

/// Writes an address at the end of `out`.
pub fn push_mac(out: &mut String, mac: &Mac)
    ensures
        final(out)@ == old(out)@ + mac_text(*mac),
{
    let ghost before = out@;
    let ghost text = mac_text(*mac);
    let mut i: usize = 0;
    assert(out@ =~= before + text.take(0));
    while i < 6
        invariant
            0 <= i <= 6,
            text == mac_text(*mac),
            out@ == before + text.take(if i == 0 {
                0
            } else {
                3 * i - 1
            }),
        decreases 6 - i,
    {
        if i > 0 {
            out.push(':');
            assert(out@ =~= before + text.take(3 * i as int));
        }
        out.push(hex_of(mac[i] / 16));
        assert(out@ =~= before + text.take(3 * i + 1));
        out.push(hex_of(mac[i] % 16));
        assert(out@ =~= before + text.take(3 * i + 2));
        i += 1;
    }
    assert(text.take(17) =~= text);
}

/// How an address is written: lower case, with colons.
pub fn format_mac(mac: &Mac) -> (r: String)
    ensures
        r@ == mac_text(*mac),
{
    let mut out = String::new();
    push_mac(&mut out, mac);
    assert(out@ =~= mac_text(*mac));
    out
}

/// The digits of an address count alike in either case, and nothing else is a
/// digit: of every value below sixteen there is one, ten to fifteen being the
/// letters.
pub proof fn digits_count_in_either_case(c: char)
    ensures
        '0' <= c <= '9' ==> hex_value(c) == Some((c as u32 - '0' as u32) as nat),
        'a' <= c <= 'f' ==> hex_value(c) == Some((c as u32 - 'a' as u32 + 10) as nat),
        'A' <= c <= 'F' ==> hex_value(c) == Some((c as u32 - 'A' as u32 + 10) as nat),
        !('0' <= c <= '9') && !('a' <= c <= 'f') && !('A' <= c <= 'F') ==> hex_value(c) is None,
{
}

} // verus!
