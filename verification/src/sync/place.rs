//! Where the state lives: who may reach it, and the files beside the notes.

use vstd::prelude::*;

use crate::sync::notes::{index_name, note_name, ports_name};
use crate::text::{chars_of, digits, number_reads_back, push_number, push_text};

verus! {

/// The mode of a state directory that nobody but its owner reaches.
pub const PRIVATE_MODE: u32 = 0o700;

/// The bits of a mode that let the group or everybody else write.
pub const OTHERS_WRITE: u32 = 0o022;

/// The mode that a state directory is narrowed to; nothing for one that is left
/// alone. Narrowed is only a directory that others may write: what stands in it
/// decides what is taken out of a card. One that others may only read is what a
/// service manager makes, and remakes on every start.
pub fn narrowed_mode(mode: u32) -> (r: Option<u32>)
    ensures
        r == if mode & OTHERS_WRITE != 0 {
            Some(PRIVATE_MODE)
        } else {
            None
        },
{
    if mode & OTHERS_WRITE != 0 {
        Some(PRIVATE_MODE)
    } else {
        None
    }
}

/// What a narrowed directory got is not narrowed again.
pub proof fn a_narrowed_directory_is_left_alone()
    ensures
        PRIVATE_MODE & OTHERS_WRITE == 0,
{
    assert(0o700u32 & 0o022u32 == 0) by (bit_vector);
}

/// The file through which a process replaces another one.
pub open spec fn temporary_name(name: Seq<char>, pid: u32) -> Seq<char> {
    "."@ + name + "."@ + digits(pid as nat) + ".tmp"@
}

/// The file through which a process replaces another one: hidden, since what is
/// not hidden might be the note of an interface, and with the process in its
/// name, since two writers that share one would spoil each other's work.
pub fn temporary_file(name: &String, pid: u32) -> (r: String)
    ensures
        r@ == temporary_name(name@, pid),
{
    let mut s = ".".to_owned();
    push_text(&mut s, name);
    push_text(&mut s, ".");
    push_number(&mut s, pid as u64);
    push_text(&mut s, ".tmp");
    s
}

/// Where a file of the state directory is.
pub open spec fn state_path(place: Seq<char>, name: Seq<char>) -> Seq<char> {
    if name.len() > 0 && name[0] == '/' {
        name
    } else if place.len() == 0 || place.last() == '/' {
        place + name
    } else {
        place + "/"@ + name
    }
}

/// Where a file of the state directory is.
pub fn path_in(place: &String, name: &String) -> (r: String)
    ensures
        r@ == state_path(place@, name@),
{
    let head = chars_of(place);
    let tail = chars_of(name);
    let mut s = String::new();
    if tail.len() == 0 || tail[0] != '/' {
        push_text(&mut s, place);
        if head.len() > 0 && head[head.len() - 1] != '/' {
            push_text(&mut s, "/");
        }
    }
    push_text(&mut s, name);
    assert(s@ =~= state_path(place@, name@));
    s
}

/// The file whose lock holds a device's note against everybody else.
pub open spec fn lock_name(dev: Seq<char>) -> Seq<char> {
    "."@ + dev + ".owned.lock"@
}

/// The file whose lock holds a device's note against everybody else.
pub fn lock_file(dev: &String) -> (r: String)
    ensures
        r@ == lock_name(dev@),
{
    let mut s = ".".to_owned();
    push_text(&mut s, dev);
    push_text(&mut s, ".owned.lock");
    s
}

/// Two processes never replace a file through the same temporary one.
pub proof fn temporary_files_are_not_shared(name: Seq<char>, a: u32, b: u32)
    requires
        a != b,
    ensures
        temporary_name(name, a) != temporary_name(name, b),
{
    if temporary_name(name, a) == temporary_name(name, b) {
        let head = "."@ + name + "."@;
        let t = temporary_name(name, a);
        let end = t.len() - ".tmp"@.len();
        assert(t.subrange(head.len() as int, end) =~= digits(a as nat));
        assert(t.subrange(head.len() as int, end) =~= digits(b as nat));
        number_reads_back(a as nat);
        number_reads_back(b as nat);
    }
}

/// A temporary file or a lock is never taken for a note, for the record beside
/// one or for a quiet memory.
pub proof fn helpers_are_no_notes(name: Seq<char>, pid: u32, dev: Seq<char>)
    ensures
        temporary_name(name, pid) != note_name(dev),
        temporary_name(name, pid) != index_name(dev),
        temporary_name(name, pid) != ports_name(dev),
        lock_name(name) != note_name(dev),
        lock_name(name) != index_name(dev),
        lock_name(name) != ports_name(dev),
{
    reveal_strlit(".tmp");
    reveal_strlit(".owned.lock");
    reveal_strlit(".owned");
    reveal_strlit(".owned.index");
    reveal_strlit(".owned.ports");
    assert(temporary_name(name, pid).last() == 'p');
    assert(lock_name(name).last() == 'k');
    assert(note_name(dev).last() == 'd');
    assert(index_name(dev).last() == 'x');
    assert(ports_name(dev).last() == 's');
}

/// A clock's seconds and nanoseconds in milliseconds, as far as they can be
/// counted; nothing below zero.
pub open spec fn millis(secs: int, nanos: int) -> nat {
    let s = if secs > 0 {
        secs * 1000
    } else {
        0
    };
    let n = if nanos > 0 {
        nanos / 1_000_000
    } else {
        0
    };
    if s + n <= u64::MAX {
        (s + n) as nat
    } else {
        u64::MAX as nat
    }
}

/// The reading of a clock since boot in milliseconds.
pub fn boot_millis(secs: i64, nanos: i64) -> (r: u64)
    ensures
        r == millis(secs as int, nanos as int),
{
    let s: u64 = if secs > 0 {
        secs as u64
    } else {
        0
    };
    let n: u64 = if nanos > 0 {
        nanos as u64
    } else {
        0
    };
    let whole: u64 = if s <= u64::MAX / 1000 {
        s * 1000
    } else {
        u64::MAX
    };
    let rest: u64 = n / 1_000_000;
    if rest <= u64::MAX - whole {
        whole + rest
    } else {
        u64::MAX
    }
}

} // verus!
