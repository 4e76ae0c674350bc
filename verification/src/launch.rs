//! How the launcher starts a detached session host: its command line, the
//! process creation flags, when to retry without leaving the launcher's job,
//! and how an exit code reads.
use vstd::prelude::*;
use crate::text::{chars_of, push_char, utf16_units};

verus! {

/// `DETACHED_PROCESS`: no console.
pub const DETACHED_PROCESS: u32 = 0x0000_0008;

/// `CREATE_NEW_PROCESS_GROUP`.
pub const CREATE_NEW_PROCESS_GROUP: u32 = 0x0000_0200;

/// `CREATE_BREAKAWAY_FROM_JOB`: outlive the launcher's job object.
pub const CREATE_BREAKAWAY_FROM_JOB: u32 = 0x0100_0000;

/// `ERROR_ACCESS_DENIED`.
pub const ERROR_ACCESS_DENIED: i32 = 5;

/// The host's command line: the quoted executable, `serve-encoded` and the
/// base64 launch description.
pub open spec fn command_line_of(executable: Seq<char>, encoded_launch: Seq<char>) -> Seq<char> {
    seq!['"'] + executable + "\" serve-encoded "@ + encoded_launch
}

fn push_str(out: &mut String, s: &str)
    ensures
        final(out)@ == old(out)@ + s@,
{
    let chars = chars_of(s);
    let mut i: usize = 0;
    while i < chars.len()
        invariant
            i <= chars@.len(),
            chars@ == s@,
            out@ == old(out)@ + s@.take(i as int),
        decreases chars@.len() - i,
    {
        push_char(out, chars[i]);
        assert(out@ =~= old(out)@ + s@.take(i + 1));
        i = i + 1;
    }
    assert(s@.take(i as int) =~= s@);
}

/// The command line that runs the host for `encoded_launch`.
pub fn host_command_line(executable: &str, encoded_launch: &str) -> (r: String)
    ensures
        r@ == command_line_of(executable@, encoded_launch@),
{
    let mut r = String::new();
    push_char(&mut r, '"');
    push_str(&mut r, executable);
    push_str(&mut r, "\" serve-encoded ");
    push_str(&mut r, encoded_launch);
    assert(r@ =~= command_line_of(executable@, encoded_launch@));
    r
}

/// Creation flags of the host: detached, in a new process group, and out
/// of the launcher's job when `breakaway`.
pub fn creation_flags(breakaway: bool) -> (r: u32)
    ensures
        breakaway ==> r == DETACHED_PROCESS | CREATE_NEW_PROCESS_GROUP | CREATE_BREAKAWAY_FROM_JOB,
        !breakaway ==> r == DETACHED_PROCESS | CREATE_NEW_PROCESS_GROUP,
{
    if breakaway {
        DETACHED_PROCESS | CREATE_NEW_PROCESS_GROUP | CREATE_BREAKAWAY_FROM_JOB
    } else {
        DETACHED_PROCESS | CREATE_NEW_PROCESS_GROUP
    }
}

/// A job that refuses breakaway (access denied) still allows a detached
/// child: the launch is retried without breakaway, and only then.
pub fn retry_without_breakaway(os_error: Option<i32>) -> (r: bool)
    ensures
        r == (os_error == Some(ERROR_ACCESS_DENIED)),
{
    match os_error {
        Some(code) => code == ERROR_ACCESS_DENIED,
        None => false,
    }
}

/// The exit status of a process whose exit code is `code`: none while it
/// is still running.
pub fn exit_status(code: u32) -> (r: Option<u32>)
    ensures
        code == crate::process_owner::STILL_ACTIVE ==> r is None,
        code != crate::process_owner::STILL_ACTIVE ==> r == Some(code),
{
    if code == crate::process_owner::STILL_ACTIVE {
        None
    } else {
        Some(code)
    }
}

/// The UTF-16 code units of `s`.
pub open spec fn utf16(s: Seq<char>) -> Seq<u16>
    decreases s.len(),
{
    if s.len() == 0 {
        seq![]
    } else {
        utf16(s.drop_last()) + utf16_units(s.last() as u32 as nat)
    }
}

/// `s` as a NUL-terminated UTF-16 string, as Windows calls take it.
pub fn wide_nul(s: &str) -> (r: Vec<u16>)
    ensures
        r@ == utf16(s@).push(0u16),
{
    let chars = chars_of(s);
    let mut r: Vec<u16> = Vec::new();
    let mut i: usize = 0;
    while i < chars.len()
        invariant
            i <= chars@.len(),
            chars@ == s@,
            r@ == utf16(chars@.take(i as int)),
        decreases chars@.len() - i,
    {
        let v = chars[i] as u32;
        let ghost before = r@;
        proof {
            vstd::utf8::char_is_scalar(chars@[i as int]);
        }
        if v < 0x10000 {
            r.push(v as u16);
            assert(r@ =~= before + utf16_units(v as nat));
        } else {
            let w = v - 0x10000;
            r.push((0xD800 + w / 1024) as u16);
            r.push((0xDC00 + w % 1024) as u16);
            assert(r@ =~= before + utf16_units(v as nat));
        }
        proof {
            let t = chars@.take(i + 1);
            assert(t.drop_last() =~= chars@.take(i as int));
            assert(t.last() == chars@[i as int]);
        }
        i = i + 1;
    }
    assert(chars@.take(i as int) =~= chars@);
    r.push(0);
    r
}

} // verus!
