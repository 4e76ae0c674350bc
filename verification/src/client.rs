//! Starting a session: the launcher pings the session, spawns a host when
//! it does not answer, and waits for the host to answer, at most
//! [`START_ATTEMPTS`] times.
use vstd::prelude::*;
use crate::text::{decimal, push_char, push_decimal};

verus! {

/// Pings while waiting for a new host (50 ms apart).
pub const START_ATTEMPTS: u32 = 100;

/// Why a session did not start.
#[derive(Clone, Copy, Debug, PartialEq, Eq, Structural)]
pub enum StartError {
    /// The host exited with this status before answering.
    HostExited(u32),
    /// The host did not answer in time; it is terminated.
    NotReady,
}

/// ASCII bytes as characters.
pub open spec fn ascii(s: Seq<u8>) -> Seq<char> {
    s.map_values(|b: u8| b as char)
}

fn push_ascii(out: &mut String, bytes: &Vec<u8>)
    ensures
        final(out)@ == old(out)@ + ascii(bytes@),
{
    let mut i: usize = 0;
    while i < bytes.len()
        invariant
            i <= bytes@.len(),
            out@ == old(out)@ + ascii(bytes@.take(i as int)),
        decreases bytes@.len() - i,
    {
        push_char(out, bytes[i] as char);
        assert(ascii(bytes@.take(i + 1)) =~= ascii(bytes@.take(i as int)).push(bytes@[i as int] as char));
        assert(out@ =~= old(out)@ + ascii(bytes@.take(i + 1)));
        i = i + 1;
    }
    assert(bytes@.take(i as int) =~= bytes@);
}

impl StartError {
    pub fn message(&self) -> (r: String)
        ensures
            self matches StartError::HostExited(s) ==> r@ == "Native session host exited with status "@
                + ascii(decimal(s as nat)),
            self is NotReady ==> r@ == "Native PowerShell session did not become ready"@,
    {
        match self {
            StartError::HostExited(status) => {
                let mut r = String::from_str("Native session host exited with status ");
                let mut digits: Vec<u8> = Vec::new();
                push_decimal(&mut digits, *status as u64);
                assert(digits@ == decimal(*status as nat));
                push_ascii(&mut r, &digits);
                r
            },
            StartError::NotReady => String::from_str("Native PowerShell session did not become ready"),
        }
    }
}

/// What the launcher does after one ping of the new host.
#[derive(Clone, Copy, Debug, PartialEq, Eq, Structural)]
pub enum StartStep {
    /// The session answers.
    Ready,
    /// Wait and ping again.
    Wait,
    /// Give up.
    Fail(StartError),
}

/// The step after a ping: ready when the host answered, a failure when it
/// has exited (with its status), else wait. `exited` is only consulted when
/// the ping failed.
pub fn start_step(ping_ok: bool, exited: Option<u32>) -> (r: StartStep)
    ensures
        ping_ok ==> r == StartStep::Ready,
        !ping_ok && exited is Some ==> r == StartStep::Fail(StartError::HostExited(exited.unwrap())),
        !ping_ok && exited is None ==> r == StartStep::Wait,
{
    if ping_ok {
        StartStep::Ready
    } else {
        match exited {
            Some(status) => StartStep::Fail(StartError::HostExited(status)),
            None => StartStep::Wait,
        }
    }
}

} // verus!
