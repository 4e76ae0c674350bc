//! Session registry records and wire framing. Messages are JSON documents
//! framed by a trailing newline and limited to [`MAX_FRAME`] bytes; each
//! session's registry record is named by the SHA-256 of its name.
use vstd::prelude::*;
use vstd::string::StringSliceAdditionalSpecFns;
use crate::codec::{lower_hex, sha256, sha256_digest, to_lower_hex};
use crate::text::{find_byte, first_index_where, byte_is, push_range, str_equal, push_char};

verus! {

/// Bumped only for incompatible wire changes; additive operations are
/// probed as capabilities.
pub const WIRE_GENERATION: u32 = 1;

/// Largest message, in bytes, without its newline.
pub const MAX_FRAME: usize = 2 * 1024 * 1024;

/// How to start a session.
pub struct Launch {
    pub name: String,
    pub cwd: String,
    pub shell: String,
    pub startup: Option<String>,
}

/// A running session's registry record.
pub struct Endpoint {
    pub protocol: u32,
    pub name: String,
    pub port: u16,
    pub token: String,
    pub pid: u32,
    pub shell_pid: u32,
}

impl Clone for Endpoint {
    fn clone(&self) -> (r: Self)
        ensures
            r == *self,
    {
        Endpoint {
            protocol: self.protocol,
            name: self.name.clone(),
            port: self.port,
            token: self.token.clone(),
            pid: self.pid,
            shell_pid: self.shell_pid,
        }
    }
}

/// Why a registry record cannot be used.
#[derive(Clone, Copy, Debug, PartialEq, Eq, Structural)]
pub enum EndpointError {
    UnsupportedProtocol,
    IdentityMismatch,
}

impl EndpointError {
    pub fn message(&self) -> (r: &'static str)
        ensures
            r@ == match *self {
                EndpointError::UnsupportedProtocol => "This native session uses an unsupported protocol version"@,
                EndpointError::IdentityMismatch => "Session endpoint identity does not match"@,
            },
    {
        match self {
            EndpointError::UnsupportedProtocol => "This native session uses an unsupported protocol version",
            EndpointError::IdentityMismatch => "Session endpoint identity does not match",
        }
    }
}

/// A registry record is usable for session `name` when it speaks protocol 1
/// and names that session.
pub fn check_endpoint(endpoint: &Endpoint, name: &str) -> (r: Result<(), EndpointError>)
    ensures
        endpoint.protocol != 1 ==> r == Err::<(), EndpointError>(EndpointError::UnsupportedProtocol),
        endpoint.protocol == 1 && endpoint.name@ != name@ ==> r == Err::<(), EndpointError>(
            EndpointError::IdentityMismatch,
        ),
        endpoint.protocol == 1 && endpoint.name@ == name@ ==> r is Ok,
{
    if endpoint.protocol != 1 {
        return Err(EndpointError::UnsupportedProtocol);
    }
    if !str_equal(endpoint.name.as_str(), name) {
        return Err(EndpointError::IdentityMismatch);
    }
    Ok(())
}

/// Why a frame cannot be sent or received.
#[derive(Clone, Copy, Debug, PartialEq, Eq, Structural)]
pub enum FrameError {
    TooLarge,
    Closed,
}

impl FrameError {
    pub fn message(&self) -> (r: &'static str)
        ensures
            r@ == match *self {
                FrameError::TooLarge => "Session message exceeds its size limit"@,
                FrameError::Closed => "Session connection closed"@,
            },
    {
        match self {
            FrameError::TooLarge => "Session message exceeds its size limit",
            FrameError::Closed => "Session connection closed",
        }
    }
}

/// Frames a serialised message: the message and a newline, unless it is
/// longer than [`MAX_FRAME`].
pub fn frame(message: Vec<u8>) -> (r: Result<Vec<u8>, FrameError>)
    ensures
        message@.len() > MAX_FRAME ==> r == Err::<Vec<u8>, FrameError>(FrameError::TooLarge),
        message@.len() <= MAX_FRAME ==> (r matches Ok(v) && v@ == message@.push(0x0a)),
{
    if message.len() > MAX_FRAME {
        return Err(FrameError::TooLarge);
    }
    let mut bytes = message;
    bytes.push(0x0a);
    Ok(bytes)
}

/// Assembles one newline-terminated frame from buffered reads.
pub struct FrameReader {
    bytes: Vec<u8>,
}

impl View for FrameReader {
    type V = Seq<u8>;

    closed spec fn view(&self) -> Seq<u8> {
        self.bytes@
    }
}

/// How many of the `available` bytes a reader takes: up to and including
/// the first newline, or all of them.
pub open spec fn frame_take(available: Seq<u8>) -> nat {
    let k = first_index_where(available, byte_is(0x0a));
    if k < available.len() {
        k + 1
    } else {
        available.len()
    }
}

/// What a reader holding `held` does with the buffered bytes `available`:
/// its answer and the bytes it then holds.
pub open spec fn accepted(held: Seq<u8>, available: Seq<u8>) -> (Result<(usize, bool), FrameError>, Seq<u8>) {
    if available.len() == 0 {
        (Err(FrameError::Closed), held)
    } else if held.len() + frame_take(available) > MAX_FRAME {
        (Err(FrameError::TooLarge), held)
    } else {
        let n = frame_take(available);
        (Ok((n as usize, available[n - 1] == 0x0a)), held + available.take(n as int))
    }
}

/// A message written as a frame is read back whole: a fresh reader given
/// the frame takes all of it in one step, finds it complete, and holds
/// exactly the message and its newline. Messages are serialised JSON, which
/// holds no raw newline.
pub proof fn law_frame_round_trip(message: Seq<u8>)
    requires
        message.len() < MAX_FRAME,
        !message.contains(0x0a),
    ensures
        accepted(Seq::empty(), message.push(0x0a)) == (
            Ok::<(usize, bool), FrameError>(((message.len() + 1) as usize, true)),
            message.push(0x0a),
        ),
{
    let framed = message.push(0x0a);
    assert forall|j: int| 0 <= j < message.len() implies !byte_is(0x0a)(#[trigger] framed[j]) by {
        assert(framed[j] == message[j]);
        if message[j] == 0x0a {
            assert(message.contains(0x0a));
        }
    }
    crate::text::lemma_first_index_where(framed, byte_is(0x0a), message.len() as int);
    assert(frame_take(framed) == message.len() + 1);
    assert(Seq::<u8>::empty() + framed.take(framed.len() as int) =~= framed);
}

/// A frame followed by other bytes in the same read is taken alone: the
/// reader takes exactly the frame, finds it complete, and leaves what follows
/// unread.
pub proof fn law_frame_round_trip_leaves_rest(message: Seq<u8>, rest: Seq<u8>)
    requires
        message.len() < MAX_FRAME,
        !message.contains(0x0a),
    ensures
        accepted(Seq::empty(), message.push(0x0a) + rest) == (
            Ok::<(usize, bool), FrameError>(((message.len() + 1) as usize, true)),
            message.push(0x0a),
        ),
{
    let framed = message.push(0x0a);
    let all = framed + rest;
    assert forall|j: int| 0 <= j < message.len() implies !byte_is(0x0a)(#[trigger] all[j]) by {
        assert(all[j] == message[j]);
        if message[j] == 0x0a {
            assert(message.contains(0x0a));
        }
    }
    assert(all[message.len() as int] == 0x0a);
    crate::text::lemma_first_index_where(all, byte_is(0x0a), message.len() as int);
    assert(all.take(framed.len() as int) =~= framed);
    assert(Seq::<u8>::empty() + all.take(framed.len() as int) =~= framed);
}

/// The same holds however the connection splits the frame in two: after
/// the first part the reader holds it and waits, and the second part
/// completes the frame with exactly the message and its newline.
pub proof fn law_split_frame_round_trip(message: Seq<u8>, k: int)
    requires
        message.len() < MAX_FRAME,
        !message.contains(0x0a),
        0 < k <= message.len(),
    ensures
        accepted(Seq::empty(), message.push(0x0a).take(k)) == (
            Ok::<(usize, bool), FrameError>((k as usize, false)),
            message.push(0x0a).take(k),
        ),
        accepted(message.push(0x0a).take(k), message.push(0x0a).skip(k)) == (
            Ok::<(usize, bool), FrameError>(((message.len() + 1 - k) as usize, true)),
            message.push(0x0a),
        ),
{
    let framed = message.push(0x0a);
    let a = framed.take(k);
    let b = framed.skip(k);
    assert forall|j: int| 0 <= j < a.len() implies !byte_is(0x0a)(#[trigger] a[j]) by {
        assert(a[j] == message[j]);
        if message[j] == 0x0a {
            assert(message.contains(0x0a));
        }
    }
    crate::text::lemma_first_index_where(a, byte_is(0x0a), a.len() as int);
    assert forall|j: int| 0 <= j < b.len() - 1 implies !byte_is(0x0a)(#[trigger] b[j]) by {
        assert(b[j] == message[j + k]);
        if message[j + k] == 0x0a {
            assert(message.contains(0x0a));
        }
    }
    assert(b[b.len() - 1] == 0x0a);
    crate::text::lemma_first_index_where(b, byte_is(0x0a), b.len() - 1);
    assert(Seq::<u8>::empty() + a.take(a.len() as int) =~= a);
    assert(a + b.take(b.len() as int) =~= framed);
}

impl FrameReader {
    pub fn new() -> (r: Self)
        ensures
            r@ == Seq::<u8>::empty(),
    {
        FrameReader { bytes: Vec::new() }
    }

    /// Takes bytes from the buffered `available` bytes: returns how many
    /// were taken and whether the frame is complete (ends in a newline).
    /// Empty `available` means the peer closed the connection; a frame longer
    /// than [`MAX_FRAME`] bytes is refused.
    pub fn accept(&mut self, available: &[u8]) -> (r: Result<(usize, bool), FrameError>)
        ensures
            (r, final(self)@) == accepted(old(self)@, available@),
    {
        if available.len() == 0 {
            return Err(FrameError::Closed);
        }
        let k = find_byte(available, 0, available.len(), 0x0a);
        assert(available@.subrange(0, available@.len() as int) =~= available@);
        let count = if k < available.len() {
            k + 1
        } else {
            available.len()
        };
        if self.bytes.len() > MAX_FRAME || count > MAX_FRAME - self.bytes.len() {
            return Err(FrameError::TooLarge);
        }
        push_range(&mut self.bytes, available, 0, count);
        assert(available@.subrange(0, count as int) =~= available@.take(count as int));
        Ok((count, available[count - 1] == 0x0a))
    }

    /// The assembled bytes.
    pub fn into_bytes(self) -> (r: Vec<u8>)
        ensures
            r@ == self@,
    {
        self.bytes
    }
}

/// `.json`
pub open spec fn json_extension() -> Seq<char> {
    seq!['.', 'j', 's', 'o', 'n']
}

/// File name of a session's registry record: the lowercase hex SHA-256 of
/// the session name's UTF-8 bytes, then `.json`.
pub fn registry_file_name(name: &str) -> (r: String)
    ensures
        r@ == lower_hex(sha256_digest(name.spec_bytes())) + json_extension(),
{
    let digest = sha256(name.as_bytes());
    let hex = to_lower_hex(digest.as_slice());
    let mut r = String::new();
    let mut i: usize = 0;
    while i < hex.len()
        invariant
            i <= hex@.len(),
            r@ == hex@.take(i as int),
        decreases hex@.len() - i,
    {
        push_char(&mut r, hex[i]);
        assert(r@ =~= hex@.take(i + 1));
        i = i + 1;
    }
    assert(hex@.take(i as int) =~= hex@);
    let ext: [char; 5] = ['.', 'j', 's', 'o', 'n'];
    let mut j: usize = 0;
    while j < 5
        invariant
            j <= 5,
            ext@ == json_extension(),
            r@ == hex@ + json_extension().take(j as int),
        decreases 5 - j,
    {
        push_char(&mut r, ext[j]);
        assert(r@ =~= hex@ + json_extension().take(j + 1));
        j = j + 1;
    }
    assert(json_extension().take(5) =~= json_extension());
    r
}

/// Whether a registry directory entry named `file_name` is a session
/// record: its extension (the text after the last `.`, that dot not
/// leading the name) is `json`.
pub fn is_record_file(file_name: &str) -> (r: bool)
    ensures
        r == (file_name@.len() > 5 && file_name@.skip(file_name@.len() - 5) == json_extension()),
{
    let chars = crate::text::chars_of(file_name);
    let n = chars.len();
    if n <= 5 {
        return false;
    }
    let ext: [char; 5] = ['.', 'j', 's', 'o', 'n'];
    let mut i: usize = 0;
    while i < 5
        invariant
            i <= 5,
            n == chars@.len(),
            n > 5,
            chars@ == file_name@,
            ext@ == json_extension(),
            forall|j: int| 0 <= j < i ==> chars@[n - 5 + j] == json_extension()[j],
        decreases 5 - i,
    {
        if chars[n - 5 + i] != ext[i] {
            assert(file_name@.skip(n - 5)[i as int] != json_extension()[i as int]);
            return false;
        }
        i = i + 1;
    }
    assert(file_name@.skip(n - 5) =~= json_extension());
    true
}

} // verus!
