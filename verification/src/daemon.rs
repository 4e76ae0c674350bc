//! Request handling of the session host: authentication and the decision,
//! for each operation, of what to do with the request's data. The host loop
//! (listening, threads, the pseudo console) performs the plans.
use vstd::prelude::*;
use vstd::string::StringSliceAdditionalSpecFns;
use crate::codec::{
    base64_decode, base64_decoding, base64_encode, base64_encoding, constant_time_eq, encoded_command,
    utf16le,
};
use crate::display::{visibility_of, Visibility};
use crate::text::str_equal;

verus! {

broadcast use vstd::string::group_string_axioms;

/// Largest terminal dimension a request may ask for.
pub const MAX_DIMENSION: u64 = 2000;

/// Most scrollback rows a history request returns.
pub const MAX_SCROLLBACK: u64 = 10_000;

/// The fields of a request's data that operations read. `text` is the data
/// itself when it is a string; the others are the like-named members
/// (`bytes`, `clientId`, `rows`, `cols`, `state`, `vt`, `scrollback`,
/// `promptEditor`) when present with the right JSON type (non-negative
/// integers for the numbers).
pub struct RequestData {
    pub text: Option<String>,
    pub bytes: Option<String>,
    pub client_id: Option<u64>,
    pub rows: Option<u64>,
    pub cols: Option<u64>,
    pub state: Option<String>,
    pub vt: Option<bool>,
    pub scrollback: Option<u64>,
    pub prompt_editor: Option<String>,
}

/// Which dimension of a request is invalid.
#[derive(Clone, Copy, Debug, PartialEq, Eq, Structural)]
pub enum Dimension {
    Rows,
    Cols,
}

/// Why a request is refused.
#[derive(Clone, Debug, PartialEq, Eq)]
pub enum ServeError {
    AuthenticationFailed,
    MissingInput,
    /// The input is not valid base64; the decoder's message.
    InvalidInput(String),
    InvalidDimension(Dimension),
    MissingClientId,
    InvalidVisibility,
    UnknownOperation,
    DuplicateClient,
}

impl ServeError {
    pub fn message(&self) -> (r: String)
        ensures
            r@ == match *self {
                ServeError::AuthenticationFailed => "Session authentication failed"@,
                ServeError::MissingInput => "Missing input"@,
                ServeError::InvalidInput(m) => m@,
                ServeError::InvalidDimension(Dimension::Rows) => "Invalid terminal rows"@,
                ServeError::InvalidDimension(Dimension::Cols) => "Invalid terminal cols"@,
                ServeError::MissingClientId => "Missing client id"@,
                ServeError::InvalidVisibility => "Invalid visibility"@,
                ServeError::UnknownOperation => "Unknown native session operation"@,
                ServeError::DuplicateClient => "Duplicate client id"@,
            },
    {
        match self {
            ServeError::AuthenticationFailed => String::from_str("Session authentication failed"),
            ServeError::MissingInput => String::from_str("Missing input"),
            ServeError::InvalidInput(m) => m.clone(),
            ServeError::InvalidDimension(Dimension::Rows) => String::from_str("Invalid terminal rows"),
            ServeError::InvalidDimension(Dimension::Cols) => String::from_str("Invalid terminal cols"),
            ServeError::MissingClientId => String::from_str("Missing client id"),
            ServeError::InvalidVisibility => String::from_str("Invalid visibility"),
            ServeError::UnknownOperation => String::from_str("Unknown native session operation"),
            ServeError::DuplicateClient => String::from_str("Duplicate client id"),
        }
    }
}

/// What the host does for a request.
pub enum Plan {
    /// Stream title publications.
    WatchTitle,
    /// Attach a client (a random id when none is given), with its size when
    /// valid and its prompt editor when it is `monaco` or `code-server`.
    Attach { client_id: Option<u64>, rows: Option<u16>, cols: Option<u16>, prompt_editor: Option<String> },
    Ping,
    /// Write input to the shell, recording the client's activity.
    Input { bytes: Vec<u8>, client_id: Option<u64> },
    /// Resize the terminal unless it already has this size.
    RefreshIfStale { rows: u16, cols: u16 },
    /// Record a client's size, or resize the terminal without a client.
    Resize { client_id: Option<u64>, rows: u16, cols: u16 },
    Visibility { client_id: u64, visibility: Visibility, rows: u16, cols: u16 },
    /// Repaint one client, or all.
    Refresh { client_id: Option<u64> },
    /// Disconnect all clients.
    Detach,
    History { vt: bool, scrollback: usize },
    PromptEditorCapability,
    Grid,
    Kill,
}

/// A valid terminal dimension: 1 to [`MAX_DIMENSION`].
pub open spec fn dimension_of(value: Option<u64>) -> Option<u16> {
    match value {
        Some(v) => if 1 <= v <= MAX_DIMENSION {
            Some(v as u16)
        } else {
            None
        },
        None => None,
    }
}

pub fn dimension(value: Option<u64>) -> (r: Option<u16>)
    ensures
        r == dimension_of(value),
{
    match value {
        Some(v) => if 1 <= v && v <= MAX_DIMENSION {
            Some(v as u16)
        } else {
            None
        },
        None => None,
    }
}

fn required_dimension(value: Option<u64>, which: Dimension) -> (r: Result<u16, ServeError>)
    ensures
        match dimension_of(value) {
            Some(d) => r == Ok::<u16, ServeError>(d),
            None => r == Err::<u16, ServeError>(ServeError::InvalidDimension(which)),
        },
{
    match dimension(value) {
        Some(d) => Ok(d),
        None => Err(ServeError::InvalidDimension(which)),
    }
}

/// Whether a request's token is the session's token. Tokens are compared
/// in constant time once their lengths match.
pub fn authenticate(provided: &str, expected: &str) -> (r: bool)
    ensures
        r == (provided@ == expected@),
{
    let a = provided.as_bytes();
    let b = expected.as_bytes();
    proof {
        vstd::utf8::encode_utf8_decode_utf8(provided@);
        vstd::utf8::encode_utf8_decode_utf8(expected@);
    }
    a.len() == b.len() && constant_time_eq(a, b)
}

pub open spec fn is_editor_name(e: Seq<char>) -> bool {
    e == "monaco"@ || e == "code-server"@
}

/// What [`Plan::of`] decides for operation `op` with `data`.
pub open spec fn planned(op: Seq<char>, data: RequestData, r: Result<Plan, ServeError>) -> bool {
    if op == "watch-title"@ {
        r matches Ok(Plan::WatchTitle)
    } else if op == "attach"@ {
        r matches Ok(Plan::Attach { client_id, rows, cols, prompt_editor }) && client_id
            == data.client_id && rows == dimension_of(data.rows) && cols == dimension_of(data.cols)
            && match prompt_editor {
            Some(e) => data.prompt_editor matches Some(d) && d@ == e@ && is_editor_name(e@),
            None => !(data.prompt_editor matches Some(d) && is_editor_name(d@)),
        }
    } else if op == "ping"@ {
        r matches Ok(Plan::Ping)
    } else if op == "input"@ {
        let source = match data.text {
            Some(t) => Some(t),
            None => data.bytes,
        };
        match source {
            None => r == Err::<Plan, ServeError>(ServeError::MissingInput),
            Some(t) => match base64_decoding(t@) {
                None => r matches Err(ServeError::InvalidInput(_)),
                Some(b) => r matches Ok(Plan::Input { bytes, client_id }) && bytes@ == b && client_id
                    == data.client_id,
            },
        }
    } else if op == "refresh-if-stale"@ {
        match (dimension_of(data.rows), dimension_of(data.cols)) {
            (None, _) => r == Err::<Plan, ServeError>(ServeError::InvalidDimension(Dimension::Rows)),
            (Some(_), None) => r == Err::<Plan, ServeError>(ServeError::InvalidDimension(Dimension::Cols)),
            (Some(rows), Some(cols)) => r matches Ok(Plan::RefreshIfStale { rows: a, cols: b }) && a
                == rows && b == cols,
        }
    } else if op == "resize"@ {
        match (dimension_of(data.rows), dimension_of(data.cols)) {
            (None, _) => r == Err::<Plan, ServeError>(ServeError::InvalidDimension(Dimension::Rows)),
            (Some(_), None) => r == Err::<Plan, ServeError>(ServeError::InvalidDimension(Dimension::Cols)),
            (Some(rows), Some(cols)) => r matches Ok(Plan::Resize { client_id, rows: a, cols: b })
                && a == rows && b == cols && client_id == data.client_id,
        }
    } else if op == "visibility"@ {
        let vis = match data.state {
            Some(s) => visibility_of(s@),
            None => None,
        };
        match (data.client_id, vis, dimension_of(data.rows), dimension_of(data.cols)) {
            (None, _, _, _) => r == Err::<Plan, ServeError>(ServeError::MissingClientId),
            (Some(_), None, _, _) => r == Err::<Plan, ServeError>(ServeError::InvalidVisibility),
            (Some(_), Some(_), None, _) => r == Err::<Plan, ServeError>(
                ServeError::InvalidDimension(Dimension::Rows),
            ),
            (Some(_), Some(_), Some(_), None) => r == Err::<Plan, ServeError>(
                ServeError::InvalidDimension(Dimension::Cols),
            ),
            (Some(id), Some(v), Some(rows), Some(cols)) => r matches Ok(
                Plan::Visibility { client_id, visibility, rows: a, cols: b },
            ) && client_id == id && visibility == v && a == rows && b == cols,
        }
    } else if op == "refresh"@ {
        r matches Ok(Plan::Refresh { client_id }) && client_id == data.client_id
    } else if op == "detach"@ {
        r matches Ok(Plan::Detach)
    } else if op == "history"@ {
        r matches Ok(Plan::History { vt, scrollback }) && vt == (data.vt == Some(true))
            && scrollback == match data.scrollback {
            Some(s) => if s <= MAX_SCROLLBACK {
                s
            } else {
                MAX_SCROLLBACK
            },
            None => 0,
        }
    } else if op == "prompt-editor-capability"@ {
        r matches Ok(Plan::PromptEditorCapability)
    } else if op == "grid"@ {
        r matches Ok(Plan::Grid)
    } else if op == "kill"@ {
        r matches Ok(Plan::Kill)
    } else {
        r == Err::<Plan, ServeError>(ServeError::UnknownOperation)
    }
}

impl Plan {
    /// Decides what to do for `operation` with `data`: the plan, or the
    /// refusal the host answers with.
    pub fn of(operation: &str, data: &RequestData) -> (r: Result<Plan, ServeError>)
        ensures
            planned(operation@, *data, r),
    {
        if str_equal(operation, "watch-title") {
            return Ok(Plan::WatchTitle);
        }
        if str_equal(operation, "attach") {
            let prompt_editor = match &data.prompt_editor {
                Some(e) => if str_equal(e.as_str(), "monaco") || str_equal(e.as_str(), "code-server") {
                    Some(e.clone())
                } else {
                    None
                },
                None => None,
            };
            return Ok(
                Plan::Attach {
                    client_id: data.client_id,
                    rows: dimension(data.rows),
                    cols: dimension(data.cols),
                    prompt_editor,
                },
            );
        }
        if str_equal(operation, "ping") {
            return Ok(Plan::Ping);
        }
        if str_equal(operation, "input") {
            let source = match &data.text {
                Some(t) => Some(t),
                None => match &data.bytes {
                    Some(b) => Some(b),
                    None => None,
                },
            };
            return match source {
                None => Err(ServeError::MissingInput),
                Some(t) => match base64_decode(t.as_str()) {
                    Err(text) => Err(ServeError::InvalidInput(text)),
                    Ok(bytes) => Ok(Plan::Input { bytes, client_id: data.client_id }),
                },
            };
        }
        if str_equal(operation, "refresh-if-stale") {
            let rows = required_dimension(data.rows, Dimension::Rows)?;
            let cols = required_dimension(data.cols, Dimension::Cols)?;
            return Ok(Plan::RefreshIfStale { rows, cols });
        }
        if str_equal(operation, "resize") {
            let rows = required_dimension(data.rows, Dimension::Rows)?;
            let cols = required_dimension(data.cols, Dimension::Cols)?;
            return Ok(Plan::Resize { client_id: data.client_id, rows, cols });
        }
        if str_equal(operation, "visibility") {
            let client_id = match data.client_id {
                Some(id) => id,
                None => {
                    return Err(ServeError::MissingClientId);
                },
            };
            let visibility = match &data.state {
                Some(s) => Visibility::parse(s.as_str()),
                None => None,
            };
            let visibility = match visibility {
                Some(v) => v,
                None => {
                    return Err(ServeError::InvalidVisibility);
                },
            };
            let rows = required_dimension(data.rows, Dimension::Rows)?;
            let cols = required_dimension(data.cols, Dimension::Cols)?;
            return Ok(Plan::Visibility { client_id, visibility, rows, cols });
        }
        if str_equal(operation, "refresh") {
            return Ok(Plan::Refresh { client_id: data.client_id });
        }
        if str_equal(operation, "detach") {
            return Ok(Plan::Detach);
        }
        if str_equal(operation, "history") {
            let vt = match data.vt {
                Some(v) => v,
                None => false,
            };
            let scrollback = match data.scrollback {
                Some(s) => if s <= MAX_SCROLLBACK {
                    s
                } else {
                    MAX_SCROLLBACK
                },
                None => 0,
            };
            return Ok(Plan::History { vt, scrollback: scrollback as usize });
        }
        if str_equal(operation, "prompt-editor-capability") {
            return Ok(Plan::PromptEditorCapability);
        }
        if str_equal(operation, "grid") {
            return Ok(Plan::Grid);
        }
        if str_equal(operation, "kill") {
            return Ok(Plan::Kill);
        }
        Err(ServeError::UnknownOperation)
    }
}

/// Concurrent request handlers a host runs at most; further connections
/// are closed unanswered.
pub const MAX_WORKERS: usize = 64;

/// 32 bytes from `rand::thread_rng().fill_bytes`. Nothing is known of them
/// beyond their number.
#[verifier::external_body]
fn random_secret() -> [u8; 32] {
    let mut secret = [0u8; 32];
    rand::RngCore::fill_bytes(&mut rand::thread_rng(), &mut secret);
    secret
}

/// A random number from `rand::random::<u64>()`. Nothing is known of it
/// beyond its type.
#[verifier::external_body]
fn random_u64() -> u64 {
    rand::random::<u64>()
}

/// A fresh session token: 32 random bytes in base64.
pub fn new_session_token() -> (r: String)
    ensures
        exists|secret: Seq<u8>| secret.len() == 32 && r@ == base64_encoding(secret),
{
    let secret = random_secret();
    let r = base64_encode(&secret);
    assert(secret@.len() == 32);
    r
}

/// The id of an attaching client: the one it asked for, else a random one.
pub fn attach_client_id(requested: Option<u64>) -> (r: u64)
    ensures
        requested is Some ==> r == requested.unwrap(),
{
    match requested {
        Some(id) => id,
        None => random_u64(),
    }
}

/// Terminal output as a frame carries it: base64.
pub fn encode_output(bytes: &Vec<u8>) -> (r: String)
    requires
        bytes@.len() <= usize::MAX / 4 * 3,
    ensures
        r@ == base64_encoding(bytes@),
{
    base64_encode(bytes.as_slice())
}

/// The shell's arguments after its path: `-NoLogo -NoExit -EncodedCommand`
/// and the startup code (none: empty) as an encoded command.
pub fn shell_arguments(startup: &Option<String>) -> (r: Vec<String>)
    requires
        startup matches Some(s) ==> utf16le(s@).len() <= usize::MAX / 4 * 3,
    ensures
        r@.len() == 4,
        r@[0]@ == "-NoLogo"@,
        r@[1]@ == "-NoExit"@,
        r@[2]@ == "-EncodedCommand"@,
        r@[3]@ == base64_encoding(utf16le(
            match startup {
                Some(s) => s@,
                None => Seq::<char>::empty(),
            },
        )),
{
    let encoded = match startup {
        Some(s) => encoded_command(s.as_str()),
        None => {
            let empty = String::new();
            encoded_command(empty.as_str())
        },
    };
    let mut r: Vec<String> = Vec::new();
    r.push(String::from_str("-NoLogo"));
    r.push(String::from_str("-NoExit"));
    r.push(String::from_str("-EncodedCommand"));
    r.push(encoded);
    r
}

/// The shell's environment additions: terminal type and colour support,
/// `TERM_PROGRAM` (kept when set, else `wmx`), and the session name as
/// `WMX_SESSION` and `ZMX_SESSION`.
pub fn session_environment(name: &str, term_program: Option<String>) -> (r: Vec<(String, String)>)
    ensures
        r@.len() == 5,
        r@[0].0@ == "TERM"@ && r@[0].1@ == "xterm-256color"@,
        r@[1].0@ == "COLORTERM"@ && r@[1].1@ == "truecolor"@,
        r@[2].0@ == "TERM_PROGRAM"@ && r@[2].1@ == match term_program {
            Some(t) => t@,
            None => "wmx"@,
        },
        r@[3].0@ == "WMX_SESSION"@ && r@[3].1@ == name@,
        r@[4].0@ == "ZMX_SESSION"@ && r@[4].1@ == name@,
{
    let program = match term_program {
        Some(t) => t,
        None => String::from_str("wmx"),
    };
    let mut r: Vec<(String, String)> = Vec::new();
    r.push((String::from_str("TERM"), String::from_str("xterm-256color")));
    r.push((String::from_str("COLORTERM"), String::from_str("truecolor")));
    r.push((String::from_str("TERM_PROGRAM"), program));
    r.push((String::from_str("WMX_SESSION"), String::from_str(name)));
    r.push((String::from_str("ZMX_SESSION"), String::from_str(name)));
    r
}

/// Input a client sends is the input the shell receives: when the
/// request's data carries, as itself or as its `bytes` member, a payload
/// that decodes to `bytes` (as the payloads clients make do), the host plans
/// to write exactly `bytes`, recording the client the data names.
pub proof fn law_sent_input_arrives(bytes: Seq<u8>, payload: Seq<char>, data: RequestData, r: Result<Plan, ServeError>)
    requires
        base64_decoding(payload) == Some(bytes),
        (data.text matches Some(t) && t@ == payload) || (data.text is None && (data.bytes matches Some(
            t,
        ) && t@ == payload)),
        planned("input"@, data, r),
    ensures
        r matches Ok(Plan::Input { bytes: b, client_id }) && b@ == bytes && client_id == data.client_id,
{
    reveal_strlit("input");
    reveal_strlit("watch-title");
    reveal_strlit("attach");
    reveal_strlit("ping");
    assert("input"@ != "watch-title"@) by {
        assert("input"@.len() != "watch-title"@.len());
    }
    assert("input"@ != "attach"@) by {
        assert("input"@.len() != "attach"@.len());
    }
    assert("input"@ != "ping"@) by {
        assert("input"@.len() != "ping"@.len());
    }
    let source = match data.text {
        Some(t) => Some(t),
        None => data.bytes,
    };
    assert(source matches Some(t) && t@ == payload);
}

/// An attaching client is admitted unless a client with its id is attached.
pub fn admit_client(attached: &Vec<u64>, id: u64) -> (r: Result<(), ServeError>)
    ensures
        attached@.contains(id) ==> r == Err::<(), ServeError>(ServeError::DuplicateClient),
        !attached@.contains(id) ==> r == Ok::<(), ServeError>(()),
{
    let mut i: usize = 0;
    while i < attached.len()
        invariant
            i <= attached@.len(),
            forall|j: int| 0 <= j < i ==> attached@[j] != id,
        decreases attached@.len() - i,
    {
        if attached[i] == id {
            assert(attached@[i as int] == id);
            return Err(ServeError::DuplicateClient);
        }
        i = i + 1;
    }
    Ok(())
}

/// The size an attaching client is recorded with: the rows and columns it
/// asked for, where valid, else the terminal's current ones.
pub fn attach_size(rows: Option<u16>, cols: Option<u16>, current: (u16, u16)) -> (r: (u16, u16))
    ensures
        r.0 == match rows {
            Some(x) => x,
            None => current.0,
        },
        r.1 == match cols {
            Some(x) => x,
            None => current.1,
        },
{
    let a = match rows {
        Some(x) => x,
        None => current.0,
    };
    let b = match cols {
        Some(x) => x,
        None => current.1,
    };
    (a, b)
}

/// A refresh-if-stale request applies, resizing the terminal, exactly when
/// the terminal's size differs from the one the client saw.
pub fn refresh_applies(current: (u16, u16), rows: u16, cols: u16) -> (r: bool)
    ensures
        r == (current != (rows, cols)),
{
    !(current.0 == rows && current.1 == cols)
}

} // verus!
