//! The decisions of an attached client: which request each filtered input
//! event becomes, when a terminal size change is reported, and what a frame
//! from the host means. The client loop (console, threads, sockets) performs
//! them.
use vstd::prelude::*;
use crate::codec::{base64_decode, base64_decoding, base64_encode, base64_encoding};
use crate::input::Input;
use crate::text::str_equal;

verus! {

/// A random number from `rand::random::<u32>()`. Nothing is known of it
/// beyond its type.
#[verifier::external_body]
fn random_u32() -> u32 {
    rand::random::<u32>()
}

/// A fresh client id: a random 32-bit number.
pub fn new_client_id() -> (r: u64)
    ensures
        r <= u32::MAX,
{
    random_u32() as u64
}

/// Whether the host's advertised capabilities include per-client
/// visibility (`client-visibility`).
pub fn supports_visibility(capabilities: &Vec<String>) -> (r: bool)
    ensures
        r == exists|i: int| 0 <= i < capabilities@.len() && capabilities@[i]@ == "client-visibility"@,
{
    let mut i: usize = 0;
    while i < capabilities.len()
        invariant
            i <= capabilities@.len(),
            forall|j: int| 0 <= j < i ==> capabilities@[j]@ != "client-visibility"@,
        decreases capabilities@.len() - i,
    {
        if str_equal(capabilities[i].as_str(), "client-visibility") {
            return true;
        }
        i = i + 1;
    }
    false
}

/// A request to the host.
pub enum Route {
    /// Leave the session.
    Detach,
    /// Nothing to send.
    Skip,
    /// `input`: the base64 bytes, with the client id for hosts that track
    /// clients.
    Input { payload: String, client_id: Option<u64> },
    /// `visibility` of this client.
    Visibility { client_id: u64, state: &'static str, rows: u16, cols: u16 },
    /// `resize`, for this client when the host tracks clients.
    Resize { client_id: Option<u64>, rows: u16, cols: u16 },
    /// `refresh` of this client.
    Refresh { client_id: u64 },
}

/// The input event is small enough to encode.
pub open spec fn encodable(event: &Input) -> bool {
    event matches Input::Bytes(b) ==> b@.len() <= usize::MAX / 4 * 3
}

/// Which request an input event becomes. With per-client visibility every
/// event carries the client id; without it, a `visible` or `chat` report
/// becomes a plain resize and `parked` reports and refreshes are dropped.
pub fn route(event: Input, supports_visibility: bool, client_id: u64) -> (r: Route)
    requires
        encodable(&event),
    ensures
        match event {
            Input::Detach => r is Detach,
            Input::Bytes(b) => r matches Route::Input { payload, client_id: c } && payload@
                == base64_encoding(b@) && c == (if supports_visibility {
                Some(client_id)
            } else {
                None
            }),
            Input::Visibility { state, rows, cols } => if supports_visibility {
                r == (Route::Visibility { client_id, state, rows, cols })
            } else if state@ == "visible"@ || state@ == "chat"@ {
                r == (Route::Resize { client_id: None, rows, cols })
            } else {
                r is Skip
            },
            Input::Refresh => if supports_visibility {
                r == (Route::Refresh { client_id })
            } else {
                r is Skip
            },
        },
{
    match event {
        Input::Detach => Route::Detach,
        Input::Bytes(bytes) => {
            let payload = base64_encode(bytes.as_slice());
            Route::Input {
                payload,
                client_id: if supports_visibility {
                    Some(client_id)
                } else {
                    None
                },
            }
        },
        Input::Visibility { state, rows, cols } => {
            if supports_visibility {
                Route::Visibility { client_id, state, rows, cols }
            } else if str_equal(state, "visible") || str_equal(state, "chat") {
                Route::Resize { client_id: None, rows, cols }
            } else {
                Route::Skip
            }
        },
        Input::Refresh => {
            if supports_visibility {
                Route::Refresh { client_id }
            } else {
                Route::Skip
            }
        },
    }
}

/// The report of a terminal size change: `None` while the size is the one
/// last reported.
pub fn size_report(previous: (u16, u16), rows: u16, cols: u16, supports_visibility: bool, client_id: u64) -> (r: Option<Route>)
    ensures
        previous == (rows, cols) ==> r is None,
        previous != (rows, cols) ==> r == Some(
            Route::Resize {
                client_id: if supports_visibility {
                    Some(client_id)
                } else {
                    None
                },
                rows,
                cols,
            },
        ),
{
    if previous.0 == rows && previous.1 == cols {
        None
    } else {
        Some(
            Route::Resize {
                client_id: if supports_visibility {
                    Some(client_id)
                } else {
                    None
                },
                rows,
                cols,
            },
        )
    }
}

/// Why a frame from the host ends the attachment.
pub enum OutputError {
    /// The host reported this error.
    Remote(String),
    /// The frame holds no terminal output.
    Missing,
    /// The output is not valid base64; the decoder's message.
    InvalidEncoding(String),
}

impl OutputError {
    pub fn message(&self) -> (r: String)
        ensures
            self matches OutputError::Remote(m) ==> r@ == m@,
            self is Missing ==> r@ == "Invalid terminal output"@,
            self matches OutputError::InvalidEncoding(m) ==> r@ == m@,
    {
        match self {
            OutputError::Remote(m) => m.clone(),
            OutputError::Missing => String::from_str("Invalid terminal output"),
            OutputError::InvalidEncoding(m) => m.clone(),
        }
    }
}

/// The terminal bytes a host frame carries, given its `error` and `output`
/// members (when they are strings): an error first, then the decoded output.
pub fn decode_output(error: Option<String>, output: Option<String>) -> (r: Result<Vec<u8>, OutputError>)
    ensures
        error matches Some(e) ==> (r matches Err(OutputError::Remote(m)) && m@ == e@),
        error is None ==> match output {
            None => r matches Err(OutputError::Missing),
            Some(o) => match base64_decoding(o@) {
                Some(b) => r matches Ok(v) && v@ == b,
                None => r matches Err(OutputError::InvalidEncoding(_)),
            },
        },
{
    if let Some(e) = error {
        return Err(OutputError::Remote(e));
    }
    match output {
        None => Err(OutputError::Missing),
        Some(o) => match base64_decode(o.as_str()) {
            Ok(bytes) => Ok(bytes),
            Err(text) => Err(OutputError::InvalidEncoding(text)),
        },
    }
}

} // verus!
