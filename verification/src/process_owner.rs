//! Whether the process a registry record names is still that session's
//! host. Windows may reuse a recorded process id, so the process must be
//! running, run a host image, and have been created no later than the record
//! was written. The host queries Windows; this module decides.
use vstd::prelude::*;
use crate::protocol::Endpoint;
use crate::text::{chars_of, starts_with, str_equal, string_of};

verus! {

/// Exit code Windows reports for a process that is still running
/// (`STILL_ACTIVE`).
pub const STILL_ACTIVE: u32 = 259;

/// 100-nanosecond ticks from 1601-01-01 (the `FILETIME` epoch) to
/// 1970-01-01.
pub const UNIX_EPOCH_TICKS: u128 = 116_444_736_000_000_000;

/// What `str::to_lowercase` gives for `s`.
pub uninterp spec fn lowercase_of(s: Seq<char>) -> Seq<char>;

/// `str::to_lowercase`: the Unicode lowercase of `s`, named
/// [`lowercase_of`].
#[verifier::external_body]
fn to_lowercase(s: &str) -> (r: String)
    ensures
        r@ == lowercase_of(s@),
{
    s.to_lowercase()
}

/// A path separator: `\`, and `/` outside verbatim paths.
pub open spec fn is_separator(c: char, verbatim: bool) -> bool {
    c == '\\' || (!verbatim && c == '/')
}

/// Index of the first separator at or after `i`, or the length.
pub open spec fn next_separator(s: Seq<char>, i: int, verbatim: bool) -> int
    decreases s.len() - i,
{
    if i < 0 || i >= s.len() {
        s.len() as int
    } else if is_separator(s[i], verbatim) {
        i
    } else {
        next_separator(s, i + 1, verbatim)
    }
}

/// A verbatim path, `\\?\...`: only `\` separates its components.
pub open spec fn is_verbatim(s: Seq<char>) -> bool {
    starts_with(s, seq!['\\', '\\', '?', '\\'])
}

/// A drive prefix such as `C:`.
pub open spec fn has_drive(c: Seq<char>) -> bool {
    c.len() >= 2 && c[1] == ':' && (('a' <= c[0] <= 'z') || ('A' <= c[0] <= 'Z'))
}

/// Length of the path's Windows prefix: `\\?\UNC\server\share`, `\\?\x`
/// (including `\\?\C:`), `\\.\x`, `\\server\share` (both parts non-empty),
/// or a drive `C:`; 0 without one.
pub open spec fn prefix_len(s: Seq<char>) -> int {
    if is_verbatim(s) {
        if starts_with(s.skip(4), seq!['U', 'N', 'C', '\\']) {
            let k = next_separator(s, 8, true);
            if k >= s.len() {
                s.len() as int
            } else {
                next_separator(s, k + 1, true)
            }
        } else {
            next_separator(s, 4, true)
        }
    } else if starts_with(s, seq!['\\', '\\', '.', '\\']) {
        next_separator(s, 4, false)
    } else if starts_with(s, seq!['\\', '\\']) {
        let k = next_separator(s, 2, false);
        if 2 < k < s.len() && next_separator(s, k + 1, false) > k + 1 {
            next_separator(s, k + 1, false)
        } else {
            0
        }
    } else if has_drive(s) {
        2
    } else {
        0
    }
}

/// `end` moved left past trailing separators, not below `lo`.
pub open spec fn strip_separators(s: Seq<char>, lo: int, end: int, verbatim: bool) -> int
    decreases end,
{
    if 0 <= lo < end <= s.len() && is_separator(s[end - 1], verbatim) {
        strip_separators(s, lo, end - 1, verbatim)
    } else {
        end
    }
}

/// Start of the component that ends at `end`, not below `lo`.
pub open spec fn component_start(s: Seq<char>, lo: int, end: int, verbatim: bool) -> int
    decreases end,
{
    if 0 <= lo < end <= s.len() && !is_separator(s[end - 1], verbatim) {
        component_start(s, lo, end - 1, verbatim)
    } else {
        end
    }
}

pub proof fn lemma_strip_bounds(s: Seq<char>, lo: int, end: int, verbatim: bool)
    ensures
        0 <= lo <= end <= s.len() ==> lo <= strip_separators(s, lo, end, verbatim) <= end,
    decreases end,
{
    if 0 <= lo < end <= s.len() && is_separator(s[end - 1], verbatim) {
        lemma_strip_bounds(s, lo, end - 1, verbatim);
    }
}

pub proof fn lemma_start_bounds(s: Seq<char>, lo: int, end: int, verbatim: bool)
    ensures
        0 <= lo <= end <= s.len() ==> lo <= component_start(s, lo, end, verbatim) <= end,
    decreases end,
{
    if 0 <= lo < end <= s.len() && !is_separator(s[end - 1], verbatim) {
        lemma_start_bounds(s, lo, end - 1, verbatim);
    }
}

/// End of the last component of `s[lo..end]`, skipping `.` components
/// outside verbatim paths (a `.` at `lo` counts).
pub open spec fn last_component_end(s: Seq<char>, lo: int, end: int, verbatim: bool) -> int
    decreases end,
{
    let e = strip_separators(s, lo, end, verbatim);
    let b = component_start(s, lo, e, verbatim);
    if 0 <= lo <= end <= s.len() && !verbatim && lo < b && e == b + 1 && s[b] == '.' {
        proof {
            lemma_strip_bounds(s, lo, end, verbatim);
            lemma_start_bounds(s, lo, e, verbatim);
        }
        last_component_end(s, lo, b, verbatim)
    } else {
        e
    }
}

/// The file name of a Windows path, as `Path::file_name` gives it: the last
/// component after the path's prefix, skipping trailing separators and,
/// outside verbatim paths, `.` components; none when that is empty, `.` or
/// `..`.
pub open spec fn file_name_of(s: Seq<char>) -> Option<Seq<char>> {
    let v = is_verbatim(s);
    let p = prefix_len(s);
    let e = last_component_end(s, p, s.len() as int, v);
    let b = component_start(s, p, e, v);
    let name = s.subrange(b, e);
    if name.len() == 0 || name == "."@ || name == ".."@ {
        None
    } else {
        Some(name)
    }
}

proof fn lemma_next_separator_bounds(s: Seq<char>, i: int, verbatim: bool)
    requires
        0 <= i,
    ensures
        (if i <= s.len() { i } else { s.len() as int }) <= next_separator(s, i, verbatim) <= s.len(),
    decreases s.len() - i,
{
    if i < s.len() && !is_separator(s[i], verbatim) {
        lemma_next_separator_bounds(s, i + 1, verbatim);
    }
}

proof fn lemma_prefix_bounds(s: Seq<char>)
    ensures
        0 <= prefix_len(s) <= s.len(),
{
    lemma_next_separator_bounds(s, 8, true);
    lemma_next_separator_bounds(s, 4, true);
    lemma_next_separator_bounds(s, 4, false);
    lemma_next_separator_bounds(s, 2, false);
    let k8 = next_separator(s, 8, true);
    lemma_next_separator_bounds(s, k8 + 1, true);
    let k2 = next_separator(s, 2, false);
    lemma_next_separator_bounds(s, k2 + 1, false);
}

proof fn lemma_component_end_bounds(s: Seq<char>, lo: int, end: int, verbatim: bool)
    requires
        0 <= lo <= end <= s.len(),
    ensures
        lo <= last_component_end(s, lo, end, verbatim) <= end,
    decreases end,
{
    let e = strip_separators(s, lo, end, verbatim);
    lemma_strip_bounds(s, lo, end, verbatim);
    let b = component_start(s, lo, e, verbatim);
    lemma_start_bounds(s, lo, e, verbatim);
    if !verbatim && lo < b && e == b + 1 && s[b] == '.' {
        lemma_component_end_bounds(s, lo, b, verbatim);
    }
}

fn separator_at(chars: &Vec<char>, i: usize, verbatim: bool) -> (r: bool)
    requires
        i < chars@.len(),
    ensures
        r == is_separator(chars@[i as int], verbatim),
{
    chars[i] == '\\' || (!verbatim && chars[i] == '/')
}

fn next_sep(chars: &Vec<char>, from: usize, verbatim: bool) -> (r: usize)
    ensures
        r == next_separator(chars@, from as int, verbatim),
        r <= chars@.len(),
{
    let mut i = from;
    if i >= chars.len() {
        return chars.len();
    }
    while i < chars.len()
        invariant
            from <= i <= chars@.len(),
            next_separator(chars@, from as int, verbatim) == next_separator(chars@, i as int, verbatim),
        decreases chars@.len() - i,
    {
        if separator_at(chars, i, verbatim) {
            return i;
        }
        i = i + 1;
    }
    i
}

fn starts_with_at(chars: &Vec<char>, from: usize, lit: &[char]) -> (r: bool)
    requires
        from <= chars@.len(),
    ensures
        r == starts_with(chars@.skip(from as int), lit@),
{
    let n = chars.len();
    if n - from < lit.len() {
        return false;
    }
    let mut i: usize = 0;
    while i < lit.len()
        invariant
            i <= lit@.len(),
            lit@.len() == lit.len(),
            n == chars@.len(),
            from <= chars@.len(),
            from + lit@.len() <= chars@.len(),
            forall|j: int| 0 <= j < i ==> chars@[from + j] == lit@[j],
        decreases lit@.len() - i,
    {
        if chars[from + i] != lit[i] {
            assert(chars@.skip(from as int).take(lit@.len() as int)[i as int] != lit@[i as int]);
            return false;
        }
        i = i + 1;
    }
    assert(chars@.skip(from as int).take(lit@.len() as int) =~= lit@);
    true
}

fn prefix_length(chars: &Vec<char>) -> (r: usize)
    ensures
        r == prefix_len(chars@),
{
    let ghost s = chars@;
    proof {
        lemma_prefix_bounds(s);
        assert(s.skip(0) =~= s);
    }
    let verbatim_mark: [char; 4] = ['\\', '\\', '?', '\\'];
    let unc_mark: [char; 4] = ['U', 'N', 'C', '\\'];
    let device_mark: [char; 4] = ['\\', '\\', '.', '\\'];
    let unc_start: [char; 2] = ['\\', '\\'];
    assert(verbatim_mark@ =~= seq!['\\', '\\', '?', '\\']);
    assert(unc_mark@ =~= seq!['U', 'N', 'C', '\\']);
    assert(device_mark@ =~= seq!['\\', '\\', '.', '\\']);
    assert(unc_start@ =~= seq!['\\', '\\']);
    if starts_with_at(chars, 0, &verbatim_mark) {
        if starts_with_at(chars, 4, &unc_mark) {
            let k = next_sep(chars, 8, true);
            if k >= chars.len() {
                chars.len()
            } else {
                next_sep(chars, k + 1, true)
            }
        } else {
            next_sep(chars, 4, true)
        }
    } else if starts_with_at(chars, 0, &device_mark) {
        next_sep(chars, 4, false)
    } else if starts_with_at(chars, 0, &unc_start) {
        let k = next_sep(chars, 2, false);
        if 2 < k && k < chars.len() {
            let k2 = next_sep(chars, k + 1, false);
            if k2 > k + 1 {
                k2
            } else {
                0
            }
        } else {
            0
        }
    } else if chars.len() >= 2 && chars[1] == ':' && (('a' <= chars[0] && chars[0] <= 'z') || (
    'A' <= chars[0] && chars[0] <= 'Z')) {
        2
    } else {
        0
    }
}

/// The file name of the Windows path `path` (see [`file_name_of`]).
pub fn file_name(path: &str) -> (r: Option<String>)
    ensures
        match file_name_of(path@) {
            Some(n) => r matches Some(x) && x@ == n,
            None => r is None,
        },
{
    let chars = chars_of(path);
    let ghost s = path@;
    let verbatim_mark: [char; 4] = ['\\', '\\', '?', '\\'];
    assert(verbatim_mark@ =~= seq!['\\', '\\', '?', '\\']);
    assert(s.skip(0) =~= s);
    let verbatim = starts_with_at(&chars, 0, &verbatim_mark);
    let lo = prefix_length(&chars);
    proof {
        lemma_prefix_bounds(s);
    }
    let mut end = chars.len();
    proof {
        lemma_component_end_bounds(s, lo as int, end as int, verbatim);
    }
    let mut e: usize = 0;
    let mut b: usize = 0;
    loop
        invariant
            chars@ == s,
            lo <= end <= s.len(),
            last_component_end(s, lo as int, s.len() as int, verbatim) == last_component_end(
                s,
                lo as int,
                end as int,
                verbatim,
            ),
        ensures
            lo <= b <= e <= s.len(),
            last_component_end(s, lo as int, s.len() as int, verbatim) == e,
            component_start(s, lo as int, e as int, verbatim) == b,
        decreases end,
    {
        e = end;
        while e > lo && separator_at(&chars, e - 1, verbatim)
            invariant
                lo <= e <= end <= s.len(),
                chars@ == s,
                strip_separators(s, lo as int, end as int, verbatim) == strip_separators(
                    s,
                    lo as int,
                    e as int,
                    verbatim,
                ),
            decreases e,
        {
            e = e - 1;
        }
        b = e;
        while b > lo && !separator_at(&chars, b - 1, verbatim)
            invariant
                lo <= b <= e <= s.len(),
                chars@ == s,
                component_start(s, lo as int, e as int, verbatim) == component_start(
                    s,
                    lo as int,
                    b as int,
                    verbatim,
                ),
            decreases b,
        {
            b = b - 1;
        }
        assert(strip_separators(s, lo as int, end as int, verbatim) == e);
        assert(component_start(s, lo as int, e as int, verbatim) == b);
        if !verbatim && b > lo && e == b + 1 && chars[b] == '.' {
            end = b;
        } else {
            break;
        }
    }
    let name = string_of(chars.as_slice(), b, e);
    if e == b || str_equal(name.as_str(), ".") || str_equal(name.as_str(), "..") {
        None
    } else {
        Some(name)
    }
}

/// The image of a session host, by its lowercase file name.
pub fn is_host_image(lowercase_name: &str) -> (r: bool)
    ensures
        r == (lowercase_name@ == "wmx.exe"@ || lowercase_name@ == "ghostex-session-host.exe"@),
{
    str_equal(lowercase_name, "wmx.exe") || str_equal(lowercase_name, "ghostex-session-host.exe")
}

/// A `FILETIME` (`dwHighDateTime`, `dwLowDateTime`) as one tick count.
pub fn filetime_ticks(high: u32, low: u32) -> (r: u64)
    ensures
        r == high as nat * 0x1_0000_0000 + low as nat,
{
    let r = ((high as u64) << 32u64) | (low as u64);
    assert(((high as u64) << 32u64) | (low as u64) == (high as u64) * 0x1_0000_0000 + (low as u64))
        by (bit_vector);
    r
}

/// Nanoseconds since 1970 as `FILETIME` ticks (whole 100 ns since 1601).
pub fn unix_nanos_to_ticks(nanos: u128) -> (r: u128)
    ensures
        r == nanos / 100 + UNIX_EPOCH_TICKS,
{
    nanos / 100 + UNIX_EPOCH_TICKS
}

/// How opening the recorded process went.
#[derive(Clone, Copy, Debug, PartialEq, Eq, Structural)]
pub enum Opened {
    /// Windows knows no such process (`ERROR_INVALID_PARAMETER`).
    NoSuchProcess,
    /// Opening failed otherwise.
    Failed,
    Yes,
}

/// Which query of the recorded process failed.
#[derive(Clone, Copy, Debug, PartialEq, Eq, Structural)]
pub enum Query {
    Open,
    ExitCode,
    Image,
    Times,
    Modified,
}

/// What Windows reported of the recorded process, and when the record was
/// written. `None` means the query failed.
pub struct ProcessProbe {
    pub opened: Opened,
    pub exit_code: Option<u32>,
    /// Full path of the process image.
    pub image: Option<String>,
    /// Creation time in `FILETIME` ticks.
    pub created: Option<u64>,
    /// The record's modification time in `FILETIME` ticks.
    pub modified: Option<u128>,
}

/// Why the recorded owner cannot be established.
#[derive(Clone, Copy, Debug, PartialEq, Eq, Structural)]
pub enum OwnerError {
    IdentityMismatch,
    MissingImage,
    QueryFailed(Query),
}

impl OwnerError {
    pub fn message(&self) -> (r: &'static str)
        ensures
            r@ == match *self {
                OwnerError::IdentityMismatch => "Session endpoint identity does not match"@,
                OwnerError::MissingImage => "Missing process image"@,
                OwnerError::QueryFailed(_) => "Unable to query the session host process"@,
            },
    {
        match self {
            OwnerError::IdentityMismatch => "Session endpoint identity does not match",
            OwnerError::MissingImage => "Missing process image",
            OwnerError::QueryFailed(_) => "Unable to query the session host process",
        }
    }
}

/// What [`inspect`] concludes for session `name`, its record, and the probe.
pub open spec fn owner_outcome(
    name: Seq<char>,
    record: Option<Endpoint>,
    probe: ProcessProbe,
    r: Result<Option<Endpoint>, OwnerError>,
) -> bool {
    match record {
        None => r == Ok::<Option<Endpoint>, OwnerError>(None),
        Some(e) => if e.name@ != name {
            r == Err::<Option<Endpoint>, OwnerError>(OwnerError::IdentityMismatch)
        } else if probe.opened == Opened::NoSuchProcess {
            r == Ok::<Option<Endpoint>, OwnerError>(None)
        } else if probe.opened == Opened::Failed {
            r == Err::<Option<Endpoint>, OwnerError>(OwnerError::QueryFailed(Query::Open))
        } else {
            match probe.exit_code {
                None => r == Err::<Option<Endpoint>, OwnerError>(OwnerError::QueryFailed(Query::ExitCode)),
                Some(code) => if code != STILL_ACTIVE {
                    r == Ok::<Option<Endpoint>, OwnerError>(None)
                } else {
                    match probe.image {
                        None => r == Err::<Option<Endpoint>, OwnerError>(
                            OwnerError::QueryFailed(Query::Image),
                        ),
                        Some(image) => match file_name_of(image@) {
                            None => r == Err::<Option<Endpoint>, OwnerError>(OwnerError::MissingImage),
                            Some(f) => {
                                let lower = lowercase_of(f);
                                if !(lower == "wmx.exe"@ || lower == "ghostex-session-host.exe"@) {
                                    r == Ok::<Option<Endpoint>, OwnerError>(None)
                                } else {
                                    match (probe.created, probe.modified) {
                                        (None, _) => r == Err::<Option<Endpoint>, OwnerError>(
                                            OwnerError::QueryFailed(Query::Times),
                                        ),
                                        (Some(_), None) => r == Err::<Option<Endpoint>, OwnerError>(
                                            OwnerError::QueryFailed(Query::Modified),
                                        ),
                                        (Some(c), Some(m)) => if c > m {
                                            r == Ok::<Option<Endpoint>, OwnerError>(None)
                                        } else {
                                            r == Ok::<Option<Endpoint>, OwnerError>(Some(e))
                                        },
                                    }
                                }
                            },
                        },
                    }
                },
            }
        }
    }
}

/// The live host of session `name`, judged from its registry record (none
/// when there is no record file) and what Windows reported of the recorded
/// process: none when the process is gone, exited, runs another image, or
/// was created after the record was written.
pub fn inspect(name: &str, record: Option<Endpoint>, probe: &ProcessProbe) -> (r: Result<Option<Endpoint>, OwnerError>)
    ensures
        owner_outcome(name@, record, *probe, r),
{
    let endpoint = match record {
        None => {
            return Ok(None);
        },
        Some(e) => e,
    };
    if !str_equal(endpoint.name.as_str(), name) {
        return Err(OwnerError::IdentityMismatch);
    }
    match probe.opened {
        Opened::NoSuchProcess => {
            return Ok(None);
        },
        Opened::Failed => {
            return Err(OwnerError::QueryFailed(Query::Open));
        },
        Opened::Yes => {},
    }
    let code = match probe.exit_code {
        None => {
            return Err(OwnerError::QueryFailed(Query::ExitCode));
        },
        Some(c) => c,
    };
    if code != STILL_ACTIVE {
        return Ok(None);
    }
    let image = match &probe.image {
        None => {
            return Err(OwnerError::QueryFailed(Query::Image));
        },
        Some(i) => i,
    };
    let file = match file_name(image.as_str()) {
        None => {
            return Err(OwnerError::MissingImage);
        },
        Some(f) => f,
    };
    let lower = to_lowercase(file.as_str());
    if !is_host_image(lower.as_str()) {
        return Ok(None);
    }
    let created = match probe.created {
        None => {
            return Err(OwnerError::QueryFailed(Query::Times));
        },
        Some(c) => c,
    };
    let modified = match probe.modified {
        None => {
            return Err(OwnerError::QueryFailed(Query::Modified));
        },
        Some(m) => m,
    };
    if created as u128 > modified {
        return Ok(None);
    }
    Ok(Some(endpoint))
}

/// After a forced stop, the record is removed only if it is still the one
/// that named the stopped process (same process id and token).
pub fn same_record(current: &Endpoint, stopped: &Endpoint) -> (r: bool)
    ensures
        r == (current.pid == stopped.pid && current.token@ == stopped.token@),
{
    current.pid == stopped.pid && str_equal(current.token.as_str(), stopped.token.as_str())
}

/// A recorded process id that Windows reused is never taken for the
/// session's host: when the check names a host, it is the record itself,
/// the record names the session, and the process is running, runs a host
/// image, and was created no later than the record was written.
pub proof fn law_owner_is_verified(
    name: Seq<char>,
    record: Option<Endpoint>,
    probe: ProcessProbe,
    r: Result<Option<Endpoint>, OwnerError>,
)
    requires
        owner_outcome(name, record, probe, r),
        r matches Ok(Some(_)),
    ensures
        record matches Some(e) && r == Ok::<Option<Endpoint>, OwnerError>(Some(e)) && e.name@ == name,
        probe.opened == Opened::Yes,
        probe.exit_code == Some(STILL_ACTIVE),
        probe.image matches Some(i) && file_name_of(i@) matches Some(f) && (lowercase_of(f)
            == "wmx.exe"@ || lowercase_of(f) == "ghostex-session-host.exe"@),
        probe.created matches Some(c) && probe.modified matches Some(m) && c <= m,
{
}

} // verus!
