//! The command line: which command the arguments ask for, with its
//! operands, or why they are refused.
use vstd::prelude::*;
use vstd::utf8::encode_utf8;
use vstd::string::StringSliceAdditionalSpecFns;
use crate::codec::{base64_decode, base64_decoding, base64_encode, base64_encoding};
use crate::daemon::is_editor_name;
use crate::text::{chars_of, first_index_where, is_digit, push_range, starts_with, str_equal, string_of};

verus! {

broadcast use vstd::string::group_string_axioms;

/// Largest input, in bytes, that `send` delivers (1 MiB).
pub const MAX_INPUT: usize = 1048576;

/// History rows requested when `--scrollback` is not given.
pub const DEFAULT_SCROLLBACK: u32 = 10_000;

/// Why a number operand was refused, as `str::parse` reports it.
#[derive(Clone, Copy, Debug, PartialEq, Eq, Structural)]
pub enum NumberError {
    Empty,
    InvalidDigit,
    TooLarge,
}

/// Why the arguments were refused.
#[derive(Clone, Debug, PartialEq, Eq)]
pub enum CliError {
    MissingArgument,
    InvalidNumber(NumberError),
    /// Not valid base64; the decoder's message.
    InvalidEncoding(String),
    UnsupportedAttachArgument,
    UnsupportedPromptEditor,
    MissingSessionName,
    NotInsideSession,
    InputTooLarge,
    UnknownCommand,
}

impl CliError {
    pub fn message(&self) -> (r: String)
        ensures
            r@ == match *self {
                CliError::MissingArgument => "Missing session argument"@,
                CliError::InvalidNumber(NumberError::Empty) => "cannot parse integer from empty string"@,
                CliError::InvalidNumber(NumberError::InvalidDigit) => "invalid digit found in string"@,
                CliError::InvalidNumber(NumberError::TooLarge) => "number too large to fit in target type"@,
                CliError::InvalidEncoding(m) => m@,
                CliError::UnsupportedAttachArgument => "Unsupported attach argument"@,
                CliError::UnsupportedPromptEditor => "Unsupported prompt editor"@,
                CliError::MissingSessionName => "Missing session name"@,
                CliError::NotInsideSession => "Not inside a wmx session"@,
                CliError::InputTooLarge => "Input exceeds 1 MiB"@,
                CliError::UnknownCommand => "Expected start, attach, list, exists, send, history, grid, resize, or kill"@,
            },
    {
        match self {
            CliError::MissingArgument => String::from_str("Missing session argument"),
            CliError::InvalidNumber(NumberError::Empty) => String::from_str("cannot parse integer from empty string"),
            CliError::InvalidNumber(NumberError::InvalidDigit) => String::from_str("invalid digit found in string"),
            CliError::InvalidNumber(NumberError::TooLarge) => String::from_str("number too large to fit in target type"),
            CliError::InvalidEncoding(m) => m.clone(),
            CliError::UnsupportedAttachArgument => String::from_str("Unsupported attach argument"),
            CliError::UnsupportedPromptEditor => String::from_str("Unsupported prompt editor"),
            CliError::MissingSessionName => String::from_str("Missing session name"),
            CliError::NotInsideSession => String::from_str("Not inside a wmx session"),
            CliError::InputTooLarge => String::from_str("Input exceeds 1 MiB"),
            CliError::UnknownCommand => String::from_str("Expected start, attach, list, exists, send, history, grid, resize, or kill"),
        }
    }
}

/// A command with its operands.
pub enum Command {
    /// Host a session; `launch` is its JSON description.
    ServeEncoded { launch: Vec<u8> },
    /// Host a session described by a frame on standard input.
    Serve,
    /// Start a session; `launch` is its JSON description.
    StartEncoded { launch: Vec<u8> },
    /// Start a session described by a frame on standard input.
    Start,
    List { short: bool },
    Version,
    Help,
    /// Detach the clients of `name`, or of the session the shell runs in.
    Detach { name: Option<String> },
    Refresh { name: String },
    RefreshIfStale { name: String, rows: u16, cols: u16 },
    ProcessSnapshot,
    Inspect { name: String },
    Exists { name: String },
    Attach { name: String, prompt_editor: Option<String> },
    PromptEditorCapability { name: Option<String> },
    WatchTitle { name: String },
    /// Terminate the recorded host process of `name`.
    ForceKill { name: String },
    Kill { names: Vec<String> },
    /// Send `bytes` (the text operands joined by spaces), followed by
    /// standard input when there are no text operands.
    Send { name: String, bytes: Vec<u8>, read_stdin: bool },
    History { name: String, vt: bool, scrollback: u32 },
    Grid { name: String },
    Resize { name: String, rows: u16, cols: u16 },
}

pub open spec fn arg_views(args: Seq<String>) -> Seq<Seq<char>> {
    args.map_values(|s: String| s@)
}

pub open spec fn opt_view(s: Option<String>) -> Option<Seq<char>> {
    match s {
        Some(v) => Some(v@),
        None => None,
    }
}

/// Reads the digits `d` after the value `acc` read so far, as `str::parse`
/// does: the first byte that is not a digit, or the first digit that takes
/// the value past `max`, ends the reading with an error.
pub open spec fn number_scan(d: Seq<u8>, acc: nat, max: nat) -> Result<nat, NumberError>
    decreases d.len(),
{
    if d.len() == 0 {
        Ok(acc)
    } else if !is_digit(d[0]) {
        Err(NumberError::InvalidDigit)
    } else if acc * 10 + (d[0] - 48) > max {
        Err(NumberError::TooLarge)
    } else {
        number_scan(d.drop_first(), (acc * 10 + (d[0] - 48)) as nat, max)
    }
}

/// What `str::parse` gives for the text `s` and an unsigned type whose
/// largest value is `max`: an optional `+`, then digits read left to right.
pub open spec fn number_of(s: Seq<char>, max: nat) -> Result<nat, NumberError> {
    let b = encode_utf8(s);
    let d = if b.len() > 0 && b[0] == 43u8 { b.drop_first() } else { b };
    if b.len() == 0 {
        Err(NumberError::Empty)
    } else if d.len() == 0 {
        Err(NumberError::InvalidDigit)
    } else {
        number_scan(d, 0, max)
    }
}

proof fn lemma_number_scan_bound(d: Seq<u8>, acc: nat, max: nat)
    requires
        acc <= max,
    ensures
        number_scan(d, acc, max) matches Ok(v) ==> v <= max,
    decreases d.len(),
{
    if d.len() > 0 && is_digit(d[0]) && acc * 10 + (d[0] - 48) <= max {
        lemma_number_scan_bound(d.drop_first(), (acc * 10 + (d[0] - 48)) as nat, max);
    }
}

/// Space-separated concatenation of `parts`.
pub open spec fn joined(parts: Seq<Seq<u8>>) -> Seq<u8>
    decreases parts.len(),
{
    if parts.len() == 0 {
        seq![]
    } else if parts.len() == 1 {
        parts[0]
    } else {
        joined(parts.drop_last()) + seq![0x20u8] + parts.last()
    }
}

pub open spec fn is_arg(lit: Seq<char>) -> spec_fn(Seq<char>) -> bool {
    |x: Seq<char>| x == lit
}

/// The operands of `attach` from index `i` on, given the name and editor
/// found before it.
pub open spec fn attach_scan(
    a: Seq<Seq<char>>,
    i: int,
    name: Option<Seq<char>>,
    editor: Option<Seq<char>>,
) -> Result<(Option<Seq<char>>, Option<Seq<char>>), CliError>
    decreases a.len() - i,
{
    if i >= a.len() {
        Ok((name, editor))
    } else {
        let v = a[i];
        if v == "--require-existing"@ {
            attach_scan(a, i + 1, name, editor)
        } else if v == "--prompt-editor"@ {
            if i + 1 >= a.len() {
                Err(CliError::MissingArgument)
            } else {
                attach_scan(a, i + 2, name, Some(a[i + 1]))
            }
        } else if starts_with(v, "--prompt-editor="@) {
            attach_scan(a, i + 1, name, Some(v.subrange(16, v.len() as int)))
        } else if !(v.len() > 0 && v[0] == '-') && name is None {
            attach_scan(a, i + 1, Some(v), editor)
        } else {
            Err(CliError::UnsupportedAttachArgument)
        }
    }
}

/// The operand at `i` is present.
pub open spec fn named(a: Seq<Seq<char>>, i: int, name: String) -> bool {
    i < a.len() && name@ == a[i]
}

/// A command that only needs the session name at index 1.
pub open spec fn name_only(a: Seq<Seq<char>>, r: Result<Command, CliError>, build: spec_fn(String) -> Command) -> bool {
    if a.len() < 2 {
        r == Err::<Command, CliError>(CliError::MissingArgument)
    } else {
        exists|n: String| n@ == a[1] && r == Ok::<Command, CliError>(build(n))
    }
}

/// Rows at index 2 and columns at index 3, as `u16`.
pub open spec fn size_operands(a: Seq<Seq<char>>) -> Result<(nat, nat), CliError> {
    if a.len() < 3 {
        Err(CliError::MissingArgument)
    } else {
        match number_of(a[2], 65535) {
            Err(e) => Err(CliError::InvalidNumber(e)),
            Ok(rows) => if a.len() < 4 {
                Err(CliError::MissingArgument)
            } else {
                match number_of(a[3], 65535) {
                    Err(e) => Err(CliError::InvalidNumber(e)),
                    Ok(cols) => Ok((rows, cols)),
                }
            },
        }
    }
}

/// The scrollback operand of `history`: the number after the first
/// `--scrollback`, or [`DEFAULT_SCROLLBACK`].
pub open spec fn scrollback_operand(a: Seq<Seq<char>>) -> Result<nat, CliError> {
    let p = first_index_where(a, is_arg("--scrollback"@)) as int;
    if p + 1 < a.len() {
        match number_of(a[p + 1], 4294967295) {
            Err(e) => Err(CliError::InvalidNumber(e)),
            Ok(v) => Ok(v),
        }
    } else {
        Ok(DEFAULT_SCROLLBACK as nat)
    }
}

/// What the arguments `a` (without the program name) ask for.
pub open spec fn parsed(a: Seq<Seq<char>>, r: Result<Command, CliError>) -> bool {
    let verb = if a.len() > 0 { a[0] } else { ""@ };
    if verb == "serve-encoded"@ || verb == "start-encoded"@ {
        if a.len() < 2 {
            r == Err::<Command, CliError>(CliError::MissingArgument)
        } else {
            match base64_decoding(a[1]) {
                None => r matches Err(CliError::InvalidEncoding(_)),
                Some(b) => if verb == "serve-encoded"@ {
                    r matches Ok(Command::ServeEncoded { launch }) && launch@ == b
                } else {
                    r matches Ok(Command::StartEncoded { launch }) && launch@ == b
                },
            }
        }
    } else if verb == "serve"@ {
        r matches Ok(Command::Serve)
    } else if verb == "start"@ {
        r matches Ok(Command::Start)
    } else if verb == "list"@ || verb == "ls"@ || verb == "l"@ {
        r matches Ok(Command::List { short }) && short == a.contains("--short"@)
    } else if verb == "version"@ || verb == "v"@ || verb == "--version"@ {
        r matches Ok(Command::Version)
    } else if verb == "help"@ || verb == "--help"@ || verb == "-h"@ || verb == ""@ {
        r matches Ok(Command::Help)
    } else if verb == "detach"@ || verb == "d"@ {
        r matches Ok(Command::Detach { name }) && opt_view(name) == (if a.len() > 1 {
            Some(a[1])
        } else {
            None
        })
    } else if verb == "prompt-editor-capability"@ {
        r matches Ok(Command::PromptEditorCapability { name }) && opt_view(name) == (if a.len()
            > 1 {
            Some(a[1])
        } else {
            None
        })
    } else if verb == "refresh"@ {
        name_only(a, r, |n: String| Command::Refresh { name: n })
    } else if verb == "inspect"@ {
        name_only(a, r, |n: String| Command::Inspect { name: n })
    } else if verb == "exists"@ {
        name_only(a, r, |n: String| Command::Exists { name: n })
    } else if verb == "watch-title"@ {
        name_only(a, r, |n: String| Command::WatchTitle { name: n })
    } else if verb == "grid"@ {
        name_only(a, r, |n: String| Command::Grid { name: n })
    } else if verb == "process-snapshot"@ {
        r matches Ok(Command::ProcessSnapshot)
    } else if verb == "refresh-if-stale"@ || verb == "resize"@ {
        match size_operands(a) {
            Err(e) => r == Err::<Command, CliError>(e),
            Ok((rows, cols)) => if verb == "resize"@ {
                r matches Ok(Command::Resize { name, rows: x, cols: y }) && name@ == a[1] && x
                    == rows && y == cols
            } else {
                r matches Ok(Command::RefreshIfStale { name, rows: x, cols: y }) && name@ == a[1]
                    && x == rows && y == cols
            },
        }
    } else if verb == "attach"@ || verb == "a"@ {
        match attach_scan(a, 1, None, None) {
            Err(e) => r == Err::<Command, CliError>(e),
            Ok((name, editor)) => if editor matches Some(e) && !is_editor_name(e) {
                r == Err::<Command, CliError>(CliError::UnsupportedPromptEditor)
            } else if name is None {
                r == Err::<Command, CliError>(CliError::MissingSessionName)
            } else {
                r matches Ok(Command::Attach { name: n, prompt_editor }) && Some(n@) == name
                    && opt_view(prompt_editor) == editor
            },
        }
    } else if verb == "kill"@ || verb == "k"@ {
        if a.len() > 1 && a[1] == "--force"@ {
            if a.len() < 3 {
                r == Err::<Command, CliError>(CliError::MissingArgument)
            } else {
                r matches Ok(Command::ForceKill { name }) && name@ == a[2]
            }
        } else {
            r matches Ok(Command::Kill { names }) && arg_views(names@) == a.drop_first()
        }
    } else if verb == "send"@ || verb == "s"@ {
        if a.len() < 2 {
            r == Err::<Command, CliError>(CliError::MissingArgument)
        } else {
            r matches Ok(Command::Send { name, bytes, read_stdin }) && name@ == a[1] && bytes@
                == joined(a.subrange(2, a.len() as int).map_values(|s: Seq<char>| encode_utf8(s)))
                && read_stdin == (a.len() == 2)
        }
    } else if verb == "history"@ || verb == "hi"@ {
        match scrollback_operand(a) {
            Err(e) => r == Err::<Command, CliError>(e),
            Ok(n) => if a.len() < 2 {
                r == Err::<Command, CliError>(CliError::MissingArgument)
            } else {
                r matches Ok(Command::History { name, vt, scrollback }) && name@ == a[1] && vt
                    == a.contains("--vt"@) && scrollback == n
            },
        }
    } else {
        r == Err::<Command, CliError>(CliError::UnknownCommand)
    }
}

/// Parses `s` as `str::parse` does for an unsigned type whose largest value
/// is `max`.
pub fn parse_number(s: &str, max: u64) -> (r: Result<u64, NumberError>)
    requires
        max <= u32::MAX,
    ensures
        match number_of(s@, max as nat) {
            Ok(v) => r == Ok::<u64, NumberError>(v as u64) && v <= max,
            Err(e) => r == Err::<u64, NumberError>(e),
        },
{
    let b = s.as_bytes();
    proof {
        assert(b@ == encode_utf8(s@));
    }
    if b.len() == 0 {
        return Err(NumberError::Empty);
    }
    let mut i: usize = if b[0] == 43u8 {
        1
    } else {
        0
    };
    let ghost d = if b@[0] == 43u8 { b@.drop_first() } else { b@ };
    assert(d =~= b@.skip(i as int));
    if i == b.len() {
        return Err(NumberError::InvalidDigit);
    }
    let mut acc: u64 = 0;
    proof {
        lemma_number_scan_bound(d, 0, max as nat);
    }
    assert(number_of(s@, max as nat) == number_scan(d, 0, max as nat));
    while i < b.len()
        invariant
            i <= b@.len(),
            acc <= max,
            max <= u32::MAX,
            number_scan(d, 0, max as nat) == number_scan(b@.skip(i as int), acc as nat, max as nat),
            number_of(s@, max as nat) == number_scan(d, 0, max as nat),
            number_scan(d, 0, max as nat) matches Ok(v) ==> v <= max,
        decreases b@.len() - i,
    {
        let c = b[i];
        assert(b@.skip(i as int)[0] == c);
        assert(b@.skip(i as int).drop_first() =~= b@.skip(i + 1));
        if c < 48 || c > 57 {
            assert(number_scan(b@.skip(i as int), acc as nat, max as nat) == Err::<nat, NumberError>(
                NumberError::InvalidDigit,
            ));
            return Err(NumberError::InvalidDigit);
        }
        let v = acc * 10 + (c - 48) as u64;
        if v > max {
            assert(number_scan(b@.skip(i as int), acc as nat, max as nat) == Err::<nat, NumberError>(
                NumberError::TooLarge,
            ));
            return Err(NumberError::TooLarge);
        }
        acc = v;
        i = i + 1;
    }
    assert(b@.skip(i as int) =~= Seq::<u8>::empty());
    Ok(acc)
}

fn arg_equal(args: &Vec<String>, i: usize, lit: &str) -> (r: bool)
    requires
        i < args@.len(),
    ensures
        r == (args@[i as int]@ == lit@),
{
    str_equal(args[i].as_str(), lit)
}

/// Whether some argument is `lit`.
fn contains_arg(args: &Vec<String>, lit: &str) -> (r: bool)
    ensures
        r == arg_views(args@).contains(lit@),
{
    let ghost a = arg_views(args@);
    let mut i: usize = 0;
    while i < args.len()
        invariant
            i <= args@.len(),
            a == arg_views(args@),
            forall|j: int| 0 <= j < i ==> a[j] != lit@,
        decreases args@.len() - i,
    {
        if arg_equal(args, i, lit) {
            assert(a[i as int] == lit@);
            return true;
        }
        i = i + 1;
    }
    false
}

/// Index of the first argument that is `lit`, or the number of arguments.
fn position_arg(args: &Vec<String>, lit: &str) -> (r: usize)
    ensures
        r == first_index_where(arg_views(args@), is_arg(lit@)),
{
    let ghost a = arg_views(args@);
    let mut i: usize = 0;
    while i < args.len()
        invariant
            i <= args@.len(),
            a == arg_views(args@),
            forall|j: int| 0 <= j < i ==> !is_arg(lit@)(a[j]),
        decreases args@.len() - i,
    {
        if arg_equal(args, i, lit) {
            proof {
                crate::text::lemma_first_index_where(a, is_arg(lit@), i as int);
            }
            return i;
        }
        i = i + 1;
    }
    proof {
        crate::text::lemma_first_index_where(a, is_arg(lit@), a.len() as int);
    }
    i
}

fn number_operand(args: &Vec<String>, i: usize, max: u64) -> (r: Result<u64, CliError>)
    requires
        i < args@.len(),
        max <= u32::MAX,
    ensures
        match number_of(args@[i as int]@, max as nat) {
            Ok(v) => r == Ok::<u64, CliError>(v as u64) && v <= max,
            Err(e) => r == Err::<u64, CliError>(CliError::InvalidNumber(e)),
        },
{
    match parse_number(args[i].as_str(), max) {
        Ok(v) => Ok(v),
        Err(e) => Err(CliError::InvalidNumber(e)),
    }
}

fn size_of_args(args: &Vec<String>) -> (r: Result<(u16, u16), CliError>)
    ensures
        match size_operands(arg_views(args@)) {
            Ok((rows, cols)) => r == Ok::<(u16, u16), CliError>((rows as u16, cols as u16)) && rows
                <= 65535 && cols <= 65535,
            Err(e) => r == Err::<(u16, u16), CliError>(e),
        },
{
    if args.len() < 3 {
        return Err(CliError::MissingArgument);
    }
    let rows = number_operand(args, 2, 65535)?;
    if args.len() < 4 {
        return Err(CliError::MissingArgument);
    }
    let cols = number_operand(args, 3, 65535)?;
    Ok((rows as u16, cols as u16))
}

/// The name operand at index 1.
fn name_arg(args: &Vec<String>) -> (r: Result<String, CliError>)
    ensures
        args@.len() < 2 ==> r == Err::<String, CliError>(CliError::MissingArgument),
        args@.len() >= 2 ==> (r matches Ok(n) && n@ == args@[1]@),
{
    if args.len() < 2 {
        Err(CliError::MissingArgument)
    } else {
        Ok(args[1].clone())
    }
}

fn optional_name(args: &Vec<String>) -> (r: Option<String>)
    ensures
        opt_view(r) == (if args@.len() > 1 {
            Some(args@[1]@)
        } else {
            None::<Seq<char>>
        }),
{
    if args.len() > 1 {
        Some(args[1].clone())
    } else {
        None
    }
}

proof fn lemma_joined_push(parts: Seq<Seq<u8>>, x: Seq<u8>)
    ensures
        joined(parts.push(x)) == if parts.len() == 0 {
            x
        } else {
            joined(parts) + seq![0x20u8] + x
        },
{
    assert(parts.push(x).drop_last() =~= parts);
}

/// The text operands from index 2 on, joined by spaces.
fn joined_text(args: &Vec<String>) -> (r: Vec<u8>)
    requires
        args@.len() >= 2,
    ensures
        r@ == joined(arg_views(args@).subrange(2, args@.len() as int).map_values(
            |s: Seq<char>| encode_utf8(s),
        )),
{
    let ghost a = arg_views(args@);
    let ghost f = |s: Seq<char>| encode_utf8(s);
    let mut out: Vec<u8> = Vec::new();
    let mut i: usize = 2;
    if args.len() == 2 {
        assert(a.subrange(2, args@.len() as int).map_values(f) =~= Seq::<Seq<u8>>::empty());
        return out;
    }
    while i < args.len()
        invariant
            2 <= i <= args@.len(),
            a == arg_views(args@),
            f == (|s: Seq<char>| encode_utf8(s)),
            out@ == joined(a.subrange(2, i as int).map_values(f)),
        decreases args@.len() - i,
    {
        let ghost before = a.subrange(2, i as int).map_values(f);
        if i > 2 {
            out.push(0x20);
        }
        let bytes = args[i].as_str().as_bytes();
        push_range(&mut out, bytes, 0, bytes.len());
        proof {
            assert(bytes@.subrange(0, bytes@.len() as int) =~= bytes@);
            assert(bytes@ == encode_utf8(a[i as int]));
            assert(a.subrange(2, i + 1).map_values(f) =~= before.push(encode_utf8(a[i as int])));
            lemma_joined_push(before, encode_utf8(a[i as int]));
            if i > 2 {
                assert(before.len() > 0);
            } else {
                assert(before.len() == 0);
            }
        }
        i = i + 1;
    }
    out
}

fn arguments_from(args: &Vec<String>, from: usize) -> (r: Vec<String>)
    requires
        from <= args@.len(),
    ensures
        arg_views(r@) == arg_views(args@).subrange(from as int, args@.len() as int),
{
    let mut out: Vec<String> = Vec::new();
    let mut i = from;
    while i < args.len()
        invariant
            from <= i <= args@.len(),
            arg_views(out@) == arg_views(args@).subrange(from as int, i as int),
        decreases args@.len() - i,
    {
        let ghost before = out@;
        out.push(args[i].clone());
        assert(arg_views(out@) =~= arg_views(before).push(args@[i as int]@));
        assert(arg_views(out@) =~= arg_views(args@).subrange(from as int, i + 1));
        i = i + 1;
    }
    out
}

fn attach_operands(args: &Vec<String>) -> (r: Result<(Option<String>, Option<String>), CliError>)
    ensures
        match attach_scan(arg_views(args@), 1, None, None) {
            Ok((name, editor)) => r matches Ok((n, e)) && opt_view(n) == name && opt_view(e) == editor,
            Err(err) => r == Err::<(Option<String>, Option<String>), CliError>(err),
        },
{
    let ghost a = arg_views(args@);
    let mut name: Option<String> = None;
    let mut editor: Option<String> = None;
    let mut index: usize = 1;
    let prefix: [char; 16] = ['-', '-', 'p', 'r', 'o', 'm', 'p', 't', '-', 'e', 'd', 'i', 't', 'o', 'r', '='];
    assert(prefix@ =~= "--prompt-editor="@) by {
        reveal_strlit("--prompt-editor=");
    }
    while index < args.len()
        invariant
            1 <= index,
            a == arg_views(args@),
            prefix@ == "--prompt-editor="@,
            attach_scan(a, 1, None, None) == attach_scan(a, index as int, opt_view(name), opt_view(editor)),
        decreases args@.len() - index,
    {
        let ghost v = a[index as int];
        if arg_equal(args, index, "--require-existing") {
            index = index + 1;
        } else if arg_equal(args, index, "--prompt-editor") {
            if index + 1 >= args.len() {
                return Err(CliError::MissingArgument);
            }
            editor = Some(args[index + 1].clone());
            index = index + 2;
        } else {
            let chars = chars_of(args[index].as_str());
            let mut prefixed = chars.len() >= 16;
            let mut k: usize = 0;
            while prefixed && k < 16
                invariant
                    k <= 16,
                    chars@ == v,
                    prefix@ == "--prompt-editor="@,
                    prefixed ==> chars@.len() >= 16 && forall|j: int| 0 <= j < k ==> chars@[j] == prefix@[j],
                    !prefixed ==> !starts_with(v, "--prompt-editor="@),
                decreases (if prefixed { 17 - k } else { 0 }),
            {
                if chars[k] != prefix[k] {
                    prefixed = false;
                    assert(v[k as int] != "--prompt-editor="@[k as int]);
                } else {
                    k = k + 1;
                }
            }
            if prefixed {
                assert(v.subrange(0, 16) =~= "--prompt-editor="@);
                editor = Some(string_of(chars.as_slice(), 16, chars.len()));
                index = index + 1;
            } else {
                let dashed = chars.len() > 0 && chars[0] == '-';
                if !dashed && name.is_none() {
                    name = Some(args[index].clone());
                    index = index + 1;
                } else {
                    return Err(CliError::UnsupportedAttachArgument);
                }
            }
        }
    }
    Ok((name, editor))
}

fn is_editor(e: &String) -> (r: bool)
    ensures
        r == is_editor_name(e@),
{
    str_equal(e.as_str(), "monaco") || str_equal(e.as_str(), "code-server")
}

impl Command {
    /// Reads the command from the arguments (without the program name).
    pub fn parse(args: &Vec<String>) -> (r: Result<Command, CliError>)
        ensures
            parsed(arg_views(args@), r),
    {
        let ghost a = arg_views(args@);
        let verb: &str = if args.len() > 0 {
            args[0].as_str()
        } else {
            ""
        };
        assert(verb@ == (if a.len() > 0 { a[0] } else { ""@ }));
        if str_equal(verb, "serve-encoded") || str_equal(verb, "start-encoded") {
            let name = name_arg(args)?;
            return match base64_decode(name.as_str()) {
                Err(text) => Err(CliError::InvalidEncoding(text)),
                Ok(launch) => if str_equal(verb, "serve-encoded") {
                    Ok(Command::ServeEncoded { launch })
                } else {
                    Ok(Command::StartEncoded { launch })
                },
            };
        }
        if str_equal(verb, "serve") {
            return Ok(Command::Serve);
        }
        if str_equal(verb, "start") {
            return Ok(Command::Start);
        }
        if str_equal(verb, "list") || str_equal(verb, "ls") || str_equal(verb, "l") {
            return Ok(Command::List { short: contains_arg(args, "--short") });
        }
        if str_equal(verb, "version") || str_equal(verb, "v") || str_equal(verb, "--version") {
            return Ok(Command::Version);
        }
        if str_equal(verb, "help") || str_equal(verb, "--help") || str_equal(verb, "-h") || str_equal(
            verb,
            "",
        ) {
            return Ok(Command::Help);
        }
        if str_equal(verb, "detach") || str_equal(verb, "d") {
            return Ok(Command::Detach { name: optional_name(args) });
        }
        if str_equal(verb, "prompt-editor-capability") {
            return Ok(Command::PromptEditorCapability { name: optional_name(args) });
        }
        if str_equal(verb, "refresh") {
            let name = name_arg(args)?;
            return Ok(Command::Refresh { name });
        }
        if str_equal(verb, "inspect") {
            let name = name_arg(args)?;
            return Ok(Command::Inspect { name });
        }
        if str_equal(verb, "exists") {
            let name = name_arg(args)?;
            return Ok(Command::Exists { name });
        }
        if str_equal(verb, "watch-title") {
            let name = name_arg(args)?;
            return Ok(Command::WatchTitle { name });
        }
        if str_equal(verb, "grid") {
            let name = name_arg(args)?;
            return Ok(Command::Grid { name });
        }
        if str_equal(verb, "process-snapshot") {
            return Ok(Command::ProcessSnapshot);
        }
        if str_equal(verb, "refresh-if-stale") || str_equal(verb, "resize") {
            let (rows, cols) = size_of_args(args)?;
            let name = args[1].clone();
            return if str_equal(verb, "resize") {
                Ok(Command::Resize { name, rows, cols })
            } else {
                Ok(Command::RefreshIfStale { name, rows, cols })
            };
        }
        if str_equal(verb, "attach") || str_equal(verb, "a") {
            let (name, editor) = attach_operands(args)?;
            if let Some(e) = &editor {
                if !is_editor(e) {
                    return Err(CliError::UnsupportedPromptEditor);
                }
            }
            return match name {
                None => Err(CliError::MissingSessionName),
                Some(name) => Ok(Command::Attach { name, prompt_editor: editor }),
            };
        }
        if str_equal(verb, "kill") || str_equal(verb, "k") {
            if args.len() > 1 && arg_equal(args, 1, "--force") {
                if args.len() < 3 {
                    return Err(CliError::MissingArgument);
                }
                return Ok(Command::ForceKill { name: args[2].clone() });
            }
            let names = if args.len() > 0 {
                arguments_from(args, 1)
            } else {
                Vec::new()
            };
            assert(a.drop_first() =~= a.subrange(1, a.len() as int));
            return Ok(Command::Kill { names });
        }
        if str_equal(verb, "send") || str_equal(verb, "s") {
            let name = name_arg(args)?;
            let bytes = joined_text(args);
            return Ok(Command::Send { name, bytes, read_stdin: args.len() == 2 });
        }
        if str_equal(verb, "history") || str_equal(verb, "hi") {
            let p = position_arg(args, "--scrollback");
            let scrollback: u32 = if p < args.len() && p + 1 < args.len() {
                number_operand(args, p + 1, 4294967295)? as u32
            } else {
                DEFAULT_SCROLLBACK
            };
            let name = name_arg(args)?;
            return Ok(Command::History { name, vt: contains_arg(args, "--vt"), scrollback });
        }
        Err(CliError::UnknownCommand)
    }
}

/// The session a command without a name operand acts on: the operand, else
/// `WMX_SESSION`, else `ZMX_SESSION`.
pub fn resolve_session(name: Option<String>, wmx_session: Option<String>, zmx_session: Option<String>) -> (r: Result<String, CliError>)
    ensures
        name is Some ==> r == Ok::<String, CliError>(name.unwrap()),
        name is None && wmx_session is Some ==> r == Ok::<String, CliError>(wmx_session.unwrap()),
        name is None && wmx_session is None && zmx_session is Some ==> r == Ok::<String, CliError>(
            zmx_session.unwrap(),
        ),
        name is None && wmx_session is None && zmx_session is None ==> r == Err::<String, CliError>(
            CliError::NotInsideSession,
        ),
{
    match name {
        Some(n) => Ok(n),
        None => match wmx_session {
            Some(n) => Ok(n),
            None => match zmx_session {
                Some(n) => Ok(n),
                None => Err(CliError::NotInsideSession),
            },
        },
    }
}

/// The `input` payload for `send`: the bytes in base64, unless there are
/// more than [`MAX_INPUT`] of them.
pub fn input_payload(bytes: &Vec<u8>) -> (r: Result<String, CliError>)
    ensures
        bytes@.len() > MAX_INPUT ==> r == Err::<String, CliError>(CliError::InputTooLarge),
        bytes@.len() <= MAX_INPUT ==> (r matches Ok(s) && s@ == base64_encoding(bytes@)
            && base64_decoding(s@) == Some(bytes@)),
{
    if bytes.len() > MAX_INPUT {
        return Err(CliError::InputTooLarge);
    }
    Ok(base64_encode(bytes.as_slice()))
}

/// `attach` reads only the operands from index `i` on.
proof fn lemma_attach_scan_operands(
    a: Seq<Seq<char>>,
    b: Seq<Seq<char>>,
    i: int,
    name: Option<Seq<char>>,
    editor: Option<Seq<char>>,
)
    requires
        0 <= i,
        a.len() == b.len(),
        forall|j: int| i <= j < a.len() ==> a[j] == b[j],
    ensures
        attach_scan(a, i, name, editor) == attach_scan(b, i, name, editor),
    decreases a.len() - i,
{
    if i < a.len() {
        lemma_attach_scan_operands(a, b, i + 1, name, editor);
        lemma_attach_scan_operands(a, b, i + 1, name, Some(a[i].subrange(16, a[i].len() as int)));
        lemma_attach_scan_operands(a, b, i + 1, Some(a[i]), editor);
        if i + 1 < a.len() {
            lemma_attach_scan_operands(a, b, i + 2, name, Some(a[i + 1]));
        }
    }
}

/// Replacing the command name by another that is not `lit` does not change
/// where `lit` occurs.
proof fn lemma_verb_swap(a: Seq<Seq<char>>, x: Seq<char>, y: Seq<char>, lit: Seq<char>)
    requires
        a.len() > 0,
        x != lit,
        y != lit,
    ensures
        a.update(0, x).contains(lit) == a.update(0, y).contains(lit),
        first_index_where(a.update(0, x), is_arg(lit)) == first_index_where(a.update(0, y), is_arg(lit)),
        first_index_where(a.update(0, x), is_arg(lit)) >= 1,
{
    let ax = a.update(0, x);
    let ay = a.update(0, y);
    if ax.contains(lit) {
        let i = choose|i: int| 0 <= i < ax.len() && ax[i] == lit;
        assert(ay[i] == lit);
    }
    if ay.contains(lit) {
        let i = choose|i: int| 0 <= i < ay.len() && ay[i] == lit;
        assert(ax[i] == lit);
    }
    assert(ax.drop_first() =~= ay.drop_first());
}

/// Both command names select the same branch of [`parsed`].
proof fn lemma_same_command(a: Seq<Seq<char>>, x: Seq<char>, y: Seq<char>, r: Result<Command, CliError>)
    requires
        a.len() > 0,
        x.len() > 0 && x[0] != '-',
        y.len() > 0 && y[0] != '-',
        ({
            let ax = a.update(0, x);
            let ay = a.update(0, y);
            &&& (x == "attach"@ || x == "a"@) == (y == "attach"@ || y == "a"@)
            &&& (x == "list"@ || x == "ls"@ || x == "l"@) == (y == "list"@ || y == "ls"@ || y == "l"@)
            &&& (x == "send"@ || x == "s"@) == (y == "send"@ || y == "s"@)
            &&& (x == "history"@ || x == "hi"@) == (y == "history"@ || y == "hi"@)
            &&& (x == "detach"@ || x == "d"@) == (y == "detach"@ || y == "d"@)
            &&& (x == "kill"@ || x == "k"@) == (y == "kill"@ || y == "k"@)
            &&& (x == "version"@ || x == "v"@ || x == "--version"@) == (y == "version"@ || y == "v"@
                || y == "--version"@)
            &&& (x == "serve-encoded"@ || x == "start-encoded"@) == (y == "serve-encoded"@ || y
                == "start-encoded"@)
            &&& (x == "serve-encoded"@) == (y == "serve-encoded"@)
            &&& (x == "serve"@) == (y == "serve"@)
            &&& (x == "start"@) == (y == "start"@)
            &&& (x == "help"@ || x == "--help"@ || x == "-h"@ || x == ""@) == (y == "help"@ || y
                == "--help"@ || y == "-h"@ || y == ""@)
            &&& (x == "prompt-editor-capability"@) == (y == "prompt-editor-capability"@)
            &&& (x == "refresh"@) == (y == "refresh"@)
            &&& (x == "inspect"@) == (y == "inspect"@)
            &&& (x == "exists"@) == (y == "exists"@)
            &&& (x == "watch-title"@) == (y == "watch-title"@)
            &&& (x == "grid"@) == (y == "grid"@)
            &&& (x == "process-snapshot"@) == (y == "process-snapshot"@)
            &&& (x == "refresh-if-stale"@ || x == "resize"@) == (y == "refresh-if-stale"@ || y
                == "resize"@)
            &&& (x == "resize"@) == (y == "resize"@)
        }),
    ensures
        parsed(a.update(0, x), r) == parsed(a.update(0, y), r),
{
    let ax = a.update(0, x);
    let ay = a.update(0, y);
    reveal_strlit("--short");
    reveal_strlit("--vt");
    reveal_strlit("--scrollback");
    assert(x != "--short"@ && y != "--short"@ && x != "--vt"@ && y != "--vt"@);
    assert(x != "--scrollback"@ && y != "--scrollback"@);
    lemma_verb_swap(a, x, y, "--short"@);
    lemma_verb_swap(a, x, y, "--vt"@);
    lemma_verb_swap(a, x, y, "--scrollback"@);
    lemma_attach_scan_operands(ax, ay, 1, None, None);
    assert(ax.drop_first() =~= ay.drop_first());
    if a.len() >= 2 {
        assert(ax.subrange(2, ax.len() as int) =~= ay.subrange(2, ay.len() as int));
    }
}

/// The short command names mean the same as the long ones: `a` is
/// `attach`, `l` and `ls` are `list`, `s` is `send`, `hi` is `history`, `d`
/// is `detach`, `k` is `kill` and `v` is `version`, whatever the operands.
pub proof fn law_aliases(a: Seq<Seq<char>>, r: Result<Command, CliError>)
    requires
        a.len() > 0,
    ensures
        parsed(a.update(0, "a"@), r) == parsed(a.update(0, "attach"@), r),
        parsed(a.update(0, "l"@), r) == parsed(a.update(0, "list"@), r),
        parsed(a.update(0, "ls"@), r) == parsed(a.update(0, "list"@), r),
        parsed(a.update(0, "s"@), r) == parsed(a.update(0, "send"@), r),
        parsed(a.update(0, "hi"@), r) == parsed(a.update(0, "history"@), r),
        parsed(a.update(0, "d"@), r) == parsed(a.update(0, "detach"@), r),
        parsed(a.update(0, "k"@), r) == parsed(a.update(0, "kill"@), r),
        parsed(a.update(0, "v"@), r) == parsed(a.update(0, "version"@), r),
{
    reveal_strlit("a");
    reveal_strlit("attach");
    reveal_strlit("l");
    reveal_strlit("ls");
    reveal_strlit("list");
    reveal_strlit("s");
    reveal_strlit("send");
    reveal_strlit("hi");
    reveal_strlit("history");
    reveal_strlit("d");
    reveal_strlit("detach");
    reveal_strlit("k");
    reveal_strlit("kill");
    reveal_strlit("v");
    reveal_strlit("version");
    reveal_strlit("--version");
    reveal_strlit("serve-encoded");
    reveal_strlit("start-encoded");
    reveal_strlit("serve");
    reveal_strlit("start");
    reveal_strlit("help");
    reveal_strlit("--help");
    reveal_strlit("-h");
    reveal_strlit("");
    reveal_strlit("prompt-editor-capability");
    reveal_strlit("refresh");
    reveal_strlit("inspect");
    reveal_strlit("exists");
    reveal_strlit("watch-title");
    reveal_strlit("grid");
    reveal_strlit("process-snapshot");
    reveal_strlit("refresh-if-stale");
    reveal_strlit("resize");
    reveal_strlit("--short");
    reveal_strlit("--vt");
    reveal_strlit("--scrollback");
    assert("a"@.len() == 1);
    assert("attach"@.len() == 6);
    assert("l"@.len() == 1);
    assert("ls"@.len() == 2);
    assert("list"@.len() == 4);
    assert("s"@.len() == 1);
    assert("send"@.len() == 4);
    assert("hi"@.len() == 2);
    assert("history"@.len() == 7);
    assert("d"@.len() == 1);
    assert("detach"@.len() == 6);
    assert("k"@.len() == 1);
    assert("kill"@.len() == 4);
    assert("v"@.len() == 1);
    assert("version"@.len() == 7);
    assert("--version"@.len() == 9);
    assert("serve-encoded"@.len() == 13);
    assert("start-encoded"@.len() == 13);
    assert("serve"@.len() == 5);
    assert("start"@.len() == 5);
    assert("help"@.len() == 4);
    assert("--help"@.len() == 6);
    assert("-h"@.len() == 2);
    assert(""@.len() == 0);
    assert("prompt-editor-capability"@.len() == 24);
    assert("refresh"@.len() == 7);
    assert("inspect"@.len() == 7);
    assert("exists"@.len() == 6);
    assert("watch-title"@.len() == 11);
    assert("grid"@.len() == 4);
    assert("process-snapshot"@.len() == 16);
    assert("refresh-if-stale"@.len() == 16);
    assert("resize"@.len() == 6);
    assert("--short"@.len() == 7);
    assert("--vt"@.len() == 4);
    assert("--scrollback"@.len() == 12);
    assert("a"@[0] == 'a');
    assert("attach"@[0] == 'a');
    assert("l"@[0] == 'l');
    assert("ls"@[0] == 'l');
    assert("list"@[0] == 'l');
    assert("s"@[0] == 's');
    assert("send"@[0] == 's');
    assert("hi"@[0] == 'h');
    assert("history"@[0] == 'h');
    assert("d"@[0] == 'd');
    assert("detach"@[0] == 'd');
    assert("k"@[0] == 'k');
    assert("kill"@[0] == 'k');
    assert("v"@[0] == 'v');
    assert("version"@[0] == 'v');
    assert("--version"@[0] == '-');
    assert("serve-encoded"@[0] == 's');
    assert("start-encoded"@[0] == 's');
    assert("serve"@[0] == 's');
    assert("start"@[0] == 's');
    assert("help"@[0] == 'h');
    assert("--help"@[0] == '-');
    assert("-h"@[0] == '-');
    assert("prompt-editor-capability"@[0] == 'p');
    assert("refresh"@[0] == 'r');
    assert("inspect"@[0] == 'i');
    assert("exists"@[0] == 'e');
    assert("watch-title"@[0] == 'w');
    assert("grid"@[0] == 'g');
    assert("process-snapshot"@[0] == 'p');
    assert("refresh-if-stale"@[0] == 'r');
    assert("resize"@[0] == 'r');
    assert("--short"@[0] == '-');
    assert("--vt"@[0] == '-');
    assert("--scrollback"@[0] == '-');
    lemma_same_command(a, "a"@, "attach"@, r);
    lemma_same_command(a, "l"@, "list"@, r);
    lemma_same_command(a, "ls"@, "list"@, r);
    lemma_same_command(a, "s"@, "send"@, r);
    lemma_same_command(a, "hi"@, "history"@, r);
    lemma_same_command(a, "d"@, "detach"@, r);
    lemma_same_command(a, "k"@, "kill"@, r);
    lemma_same_command(a, "v"@, "version"@, r);
}

} // verus!
