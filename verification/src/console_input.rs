//! Translation of console input at the pseudo-console boundary.
//!
//! Character keys that arrive as kitty-style `CSI ... u` sequences, and
//! non-ASCII text, are rewritten into win32-input-mode key records
//! (`ESC [ vk ; sc ; uc ; kd ; cs ; rc _`), because the pseudo console neither
//! decodes CSI-u nor reliably synthesises Unicode text. Everything else passes
//! through byte for byte. Incomplete escape sequences and split UTF-8
//! characters are held back until the rest arrives.
use vstd::prelude::*;
use vstd::utf8::*;
use crate::text::{
    after, all_digits, before, byte_is, decimal, digits_value, find_byte, first_index_where,
    first_scalar, lemma_first_index_where, lemma_first_index_where_bound, parse_decimal, parse_unsigned, push_decimal, push_range,
    utf16_units, utf8_valid, widen,
};

verus! {

/// Bytes held back at most before a malformed or unterminated control string
/// is released unchanged.
pub const PENDING_LIMIT: usize = 65536;

pub open spec fn is_csi_final(b: u8) -> bool {
    0x40 <= b <= 0x7e
}

pub open spec fn csi_final() -> spec_fn(u8) -> bool {
    |b: u8| is_csi_final(b)
}

/// The second byte of an OSC, DCS, APC or PM control string.
pub open spec fn is_string_introducer(b: u8) -> bool {
    b == 0x5d || b == 0x50 || b == 0x5f || b == 0x5e
}

/// Encoded length announced by a UTF-8 lead byte (1 for bytes that cannot lead).
pub open spec fn lead_len(b: u8) -> nat {
    if 0xc2 <= b <= 0xdf {
        2
    } else if 0xe0 <= b <= 0xef {
        3
    } else if 0xf0 <= b <= 0xf4 {
        4
    } else {
        1
    }
}

/// Index of the first string terminator `ESC \` in `s` (`s.len()` when none).
pub open spec fn first_st(s: Seq<u8>) -> nat
    decreases s.len(),
{
    if s.len() < 2 {
        s.len()
    } else if s[0] == 0x1b && s[1] == 0x5c {
        0
    } else {
        1 + first_st(s.drop_first())
    }
}

/// Length of the token that starts the non-empty `rem`, or `None` while the
/// token is still incomplete.
pub open spec fn token_len(rem: Seq<u8>) -> Option<nat> {
    if rem[0] == 0x1b {
        if rem.len() == 1 {
            None
        } else if rem[1] == 0x5b {
            let k = first_index_where(rem.skip(2), csi_final());
            if k < rem.len() - 2 {
                Some(k + 3)
            } else {
                None
            }
        } else if is_string_introducer(rem[1]) {
            let k = first_index_where(rem.skip(2), byte_is(7));
            if k < rem.len() - 2 {
                Some(k + 3)
            } else {
                let j = first_st(rem);
                if j < rem.len() {
                    Some(j + 2)
                } else {
                    None
                }
            }
        } else if rem[1] == 0x4f {
            if rem.len() >= 3 {
                Some(3)
            } else {
                None
            }
        } else {
            Some(1)
        }
    } else if rem[0] < 0x80 {
        Some(1)
    } else if rem.len() >= lead_len(rem[0]) {
        Some(lead_len(rem[0]))
    } else {
        None
    }
}

/// One win32-input-mode key record.
pub open spec fn key_record(vk: nat, unicode: nat, modifiers: nat, down: bool) -> Seq<u8> {
    seq![0x1bu8, 0x5bu8] + decimal(vk) + seq![0x3bu8, 0x30u8, 0x3bu8] + decimal(unicode) + seq![
        0x3bu8,
    ] + decimal(if down { 1 } else { 0 }) + seq![0x3bu8] + decimal(modifiers) + seq![
        0x3bu8,
        0x31u8,
        0x5fu8,
    ]
}

/// The records for a character: one per UTF-16 code unit.
pub open spec fn key_records(vk: nat, text: nat, modifiers: nat, down: bool) -> Seq<u8> {
    let units = utf16_units(text);
    if units.len() == 1 {
        key_record(vk, units[0] as nat, modifiers, down)
    } else {
        key_record(vk, units[0] as nat, modifiers, down) + key_record(vk, units[1] as nat, modifiers, down)
    }
}

pub open spec fn is_scalar_value(v: nat) -> bool {
    v <= 0x10ffff && !(0xd800 <= v <= 0xdfff)
}

pub open spec fn ascii_upper(c: nat) -> nat {
    if 97 <= c <= 122 {
        (c - 32) as nat
    } else {
        c
    }
}

/// Win32 control-key state for a kitty modifier mask.
pub open spec fn control_state(mask: nat) -> nat {
    (if mask % 2 == 1 { 16nat } else { 0nat }) + (if (mask / 2) % 2 == 1 { 2nat } else { 0nat })
        + (if (mask / 4) % 2 == 1 { 8nat } else { 0nat }) + (if (mask / 64) % 2 == 1 {
        128nat
    } else {
        0nat
    }) + (if (mask / 128) % 2 == 1 { 32nat } else { 0nat })
}

/// Whether the flag `bit` (a power of two) is set in `x`.
pub open spec fn has_flag(x: nat, bit: nat) -> bool {
    (x / bit) % 2 == 1
}

/// The Win32 control-key state of a key record carries each kitty modifier
/// as its Win32 flag and nothing else: Shift (1) as `SHIFT_PRESSED` (16),
/// Alt (2) as `LEFT_ALT_PRESSED` (2), Ctrl (4) as `LEFT_CTRL_PRESSED` (8),
/// Caps Lock (64) as `CAPSLOCK_ON` (128) and Num Lock (128) as `NUMLOCK_ON`
/// (32).
pub proof fn law_control_state_flags(mask: nat)
    requires
        mask < 256,
    ensures
        has_flag(control_state(mask), 16) == has_flag(mask, 1),
        has_flag(control_state(mask), 2) == has_flag(mask, 2),
        has_flag(control_state(mask), 8) == has_flag(mask, 4),
        has_flag(control_state(mask), 128) == has_flag(mask, 64),
        has_flag(control_state(mask), 32) == has_flag(mask, 128),
        !has_flag(control_state(mask), 1),
        !has_flag(control_state(mask), 4),
        !has_flag(control_state(mask), 64),
        control_state(mask) < 256,
{
    assert(has_flag(mask, 1) == (mask % 2 == 1));
    let a = mask % 2 == 1;
    let b = (mask / 2) % 2 == 1;
    let c = (mask / 4) % 2 == 1;
    let d = (mask / 64) % 2 == 1;
    let e = (mask / 128) % 2 == 1;
    let x = control_state(mask);
    assert(x == (if a { 16nat } else { 0nat }) + (if b { 2nat } else { 0nat }) + (if c { 8nat } else { 0nat })
        + (if d { 128nat } else { 0nat }) + (if e { 32nat } else { 0nat }));
}

/// Virtual-key code the keyboard layout gives for a UTF-16 code unit: the
/// low byte of the table entry, 0 where the layout has no key (-1 or no entry).
pub open spec fn layout_vk(layout: Seq<i16>, code: nat) -> nat {
    let m: int = if code < layout.len() { layout[code as int] as int } else { -1 };
    if m == -1 {
        0
    } else {
        (m % 256) as nat
    }
}

pub open spec fn vk_for(code: nat, layout: Seq<i16>) -> nat {
    if code == 9 || code == 13 || code == 27 {
        code
    } else if code == 127 {
        8
    } else if code <= 0xffff {
        layout_vk(layout, code)
    } else {
        0
    }
}

/// The character a CSI-u key event types.
pub open spec fn key_text(code: nat, shifted: Option<nat>, mask: nat) -> nat {
    let base = if mask % 2 == 1 {
        match shifted {
            Some(s) => if is_scalar_value(s) {
                s
            } else {
                ascii_upper(code)
            },
            None => ascii_upper(code),
        }
    } else {
        code
    };
    let t = if code == 127 {
        8
    } else {
        base
    };
    if (mask / 4) % 2 == 1 {
        if code == 32 || code == 64 {
            0
        } else if (65 <= code <= 95) || (97 <= code <= 122) {
            code % 32
        } else {
            t
        }
    } else {
        t
    }
}

/// The numeric fields of a CSI-u body `code[:shifted][;mods[:event]]`, as
/// `str::parse` reads them: key code, shifted key, modifier value (default 1)
/// and event type (default 1).
pub open spec fn csi_u_fields(body: Seq<u8>) -> (Option<nat>, Option<nat>, Option<nat>, Option<nat>) {
    let field1 = before(body, 0x3b);
    let shifted = match after(field1, 0x3a) {
        Some(r) => parse_unsigned(before(r, 0x3a), 0xffff_ffff),
        None => None,
    };
    let mods = match after(body, 0x3b) {
        Some(r) => before(r, 0x3b),
        None => seq![0x31u8],
    };
    let event_field = match after(mods, 0x3a) {
        Some(r) => before(r, 0x3a),
        None => seq![0x31u8],
    };
    (
        parse_unsigned(before(field1, 0x3a), 0xffff_ffff),
        shifted,
        parse_unsigned(before(mods, 0x3a), 0xffff_ffff),
        parse_unsigned(event_field, 0xff),
    )
}

/// The key records for a kitty `CSI code[:shifted] [; mods[:event]] u`
/// sequence, when `tok` is one that translates.
pub open spec fn csi_u_records(tok: Seq<u8>, layout: Seq<i16>) -> Option<Seq<u8>> {
    if !valid_utf8(tok) || tok.len() < 3 || tok[0] != 0x1b || tok[1] != 0x5b || tok.last() != 0x75 {
        None
    } else {
        match csi_u_fields(tok.subrange(2, tok.len() - 1)) {
            (Some(code), shifted, Some(m), Some(event)) => {
                let mask = (m - 1) as nat;
                if 57344 <= code <= 63743 || m == 0 || !(mask < 256 && mask % 64 < 8) || !(1 <= event
                    <= 3) || !is_scalar_value(code) {
                    None
                } else {
                    Some(
                        key_records(
                            vk_for(code, layout),
                            key_text(code, shifted, mask),
                            control_state(mask),
                            event != 3,
                        ),
                    )
                }
            },
            _ => None,
        }
    }
}

pub open spec fn paste_start() -> Seq<u8> {
    seq![0x1bu8, 0x5bu8, 0x32u8, 0x30u8, 0x30u8, 0x7eu8]
}

pub open spec fn paste_end() -> Seq<u8> {
    seq![0x1bu8, 0x5bu8, 0x32u8, 0x30u8, 0x31u8, 0x7eu8]
}

/// Output for one complete token and the bracketed-paste state after it.
pub open spec fn emit_token(tok: Seq<u8>, pasted: bool, layout: Seq<i16>) -> (Seq<u8>, bool) {
    if tok[0] == 0x1b {
        let p = if tok == paste_start() {
            true
        } else if tok == paste_end() {
            false
        } else {
            pasted
        };
        match csi_u_records(tok, layout) {
            Some(k) if !p => (k, p),
            _ => (tok, p),
        }
    } else if tok[0] < 0x80 {
        (tok, pasted)
    } else if valid_utf8(tok) {
        (key_records(0, decode_first_scalar(tok) as nat, 0, true), pasted)
    } else {
        (tok, pasted)
    }
}

/// Translates the complete tokens at the front of `rem`: the output, the
/// number of bytes consumed and the bracketed-paste state afterwards.
pub open spec fn translate(rem: Seq<u8>, pasted: bool, layout: Seq<i16>) -> (Seq<u8>, nat, bool)
    decreases rem.len(),
{
    if rem.len() == 0 {
        (seq![], 0, pasted)
    } else {
        match token_len(rem) {
            Some(n) => if 1 <= n <= rem.len() {
                let (o, p) = emit_token(rem.take(n as int), pasted, layout);
                let r = translate(rem.skip(n as int), p, layout);
                (o + r.0, n + r.1, r.2)
            } else {
                (seq![], 0, pasted)
            },
            None => (seq![], 0, pasted),
        }
    }
}

/// Abstract state of a [`ConsoleInput`].
pub struct ConsoleInputView {
    pub pending: Seq<u8>,
    pub pasted: bool,
    pub layout: Seq<i16>,
}

/// The state and output after feeding `bytes`.
pub open spec fn feed_result(v: ConsoleInputView, bytes: Seq<u8>) -> (ConsoleInputView, Seq<u8>) {
    let total = v.pending + bytes;
    let r = translate(total, v.pasted, v.layout);
    let rest = total.skip(r.1 as int);
    if rest.len() > PENDING_LIMIT {
        (ConsoleInputView { pending: seq![], pasted: r.2, layout: v.layout }, r.0 + rest)
    } else {
        (ConsoleInputView { pending: rest, pasted: r.2, layout: v.layout }, r.0)
    }
}

/// The record a lone Escape key produces.
pub open spec fn escape_record() -> Seq<u8> {
    key_record(27, 27, 0, true)
}

/// A byte that translates to itself alone: ASCII other than Escape.
pub open spec fn is_plain(c: u8) -> bool {
    c < 0x80 && c != 0x1b
}

/// `t` starts with a control string (OSC, DCS, APC, PM) that `t` closes with
/// `ESC \` and that holds no BEL.
pub open spec fn closed_by_st(t: Seq<u8>) -> bool {
    &&& t.len() >= 2
    &&& t[0] == 0x1b
    &&& is_string_introducer(t[1])
    &&& !t.skip(2).contains(7u8)
    &&& first_st(t) < t.len()
}

/// The bytes that the control string `t` starts with would, fed whole with
/// `b`, run on over up to the first BEL of `b` are plain: those of `t` after
/// its `ESC \` and those of `b` before that BEL.
pub open spec fn swallows_plain(t: Seq<u8>, b: Seq<u8>) -> bool {
    &&& forall|k: int| first_st(t) + 2 <= k < t.len() ==> is_plain(#[trigger] t[k])
    &&& forall|k: int| 0 <= k < first_index_where(b, byte_is(7)) ==> is_plain(#[trigger] b[k])
}

/// A BEL in `b` does not change how `s` followed by `b` translates: `b` holds
/// no BEL, or every control string in `s` that `s` closes with `ESC \` (and
/// no BEL) is followed, up to the first BEL of `b`, by plain bytes only.
pub open spec fn bel_settled(s: Seq<u8>, b: Seq<u8>) -> bool {
    !b.contains(7u8) || forall|j: int|
        0 <= j < s.len() && closed_by_st(#[trigger] s.skip(j)) ==> swallows_plain(s.skip(j), b)
}

/// Whether feeding `bytes` releases an over-long held-back tail unchanged.
pub open spec fn releases(v: ConsoleInputView, bytes: Seq<u8>) -> bool {
    let total = v.pending + bytes;
    total.skip(translate(total, v.pasted, v.layout).1 as int).len() > PENDING_LIMIT
}

proof fn lemma_first_st_extend(s: Seq<u8>, e: Seq<u8>)
    requires
        first_st(s) < s.len(),
    ensures
        first_st(s + e) == first_st(s),
    decreases s.len(),
{
    let t = s + e;
    assert(t[0] == s[0] && t[1] == s[1]);
    if !(s[0] == 0x1b && s[1] == 0x5c) {
        assert(t.drop_first() =~= s.drop_first() + e);
        lemma_first_st_extend(s.drop_first(), e);
    }
}

proof fn lemma_first_st_found(s: Seq<u8>)
    requires
        first_st(s) < s.len(),
    ensures
        first_st(s) + 1 < s.len(),
        s[first_st(s) as int] == 0x1b,
        s[first_st(s) + 1 as int] == 0x5c,
    decreases s.len(),
{
    if !(s[0] == 0x1b && s[1] == 0x5c) {
        lemma_first_st_found(s.drop_first());
        let f = first_st(s.drop_first());
        assert(s.drop_first()[f as int] == s[f + 1 as int]);
        assert(s.drop_first()[f + 1 as int] == s[f + 2 as int]);
    }
}

proof fn lemma_token_len_stable(rem: Seq<u8>, ext: Seq<u8>)
    requires
        rem.len() > 0,
        token_len(rem) is Some,
        !(ext.contains(7u8) && closed_by_st(rem)),
    ensures
        token_len(rem + ext) == token_len(rem),
{
    let t = rem + ext;
    assert(t[0] == rem[0]);
    if rem[0] == 0x1b && rem.len() > 1 {
        assert(t[1] == rem[1]);
        if rem[1] == 0x5b {
            let k = first_index_where(rem.skip(2), csi_final());
            lemma_first_index_where_bound(rem.skip(2), csi_final());
            let ts = t.skip(2);
            assert forall|j: int| 0 <= j < k implies !csi_final()(#[trigger] ts[j]) by {
                assert(ts[j] == rem.skip(2)[j]);
            }
            assert(ts[k as int] == rem.skip(2)[k as int]);
            lemma_first_index_where(ts, csi_final(), k as int);
        } else if is_string_introducer(rem[1]) {
            let rs = rem.skip(2);
            let ts = t.skip(2);
            let k = first_index_where(rs, byte_is(7));
            lemma_first_index_where_bound(rs, byte_is(7));
            if k < rs.len() {
                assert forall|j: int| 0 <= j < k implies !byte_is(7)(#[trigger] ts[j]) by {
                    assert(ts[j] == rs[j]);
                }
                assert(ts[k as int] == rs[k as int]);
                lemma_first_index_where(ts, byte_is(7), k as int);
            } else {
                if ext.contains(7u8) {
                    assert(!rs.contains(7u8)) by {
                        if rs.contains(7u8) {
                            let i = choose|i: int| 0 <= i < rs.len() && rs[i] == 7u8;
                            assert(!byte_is(7)(rs[i]));
                        }
                    }
                    assert(closed_by_st(rem));
                    assert(false);
                }
                assert forall|j: int| 0 <= j < ts.len() implies !byte_is(7)(#[trigger] ts[j]) by {
                    if j < rs.len() {
                        assert(ts[j] == rs[j]);
                    } else {
                        assert(ts[j] == ext[j - rs.len()]);
                        if ext[j - rs.len()] == 7 {
                            assert(ext.contains(7u8));
                        }
                    }
                }
                lemma_first_index_where(ts, byte_is(7), ts.len() as int);
                lemma_first_st_extend(rem, ext);
            }
        }
    }
}

proof fn lemma_translate_len(rem: Seq<u8>, pasted: bool, layout: Seq<i16>)
    ensures
        translate(rem, pasted, layout).1 <= rem.len(),
    decreases rem.len(),
{
    if rem.len() > 0 {
        if let Some(n) = token_len(rem) {
            if 1 <= n <= rem.len() {
                let p = emit_token(rem.take(n as int), pasted, layout).1;
                lemma_translate_len(rem.skip(n as int), p, layout);
            }
        }
    }
}

proof fn lemma_plain_prefix(x: Seq<u8>, y: Seq<u8>, pasted: bool, layout: Seq<i16>)
    requires
        forall|k: int| 0 <= k < x.len() ==> is_plain(#[trigger] x[k]),
    ensures
        ({
            let r = translate(y, pasted, layout);
            translate(x + y, pasted, layout) == (x + r.0, x.len() + r.1, r.2)
        }),
    decreases x.len(),
{
    let r = translate(y, pasted, layout);
    if x.len() == 0 {
        assert(x + y =~= y);
        assert(x + r.0 =~= r.0);
    } else {
        let t = x + y;
        assert(t[0] == x[0]);
        assert(is_plain(x[0]));
        assert(t.take(1) =~= x.take(1));
        assert(t.skip(1) =~= x.skip(1) + y);
        let xs = x.skip(1);
        assert forall|k: int| 0 <= k < xs.len() implies is_plain(#[trigger] xs[k]) by {
            assert(xs[k] == x[k + 1]);
        }
        lemma_plain_prefix(xs, y, pasted, layout);
        assert(x.take(1) + (xs + r.0) =~= x + r.0);
    }
}

/// Emitting a control string token leaves it and the paste state as they are.
proof fn lemma_emit_string(tok: Seq<u8>, pasted: bool, layout: Seq<i16>)
    requires
        tok.len() >= 2,
        tok[0] == 0x1b,
        is_string_introducer(tok[1]),
    ensures
        emit_token(tok, pasted, layout) == (tok, pasted),
{
    assert(tok != paste_start()) by {
        assert(paste_start()[1] == 0x5b);
    }
    assert(tok != paste_end()) by {
        assert(paste_end()[1] == 0x5b);
    }
}

/// A control string that `rem` closes with `ESC \`, followed by plain
/// bytes, translates to itself.
proof fn lemma_closed_alone(rem: Seq<u8>, pasted: bool, layout: Seq<i16>)
    requires
        closed_by_st(rem),
        forall|k: int| first_st(rem) + 2 <= k < rem.len() ==> is_plain(#[trigger] rem[k]),
    ensures
        translate(rem, pasted, layout) == (rem, rem.len(), pasted),
{
    let f = first_st(rem) as int;
    lemma_first_st_found(rem);
    let rs = rem.skip(2);
    assert forall|j: int| 0 <= j < rs.len() implies !byte_is(7)(#[trigger] rs[j]) by {
        if rs[j] == 7 {
            assert(rs.contains(7u8));
        }
    }
    lemma_first_index_where(rs, byte_is(7), rs.len() as int);
    assert(token_len(rem) == Some((f + 2) as nat));
    let tok = rem.take(f + 2);
    lemma_emit_string(tok, pasted, layout);
    let rest = rem.skip(f + 2);
    assert forall|k: int| 0 <= k < rest.len() implies is_plain(#[trigger] rest[k]) by {
        assert(rest[k] == rem[k + f + 2]);
    }
    lemma_plain_prefix(rest, Seq::empty(), pasted, layout);
    assert(rest + Seq::<u8>::empty() =~= rest);
    assert(tok + rest =~= rem);
}

/// Fed whole with `ext`, a control string that `rem` closes with `ESC \`
/// runs on to the first BEL of `ext` as one token.
proof fn lemma_closed_run_on(rem: Seq<u8>, ext: Seq<u8>, b: int, pasted: bool, layout: Seq<i16>)
    requires
        closed_by_st(rem),
        0 <= b < ext.len(),
        ext[b] == 7,
        forall|k: int| 0 <= k < b ==> ext[k] != 7,
    ensures
        ({
            let tr = translate(ext.skip(b + 1), pasted, layout);
            translate(rem + ext, pasted, layout) == (rem + ext.take(b + 1) + tr.0, (rem.len() + b + 1
                + tr.1) as nat, tr.2)
        }),
{
    let rs = rem.skip(2);
    let t = rem + ext;
    let ts = t.skip(2);
    let m = rem.len() - 2;
    assert forall|j: int| 0 <= j < m + b implies !byte_is(7)(#[trigger] ts[j]) by {
        if j < m {
            assert(ts[j] == rs[j]);
            if rs[j] == 7 {
                assert(rs.contains(7u8));
            }
        } else {
            assert(ts[j] == ext[j - m]);
        }
    }
    assert(ts[m + b] == ext[b]);
    lemma_first_index_where(ts, byte_is(7), m + b);
    let n = rem.len() + b + 1;
    assert(t[0] == rem[0] && t[1] == rem[1]);
    assert(token_len(t) == Some(n as nat));
    let whole = t.take(n);
    lemma_emit_string(whole, pasted, layout);
    assert(t.skip(n) =~= ext.skip(b + 1));
    assert(whole =~= rem + ext.take(b + 1));
}

/// A control string that `rem` closes with `ESC \`, followed by plain bytes
/// up to the first BEL of `ext`, translates fed whole as fed in two parts.
proof fn lemma_translate_closed(rem: Seq<u8>, ext: Seq<u8>, pasted: bool, layout: Seq<i16>)
    requires
        closed_by_st(rem),
        ext.contains(7u8),
        swallows_plain(rem, ext),
    ensures
        ({
            let r = translate(rem, pasted, layout);
            let tail = translate(rem.skip(r.1 as int) + ext, r.2, layout);
            &&& r.1 <= rem.len()
            &&& translate(rem + ext, pasted, layout) == (r.0 + tail.0, r.1 + tail.1, tail.2)
        }),
{
    lemma_closed_alone(rem, pasted, layout);
    assert(rem.skip(rem.len() as int) + ext =~= ext);
    let b = first_index_where(ext, byte_is(7)) as int;
    lemma_first_index_where_bound(ext, byte_is(7));
    assert(b < ext.len()) by {
        if b >= ext.len() {
            let i = choose|i: int| 0 <= i < ext.len() && ext[i] == 7u8;
            assert(!byte_is(7)(ext[i]));
        }
    }
    assert forall|k: int| 0 <= k < b implies ext[k] != 7 by {
        assert(!byte_is(7)(ext[k]));
    }
    lemma_closed_run_on(rem, ext, b, pasted, layout);
    let e1 = ext.take(b + 1);
    assert forall|k: int| 0 <= k < e1.len() implies is_plain(#[trigger] e1[k]) by {
        assert(e1[k] == ext[k]);
    }
    lemma_plain_prefix(e1, ext.skip(b + 1), pasted, layout);
    assert(e1 + ext.skip(b + 1) =~= ext);
    let tr = translate(ext.skip(b + 1), pasted, layout);
    assert(rem + (e1 + tr.0) =~= rem + e1 + tr.0);
}

proof fn lemma_settled_skip(rem: Seq<u8>, ext: Seq<u8>, n: int)
    requires
        bel_settled(rem, ext),
        0 <= n <= rem.len(),
    ensures
        bel_settled(rem.skip(n), ext),
{
    let rs = rem.skip(n);
    if ext.contains(7u8) {
        assert forall|j: int| 0 <= j < rs.len() && closed_by_st(#[trigger] rs.skip(j)) implies swallows_plain(
            rs.skip(j),
            ext,
        ) by {
            assert(rs.skip(j) =~= rem.skip(j + n));
        }
    }
}

/// Translating `rem` translates its first token, of length `n`, then the rest.
proof fn lemma_translate_front(rem: Seq<u8>, n: nat, pasted: bool, layout: Seq<i16>)
    requires
        rem.len() > 0,
        1 <= n <= rem.len(),
        token_len(rem) == Some(n),
    ensures
        ({
            let (o, p) = emit_token(rem.take(n as int), pasted, layout);
            let r2 = translate(rem.skip(n as int), p, layout);
            translate(rem, pasted, layout) == (o + r2.0, n + r2.1, r2.2)
        }),
{
}

/// One token of length `n` at the front of `rem`, and of `rem + ext`.
proof fn lemma_translate_step(rem: Seq<u8>, ext: Seq<u8>, n: nat, pasted: bool, layout: Seq<i16>)
    requires
        rem.len() > 0,
        1 <= n <= rem.len(),
        token_len(rem) == Some(n),
        token_len(rem + ext) == Some(n),
    ensures
        ({
            let (o, p) = emit_token(rem.take(n as int), pasted, layout);
            let r2 = translate(rem.skip(n as int), p, layout);
            let w2 = translate(rem.skip(n as int) + ext, p, layout);
            &&& translate(rem, pasted, layout) == (o + r2.0, n + r2.1, r2.2)
            &&& translate(rem + ext, pasted, layout) == (o + w2.0, n + w2.1, w2.2)
        }),
{
    let t = rem + ext;
    assert(t.take(n as int) =~= rem.take(n as int));
    assert(t.skip(n as int) =~= rem.skip(n as int) + ext);
}

#[verifier::rlimit(40)]
#[verifier::spinoff_prover]
proof fn lemma_translate_extend(rem: Seq<u8>, ext: Seq<u8>, pasted: bool, layout: Seq<i16>)
    requires
        bel_settled(rem, ext),
    ensures
        ({
            let r = translate(rem, pasted, layout);
            let tail = translate(rem.skip(r.1 as int) + ext, r.2, layout);
            &&& r.1 <= rem.len()
            &&& translate(rem + ext, pasted, layout) == (r.0 + tail.0, r.1 + tail.1, tail.2)
        }),
    decreases rem.len(),
{
    let r = translate(rem, pasted, layout);
    if rem.len() == 0 {
        assert(rem + ext =~= ext);
        assert(rem.skip(0) + ext =~= ext);
        assert(r.0 + translate(ext, pasted, layout).0 =~= translate(ext, pasted, layout).0);
    } else {
        match token_len(rem) {
            None => {
                assert(rem.skip(0) =~= rem);
                assert(r.0 + translate(rem + ext, pasted, layout).0 =~= translate(
                    rem + ext,
                    pasted,
                    layout,
                ).0);
            },
            Some(n) => {
                if 1 <= n <= rem.len() && ext.contains(7u8) && closed_by_st(rem) {
                    assert(rem.skip(0) =~= rem);
                    lemma_translate_closed(rem, ext, pasted, layout);
                } else if 1 <= n <= rem.len() {
                    lemma_token_len_stable(rem, ext);
                    lemma_translate_step(rem, ext, n, pasted, layout);
                    let rs = rem.skip(n as int);
                    lemma_settled_skip(rem, ext, n as int);
                    let (o, p) = emit_token(rem.take(n as int), pasted, layout);
                    lemma_translate_extend(rs, ext, p, layout);
                    let r2 = translate(rs, p, layout);
                    assert(rem.skip(r.1 as int) =~= rs.skip(r2.1 as int));
                    let tail = translate(rs.skip(r2.1 as int) + ext, r2.2, layout);
                    assert(o + (r2.0 + tail.0) =~= (o + r2.0) + tail.0);
                } else {
                    assert(rem.skip(0) =~= rem);
                    assert(r.0 + translate(rem + ext, pasted, layout).0 =~= translate(
                        rem + ext,
                        pasted,
                        layout,
                    ).0);
                }
            },
        }
    }
}

/// Splitting the input between two feeds gives the same output and state as
/// one feed of the whole, wherever the split falls, unless a feed releases
/// an over-long tail, or a control string (OSC, DCS, APC, PM) that the first
/// part closes with `ESC \` would, fed whole, run on to a BEL in the second
/// part over bytes that translate otherwise than to themselves (Escape,
/// non-ASCII).
pub proof fn law_feed_split(v: ConsoleInputView, a: Seq<u8>, b: Seq<u8>)
    requires
        bel_settled(v.pending + a, b),
        !releases(v, a),
        !releases(v, a + b),
    ensures
        ({
            let (v1, o1) = feed_result(v, a);
            let (v2, o2) = feed_result(v1, b);
            let (w, o) = feed_result(v, a + b);
            &&& o1 + o2 == o
            &&& v2 == w
        }),
{
    let total = v.pending + a;
    assert(v.pending + (a + b) =~= total + b);
    lemma_translate_extend(total, b, v.pasted, v.layout);
    let r = translate(total, v.pasted, v.layout);
    let (v1, o1) = feed_result(v, a);
    assert(v1.pending == total.skip(r.1 as int));
    let tail = translate(total.skip(r.1 as int) + b, r.2, v.layout);
    lemma_translate_len(total.skip(r.1 as int) + b, r.2, v.layout);
    assert((total + b).skip((r.1 + tail.1) as int) =~= (total.skip(r.1 as int) + b).skip(
        tail.1 as int,
    ));
}

/// Console input translator. `layout` maps each UTF-16 code unit to the
/// keyboard layout's virtual-key scan result (`VkKeyScanW`): low byte the
/// virtual-key code, -1 where the layout has no key.
pub struct ConsoleInput {
    pending: Vec<u8>,
    pasted: bool,
    layout: Vec<i16>,
}

impl View for ConsoleInput {
    type V = ConsoleInputView;

    closed spec fn view(&self) -> ConsoleInputView {
        ConsoleInputView { pending: self.pending@, pasted: self.pasted, layout: self.layout@ }
    }
}

impl Default for ConsoleInput {
    fn default() -> (r: Self)
        ensures
            r@.pending == Seq::<u8>::empty(),
            !r@.pasted,
            r@.layout == Seq::<i16>::empty(),
    {
        ConsoleInput::new()
    }
}

/// Appends one win32-input-mode key record to `out`.
pub fn record(out: &mut Vec<u8>, vk: u64, unicode: u64, modifiers: u64, down: bool)
    ensures
        final(out)@ == old(out)@ + key_record(vk as nat, unicode as nat, modifiers as nat, down),
{
    let ghost start = out@;
    out.push(0x1b);
    out.push(0x5b);
    push_decimal(out, vk);
    out.push(0x3b);
    out.push(0x30);
    out.push(0x3b);
    push_decimal(out, unicode);
    out.push(0x3b);
    push_decimal(out, if down { 1 } else { 0 });
    out.push(0x3b);
    push_decimal(out, modifiers);
    out.push(0x3b);
    out.push(0x31);
    out.push(0x5f);
    assert(out@ =~= start + key_record(vk as nat, unicode as nat, modifiers as nat, down));
}

/// Appends the records for the character with scalar value `text`.
fn push_key_records(out: &mut Vec<u8>, vk: u64, text: u32, modifiers: u64, down: bool)
    requires
        is_scalar_value(text as nat),
    ensures
        final(out)@ == old(out)@ + key_records(vk as nat, text as nat, modifiers as nat, down),
{
    let ghost start = out@;
    if text < 0x10000 {
        record(out, vk, text as u64, modifiers, down);
    } else {
        let w = text - 0x10000;
        record(out, vk, (0xD800 + w / 1024) as u64, modifiers, down);
        record(out, vk, (0xDC00 + w % 1024) as u64, modifiers, down);
        assert(out@ =~= start + key_records(vk as nat, text as nat, modifiers as nat, down));
    }
}

/// Virtual-key code for a key code under `layout`.
fn virtual_key(code: u32, layout: &[i16]) -> (vk: u64)
    ensures
        vk == vk_for(code as nat, layout@),
{
    if code == 9 || code == 13 || code == 27 {
        code as u64
    } else if code == 127 {
        8
    } else if code <= 0xffff {
        let m: i32 = if (code as usize) < layout.len() {
            layout[code as usize] as i32
        } else {
            -1
        };
        if m == -1 {
            0
        } else {
            let u: i32 = if m < 0 {
                m + 65536
            } else {
                m
            };
            assert((u % 256) == (m as int % 256)) by {
                assert(u == m || u == m + 65536);
                assert((m + 65536) % 256 == m % 256) by (nonlinear_arith);
            }
            (u % 256) as u64
        }
    } else {
        0
    }
}

/// Kitty modifier bits are distinct Win32 control-state bits.
fn win32_state(mask: u32) -> (s: u64)
    requires
        mask < 256,
    ensures
        s == control_state(mask as nat),
{
    let mut s: u64 = 0;
    if mask % 2 == 1 {
        s = s + 16;
    }
    if (mask / 2) % 2 == 1 {
        s = s + 2;
    }
    if (mask / 4) % 2 == 1 {
        s = s + 8;
    }
    if (mask / 64) % 2 == 1 {
        s = s + 128;
    }
    if (mask / 128) % 2 == 1 {
        s = s + 32;
    }
    s
}

fn typed_text(code: u32, shifted: Option<u64>, mask: u32) -> (t: u32)
    requires
        is_scalar_value(code as nat),
    ensures
        t as nat == key_text(code as nat, widen(shifted), mask as nat),
        is_scalar_value(t as nat),
{
    let base: u32 = if mask % 2 == 1 {
        match shifted {
            Some(s) => if s <= 0x10ffff && !(0xd800 <= s && s <= 0xdfff) {
                s as u32
            } else if 97 <= code && code <= 122 {
                code - 32
            } else {
                code
            },
            None => if 97 <= code && code <= 122 {
                code - 32
            } else {
                code
            },
        }
    } else {
        code
    };
    let t: u32 = if code == 127 {
        8
    } else {
        base
    };
    if (mask / 4) % 2 == 1 {
        if code == 32 || code == 64 {
            0
        } else if (65 <= code && code <= 95) || (97 <= code && code <= 122) {
            code % 32
        } else {
            t
        }
    } else {
        t
    }
}

/// Reads the modifier value and event type of the CSI-u modifier field
/// `bytes[ms..me]` (`mods[:event]`).
fn modifier_fields_of(bytes: &[u8], ms: usize, me: usize) -> (r: (Option<u64>, Option<u64>))
    requires
        ms <= me <= bytes@.len(),
    ensures
        ({
            let mods = bytes@.subrange(ms as int, me as int);
            let event_field = match after(mods, 0x3a) {
                Some(r) => before(r, 0x3a),
                None => seq![0x31u8],
            };
            &&& widen(r.0) == parse_unsigned(before(mods, 0x3a), 0xffff_ffff)
            &&& widen(r.1) == parse_unsigned(event_field, 0xff)
        }),
{
    let ghost mods = bytes@.subrange(ms as int, me as int);
    let m1 = find_byte(bytes, ms, me, 0x3a);
    assert(before(mods, 0x3a) =~= bytes@.subrange(ms as int, m1 as int));
    let mask_value = parse_decimal(bytes, ms, m1, 0xffff_ffff);
    if m1 < me {
        let m2 = find_byte(bytes, m1 + 1, me, 0x3a);
        assert(after(mods, 0x3a) == Some(bytes@.subrange(m1 + 1, me as int)));
        assert(before(bytes@.subrange(m1 + 1, me as int), 0x3a) =~= bytes@.subrange(
            m1 + 1,
            m2 as int,
        ));
        (mask_value, parse_decimal(bytes, m1 + 1, m2, 0xff))
    } else {
        assert(after(mods, 0x3a) is None);
        proof {
            lemma_parse_one();
        }
        (mask_value, Some(1))
    }
}

/// Reads the numeric fields of the CSI-u body `bytes[bs..be]`.
fn csi_u_fields_of(bytes: &[u8], bs: usize, be: usize) -> (r: (
    Option<u64>,
    Option<u64>,
    Option<u64>,
    Option<u64>,
))
    requires
        bs <= be <= bytes@.len(),
    ensures
        ({
            let f = csi_u_fields(bytes@.subrange(bs as int, be as int));
            &&& widen(r.0) == f.0
            &&& widen(r.1) == f.1
            &&& widen(r.2) == f.2
            &&& widen(r.3) == f.3
        }),
{
    let ghost body = bytes@.subrange(bs as int, be as int);
    let s1 = find_byte(bytes, bs, be, 0x3b);
    let ghost field1 = before(body, 0x3b);
    assert(field1 =~= bytes@.subrange(bs as int, s1 as int));
    let c1 = find_byte(bytes, bs, s1, 0x3a);
    assert(before(field1, 0x3a) =~= bytes@.subrange(bs as int, c1 as int));
    let code = parse_decimal(bytes, bs, c1, 0xffff_ffff);
    let shifted: Option<u64> = if c1 < s1 {
        let c2 = find_byte(bytes, c1 + 1, s1, 0x3a);
        assert(after(field1, 0x3a) == Some(bytes@.subrange(c1 + 1, s1 as int)));
        assert(before(bytes@.subrange(c1 + 1, s1 as int), 0x3a) =~= bytes@.subrange(
            c1 + 1,
            c2 as int,
        ));
        parse_decimal(bytes, c1 + 1, c2, 0xffff_ffff)
    } else {
        assert(after(field1, 0x3a) is None);
        None
    };
    if s1 < be {
        let s2 = find_byte(bytes, s1 + 1, be, 0x3b);
        assert(after(body, 0x3b) == Some(bytes@.subrange(s1 + 1, be as int)));
        assert(before(bytes@.subrange(s1 + 1, be as int), 0x3b) =~= bytes@.subrange(
            s1 + 1,
            s2 as int,
        ));
        let (mask_value, event_value) = modifier_fields_of(bytes, s1 + 1, s2);
        (code, shifted, mask_value, event_value)
    } else {
        assert(after(body, 0x3b) is None);
        proof {
            lemma_parse_one();
            let one = seq![0x31u8];
            lemma_first_index_where(one, byte_is(0x3a), 1);
            assert(before(one, 0x3a) =~= one);
            assert(after(one, 0x3a) is None);
        }
        (code, shifted, Some(1), Some(1))
    }
}

/// Translates a complete escape token `bytes[start..end]` when it is a
/// CSI-u key event.
fn csi_u(bytes: &[u8], start: usize, end: usize, layout: &[i16]) -> (r: Option<Vec<u8>>)
    requires
        start <= end <= bytes@.len(),
    ensures
        match r {
            Some(v) => csi_u_records(bytes@.subrange(start as int, end as int), layout@) == Some(
                v@,
            ),
            None => csi_u_records(bytes@.subrange(start as int, end as int), layout@) is None,
        },
{
    let ghost tok = bytes@.subrange(start as int, end as int);
    if end - start < 3 || bytes[start] != 0x1b || bytes[start + 1] != 0x5b || bytes[end - 1]
        != 0x75 {
        return None;
    }
    if !utf8_valid(bytes, start, end) {
        return None;
    }
    assert(tok.subrange(2, tok.len() - 1) =~= bytes@.subrange(start + 2, end - 1));
    let (code_value, shifted, mask_value, event_value) = csi_u_fields_of(bytes, start + 2, end - 1);
    let (code, m, event) = match (code_value, mask_value, event_value) {
        (Some(c), Some(m), Some(e)) => (c, m, e),
        _ => {
            return None;
        },
    };
    if (57344 <= code && code <= 63743) || m == 0 {
        return None;
    }
    let mask = m - 1;
    if !(mask < 256 && mask % 64 < 8) || !(1 <= event && event <= 3) {
        return None;
    }
    if !(code <= 0x10ffff && !(0xd800 <= code && code <= 0xdfff)) {
        return None;
    }
    let code32 = code as u32;
    let mask32 = mask as u32;
    let vk = virtual_key(code32, layout);
    let text = typed_text(code32, shifted, mask32);
    let state = win32_state(mask32);
    let mut out: Vec<u8> = Vec::new();
    push_key_records(&mut out, vk, text, state, event != 3);
    assert(out@ =~= key_records(
        vk_for(code as nat, layout@),
        key_text(code as nat, widen(shifted), mask as nat),
        control_state(mask as nat),
        event != 3,
    ));
    Some(out)
}

proof fn lemma_parse_one()
    ensures
        parse_unsigned(seq![0x31u8], 0xffff_ffff) == Some(1nat),
        parse_unsigned(seq![0x31u8], 0xff) == Some(1nat),
{
    let one = seq![0x31u8];
    assert(one.drop_last() =~= Seq::<u8>::empty());
    assert(digits_value(Seq::<u8>::empty()) == 0);
    assert(digits_value(one) == 1);
    assert(all_digits(one));
}

proof fn lemma_first_st(s: Seq<u8>, k: int)
    requires
        0 <= k,
        k + 1 < s.len(),
        s[k] == 0x1b && s[k + 1] == 0x5c,
        forall|j: int| 0 <= j < k ==> !(#[trigger] s[j] == 0x1b && s[j + 1] == 0x5c),
    ensures
        first_st(s) == k,
    decreases k,
{
    if k > 0 {
        let t = s.drop_first();
        assert forall|j: int| 0 <= j < k - 1 implies !(#[trigger] t[j] == 0x1b && t[j + 1]
            == 0x5c) by {
            assert(t[j] == s[j + 1] && t[j + 1] == s[j + 2]);
        }
        lemma_first_st(t, k - 1);
    }
}

proof fn lemma_first_st_none(s: Seq<u8>)
    requires
        forall|j: int| 0 <= j && j + 1 < s.len() ==> !(#[trigger] s[j] == 0x1b && s[j + 1] == 0x5c),
    ensures
        first_st(s) == s.len(),
    decreases s.len(),
{
    if s.len() >= 2 {
        let t = s.drop_first();
        assert forall|j: int| 0 <= j && j + 1 < t.len() implies !(#[trigger] t[j] == 0x1b && t[j
            + 1] == 0x5c) by {
            assert(t[j] == s[j + 1] && t[j + 1] == s[j + 2]);
        }
        lemma_first_st_none(t);
    }
}

/// Position of the first CSI final byte in `bytes[from..to]`, or `to`.
fn find_csi_final(bytes: &[u8], from: usize, to: usize) -> (k: usize)
    requires
        from <= to <= bytes@.len(),
    ensures
        from <= k <= to,
        k == from + first_index_where(bytes@.subrange(from as int, to as int), csi_final()),
{
    let ghost s = bytes@.subrange(from as int, to as int);
    let mut k = from;
    while k < to && !(0x40 <= bytes[k] && bytes[k] <= 0x7e)
        invariant
            from <= k <= to <= bytes@.len(),
            s == bytes@.subrange(from as int, to as int),
            forall|j: int| 0 <= j < k - from ==> !csi_final()(#[trigger] s[j]),
        decreases to - k,
    {
        k = k + 1;
    }
    proof {
        lemma_first_index_where(s, csi_final(), k - from);
    }
    k
}

/// Position of the first string terminator in `bytes[from..to]`, or `to`.
fn find_st(bytes: &[u8], from: usize, to: usize) -> (k: usize)
    requires
        from <= to <= bytes@.len(),
    ensures
        from <= k <= to,
        k < to ==> k + 2 <= to,
        k == from + first_st(bytes@.subrange(from as int, to as int)),
{
    let ghost s = bytes@.subrange(from as int, to as int);
    let mut k = from;
    while to - k >= 2 && !(bytes[k] == 0x1b && bytes[k + 1] == 0x5c)
        invariant
            from <= k <= to <= bytes@.len(),
            s == bytes@.subrange(from as int, to as int),
            forall|j: int| 0 <= j < k - from ==> !(#[trigger] s[j] == 0x1b && s[j + 1] == 0x5c),
        decreases to - k,
    {
        k = k + 1;
    }
    if to - k >= 2 {
        proof {
            lemma_first_st(s, k - from);
        }
        k
    } else {
        proof {
            assert forall|j: int| 0 <= j && j + 1 < s.len() implies !(#[trigger] s[j] == 0x1b
                && s[j + 1] == 0x5c) by {
                assert(j < k - from);
            }
            lemma_first_st_none(s);
        }
        to
    }
}

/// Length of the token at `p[offset..]`, or `None` while it is incomplete.
fn token_length(p: &[u8], offset: usize) -> (r: Option<usize>)
    requires
        offset < p@.len(),
    ensures
        match r {
            Some(n) => token_len(p@.skip(offset as int)) == Some(n as nat) && 1 <= n <= p@.len()
                - offset,
            None => token_len(p@.skip(offset as int)) is None,
        },
{
    let ghost rem = p@.skip(offset as int);
    let len = p.len();
    let b0 = p[offset];
    assert(rem[0] == b0);
    assert(rem.len() == len - offset);
    if b0 == 0x1b {
        if len - offset == 1 {
            return None;
        }
        let b1 = p[offset + 1];
        assert(rem[1] == b1);
        assert(rem.skip(2) =~= p@.subrange(offset + 2, len as int));
        if b1 == 0x5b {
            let k = find_csi_final(p, offset + 2, len);
            if k == len {
                None
            } else {
                Some(k - offset + 1)
            }
        } else if b1 == 0x5d || b1 == 0x50 || b1 == 0x5f || b1 == 0x5e {
            let k = find_byte(p, offset + 2, len, 7);
            if k < len {
                Some(k - offset + 1)
            } else {
                assert(rem =~= p@.subrange(offset as int, len as int));
                let j = find_st(p, offset, len);
                if j < len {
                    Some(j - offset + 2)
                } else {
                    None
                }
            }
        } else if b1 == 0x4f {
            if len - offset >= 3 {
                Some(3)
            } else {
                None
            }
        } else {
            Some(1)
        }
    } else if b0 < 0x80 {
        Some(1)
    } else {
        let n: usize = if 0xc2 <= b0 && b0 <= 0xdf {
            2
        } else if 0xe0 <= b0 && b0 <= 0xef {
            3
        } else if 0xf0 <= b0 && b0 <= 0xf4 {
            4
        } else {
            1
        };
        if len - offset >= n {
            Some(n)
        } else {
            None
        }
    }
}

/// Whether `p[start..end]` is the six-byte sequence `ESC [ 2 0 d ~`.
fn is_paste_marker(p: &[u8], start: usize, end: usize, d: u8) -> (r: bool)
    requires
        start <= end <= p@.len(),
    ensures
        r == (p@.subrange(start as int, end as int) == seq![0x1bu8, 0x5bu8, 0x32u8, 0x30u8, d, 0x7eu8]),
{
    let ghost tok = p@.subrange(start as int, end as int);
    let ghost pat = seq![0x1bu8, 0x5bu8, 0x32u8, 0x30u8, d, 0x7eu8];
    if end - start != 6 {
        assert(tok.len() != pat.len());
        return false;
    }
    let r = p[start] == 0x1b && p[start + 1] == 0x5b && p[start + 2] == 0x32 && p[start + 3] == 0x30
        && p[start + 4] == d && p[start + 5] == 0x7e;
    if r {
        assert(tok =~= pat);
    } else {
        assert(tok != pat) by {
            if tok == pat {
                assert(tok[0] == pat[0] && tok[1] == pat[1] && tok[2] == pat[2] && tok[3] == pat[3]
                    && tok[4] == pat[4] && tok[5] == pat[5]);
            }
        }
    }
    r
}

/// Appends the output for the complete token `p[start..end]`; returns the
/// bracketed-paste state after it.
fn emit(p: &[u8], start: usize, end: usize, pasted: bool, layout: &[i16], out: &mut Vec<u8>) -> (np:
    bool)
    requires
        start < end <= p@.len(),
    ensures
        ({
            let e = emit_token(p@.subrange(start as int, end as int), pasted, layout@);
            final(out)@ == old(out)@ + e.0 && np == e.1
        }),
{
    let ghost tok = p@.subrange(start as int, end as int);
    let b0 = p[start];
    if b0 == 0x1b {
        let np = if is_paste_marker(p, start, end, 0x30) {
            true
        } else if is_paste_marker(p, start, end, 0x31) {
            false
        } else {
            pasted
        };
        if !np {
            match csi_u(p, start, end, layout) {
                Some(mut k) => {
                    out.append(&mut k);
                    return np;
                },
                None => {},
            }
        }
        push_range(out, p, start, end);
        np
    } else if b0 < 0x80 {
        push_range(out, p, start, end);
        pasted
    } else if utf8_valid(p, start, end) {
        match first_scalar(p, start, end) {
            Some((cp, _)) => {
                push_key_records(out, 0, cp, 0, true);
            },
            None => {},
        }
        pasted
    } else {
        push_range(out, p, start, end);
        pasted
    }
}

impl ConsoleInput {
    /// A translator with an empty keyboard layout: every character key maps
    /// to virtual-key code 0.
    pub fn new() -> (r: Self)
        ensures
            r@.pending == Seq::<u8>::empty(),
            !r@.pasted,
            r@.layout == Seq::<i16>::empty(),
    {
        ConsoleInput { pending: Vec::new(), pasted: false, layout: Vec::new() }
    }

    /// A translator that looks virtual-key codes up in `layout`, indexed by
    /// UTF-16 code unit.
    pub fn with_layout(layout: Vec<i16>) -> (r: Self)
        ensures
            r@.pending == Seq::<u8>::empty(),
            !r@.pasted,
            r@.layout == layout@,
    {
        ConsoleInput { pending: Vec::new(), pasted: false, layout }
    }

    /// Translates the complete tokens of the held-back bytes followed by
    /// `bytes`, and holds back an incomplete trailing token. When more than
    /// [`PENDING_LIMIT`] bytes would stay held back they are released as they
    /// are, so a malformed or unterminated control string loses no bytes.
    #[verifier::rlimit(80)]
    #[verifier::spinoff_prover]
    pub fn feed(&mut self, bytes: &[u8]) -> (output: Vec<u8>)
        ensures
            (final(self)@, output@) == feed_result(old(self)@, bytes@),
            final(self)@.pending.len() <= PENDING_LIMIT,
    {
        push_range(&mut self.pending, bytes, 0, bytes.len());
        assert(bytes@.subrange(0, bytes@.len() as int) =~= bytes@);
        let ghost total = self.pending@;
        let ghost pasted0 = self.pasted;
        let mut pasted = self.pasted;
        let mut output: Vec<u8> = Vec::new();
        let mut offset: usize = 0;
        assert(total.skip(0) =~= total);
        while offset < self.pending.len()
            invariant
                offset <= self.pending@.len(),
                self.pending@ == total,
                ({
                    let whole = translate(total, pasted0, self.layout@);
                    let part = translate(total.skip(offset as int), pasted, self.layout@);
                    &&& whole.0 == output@ + part.0
                    &&& whole.1 == offset + part.1
                    &&& whole.2 == part.2
                }),
            ensures
                offset <= self.pending@.len(),
                self.pending@ == total,
                ({
                    let whole = translate(total, pasted0, self.layout@);
                    let part = translate(total.skip(offset as int), pasted, self.layout@);
                    &&& whole.0 == output@ + part.0
                    &&& whole.1 == offset + part.1
                    &&& whole.2 == part.2
                    &&& part.1 == 0
                    &&& part.0 == Seq::<u8>::empty()
                    &&& part.2 == pasted
                }),
            decreases self.pending@.len() - offset,
        {
            let ghost rem = total.skip(offset as int);
            match token_length(self.pending.as_slice(), offset) {
                None => {
                    break;
                },
                Some(n) => {
                    let ghost before_output = output@;
                    let np = emit(
                        self.pending.as_slice(),
                        offset,
                        offset + n,
                        pasted,
                        self.layout.as_slice(),
                        &mut output,
                    );
                    proof {
                        lemma_translate_front(rem, n as nat, pasted, self.layout@);
                        assert(rem.take(n as int) =~= total.subrange(offset as int, offset + n));
                        assert(rem.skip(n as int) =~= total.skip(offset + n));
                        let tail = translate(total.skip(offset + n), np, self.layout@);
                        assert(translate(rem, pasted, self.layout@).0 =~= (output@.subrange(
                            before_output.len() as int,
                            output@.len() as int,
                        )) + tail.0);
                        assert(output@ =~= before_output + output@.subrange(
                            before_output.len() as int,
                            output@.len() as int,
                        ));
                    }
                    pasted = np;
                    offset = offset + n;
                },
            }
        }
        self.pasted = pasted;
        let rest = self.pending.split_off(offset);
        self.pending = rest;
        if self.pending.len() > PENDING_LIMIT {
            let mut released = Vec::new();
            std::mem::swap(&mut released, &mut self.pending);
            output.append(&mut released);
        }
        output
    }

    /// Releases a lone held-back Escape as the Escape key; anything else
    /// (a split UTF-8 character or escape sequence) stays held back.
    pub fn idle(&mut self) -> (output: Vec<u8>)
        ensures
            old(self)@.pending == seq![0x1bu8] ==> output@ == escape_record() && final(self)@
                == (ConsoleInputView { pending: seq![], ..old(self)@ }),
            old(self)@.pending != seq![0x1bu8] ==> output@ == Seq::<u8>::empty() && final(self)@
                == old(self)@,
    {
        if self.pending.len() == 1 && self.pending[0] == 0x1b {
            assert(self.pending@ =~= seq![0x1bu8]);
            self.finish()
        } else {
            proof {
                if self.pending@ == seq![0x1bu8] {
                    assert(self.pending@.len() == 1 && self.pending@[0] == 0x1b);
                }
            }
            Vec::new()
        }
    }

    /// Releases everything held back: a lone Escape as the Escape key, any
    /// other bytes unchanged.
    pub fn finish(&mut self) -> (output: Vec<u8>)
        ensures
            old(self)@.pending == seq![0x1bu8] ==> output@ == escape_record(),
            old(self)@.pending != seq![0x1bu8] ==> output@ == old(self)@.pending,
            final(self)@ == (ConsoleInputView { pending: seq![], ..old(self)@ }),
    {
        if self.pending.len() == 1 && self.pending[0] == 0x1b {
            assert(self.pending@ =~= seq![0x1bu8]);
            self.pending.clear();
            let mut encoded = Vec::new();
            record(&mut encoded, 27, 27, 0, true);
            assert(encoded@ =~= escape_record());
            return encoded;
        }
        proof {
            if self.pending@ == seq![0x1bu8] {
                assert(self.pending@.len() == 1 && self.pending@[0] == 0x1b);
            }
        }
        let mut taken = Vec::new();
        std::mem::swap(&mut taken, &mut self.pending);
        assert(self@.pending =~= Seq::<u8>::empty());
        taken
    }
}

} // verus!
