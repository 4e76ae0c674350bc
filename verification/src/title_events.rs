//! Terminal title coalescing. Titles are compared by a semantic signature
//! that ignores spinner glyphs, whitespace runs, trailing dots after
//! `Working` and trailing elapsed-time counters. A changed signature is
//! published once it has been stable for one second (at most six seconds
//! after a burst of changes began); a title that differs from the published
//! one only in spinner or timing text is republished as a heartbeat at most
//! every two seconds.
use vstd::prelude::*;
use crate::text::{
    chars_of, first_index_where, lemma_first_index_where, lemma_first_index_where_bound,
    lemma_trailing_count, lemma_trailing_count_bound, negate, push_chars, string_of, strip_back, strip_front,
    trailing_count,
};

verus! {

/// One second, in the nanoseconds that timestamps count.
pub const SECOND: u64 = 1_000_000_000;

pub open spec fn is_whitespace(c: char) -> bool {
    c == ' ' || c == '\t' || c == '\n' || c == '\r'
}

/// Spinner and status glyphs that agents animate in their titles.
pub open spec fn is_animated(c: char) -> bool {
    let u = c as u32;
    ||| (0x2800 <= u <= 0x28ff)
    ||| u == 0xb7
    ||| u == 0x2022
    ||| u == 0x22c5
    ||| u == 0x25e6
    ||| u == 0x2733
    ||| u == 0x2736
    ||| u == 0x273b
    ||| u == 0x273d
    ||| u == 0x2738
    ||| u == 0x2739
    ||| u == 0x273a
    ||| u == 0x2737
    ||| u == 0x2734
    ||| u == 0x2726
    ||| u == 0x25c7
    ||| u == 0x1f916
}

pub open spec fn is_digit_char(c: char) -> bool {
    '0' <= c <= '9'
}

pub open spec fn is_unit(c: char) -> bool {
    c == 's' || c == 'm' || c == 'h' || c == 'd'
}

/// Character classes the title normalisation strips.
pub enum CharClass {
    Whitespace,
    /// Whitespace, `*` or an animated glyph.
    Decoration,
    Digit,
    /// `.` or `·`.
    Dot,
}

pub open spec fn class_pred(k: CharClass) -> spec_fn(char) -> bool {
    match k {
        CharClass::Whitespace => |c: char| is_whitespace(c),
        CharClass::Decoration => |c: char| is_whitespace(c) || c == '*' || is_animated(c),
        CharClass::Digit => |c: char| is_digit_char(c),
        CharClass::Dot => |c: char| c == '.' || c as u32 == 0xb7,
    }
}

pub open spec fn ws() -> spec_fn(char) -> bool {
    class_pred(CharClass::Whitespace)
}

/// `s` without leading and trailing whitespace.
pub open spec fn trimmed(s: Seq<char>) -> Seq<char> {
    strip_back(strip_front(s, ws()), ws())
}

/// Strips trailing ` <digits><unit>` counters (`12s`, `3m`, ...) preceded by
/// whitespace or standing alone, repeatedly.
pub open spec fn strip_elapsed(rest: Seq<char>) -> Seq<char>
    decreases rest.len(),
{
    if rest.len() == 0 || !is_unit(rest.last()) {
        rest
    } else {
        let before_unit = rest.drop_last();
        let digits = strip_back(before_unit, class_pred(CharClass::Digit));
        if digits.len() == before_unit.len() || (digits.len() > 0 && !is_whitespace(digits.last())) {
            rest
        } else {
            proof {
                lemma_trailing_count_bound(before_unit, class_pred(CharClass::Digit));
                lemma_trailing_count_bound(digits, ws());
            }
            strip_elapsed(strip_back(digits, ws()))
        }
    }
}

/// A title without trailing elapsed-time counters (unchanged when nothing
/// else would remain).
pub open spec fn elapsed_removed(v: Seq<char>) -> Seq<char> {
    let original = strip_back(v, ws());
    let r = strip_elapsed(original);
    if r.len() == 0 {
        original
    } else {
        r
    }
}

/// Collapses whitespace runs to single spaces and drops leading and trailing
/// whitespace, continuing after `started` (a word was emitted) and `gap`
/// (whitespace followed it).
pub open spec fn squash(s: Seq<char>, started: bool, gap: bool) -> Seq<char>
    decreases s.len(),
{
    if s.len() == 0 {
        seq![]
    } else if is_whitespace(s[0]) {
        squash(s.drop_first(), started, true)
    } else {
        (if started && gap {
            seq![' ']
        } else {
            seq![]
        }) + seq![s[0]] + squash(s.drop_first(), true, false)
    }
}

pub open spec fn ascii_lower(c: char) -> char {
    if 'A' <= c <= 'Z' {
        ((c as u32) + 32) as char
    } else {
        c
    }
}

/// `Action Required`
pub open spec fn action_required() -> Seq<char> {
    seq!['A', 'c', 't', 'i', 'o', 'n', ' ', 'R', 'e', 'q', 'u', 'i', 'r', 'e', 'd']
}

/// `[action-required] `
pub open spec fn action_required_tag() -> Seq<char> {
    seq![
        '[', 'a', 'c', 't', 'i', 'o', 'n', '-', 'r', 'e', 'q', 'u', 'i', 'r', 'e', 'd', ']', ' ',
    ]
}

/// `Working`
pub open spec fn working() -> Seq<char> {
    seq!['W', 'o', 'r', 'k', 'i', 'n', 'g']
}

pub open spec fn is_marker(c: char) -> bool {
    is_animated(c) || c == '!' || c == '.'
}

/// The signature of a `[<marker>] Action Required ...` title, if it is one.
pub open spec fn action_signature(title: Seq<char>) -> Option<Seq<char>> {
    if title.len() > 0 && title[0] == '[' {
        let bracket = strip_front(title.drop_first(), ws());
        if bracket.len() > 0 && is_marker(bracket[0]) {
            let after = strip_front(bracket.drop_first(), ws());
            if after.len() > 0 && after[0] == ']' {
                let rest = trimmed(after.drop_first());
                if rest.len() >= 15 && forall|i: int|
                    0 <= i < 15 ==> ascii_lower(#[trigger] rest[i]) == ascii_lower(
                        action_required()[i],
                    ) {
                    Some(action_required_tag() + elapsed_removed(rest))
                } else {
                    None
                }
            } else {
                None
            }
        } else {
            None
        }
    } else {
        None
    }
}

/// The semantic signature of a (trimmed) title.
pub open spec fn signature(title: Seq<char>) -> Seq<char> {
    match action_signature(title) {
        Some(s) => s,
        None => {
            let stripped = strip_front(title, class_pred(CharClass::Decoration));
            let normalized = squash(stripped, false, false);
            let dots_removed = strip_back(strip_back(normalized, class_pred(CharClass::Dot)), ws());
            let chosen = if dots_removed.len() != normalized.len() && working().len()
                <= dots_removed.len() && dots_removed.skip(dots_removed.len() - working().len())
                == working() {
                dots_removed
            } else {
                normalized
            };
            if stripped.len() != title.len() {
                elapsed_removed(chosen)
            } else {
                chosen
            }
        },
    }
}

/// A title `[m]` followed by text whose trimmed form starts, ASCII
/// case-insensitively, with `Action Required`, where the marker `m` is `.`,
/// `!` or an animated glyph, has the signature `[action-required] ` followed
/// by that trimmed text without trailing elapsed-time counters: the same
/// whichever of these markers the title shows.
pub proof fn law_action_required_signature(m: char, m2: char, rest: Seq<char>)
    requires
        m == '.' || m == '!' || is_animated(m),
        m2 == '.' || m2 == '!' || is_animated(m2),
        trimmed(rest).len() >= 15,
        forall|i: int| 0 <= i < 15 ==> ascii_lower(#[trigger] trimmed(rest)[i]) == ascii_lower("Action Required"@[i]),
    ensures
        signature(seq!['[', m, ']'] + rest) == "[action-required] "@ + elapsed_removed(trimmed(rest)),
        signature(seq!['[', m, ']'] + rest) == signature(seq!['[', m2, ']'] + rest),
{
    reveal_strlit("Action Required");
    reveal_strlit("[action-required] ");
    assert("[action-required] "@ =~= action_required_tag());
    lemma_action_title(m, rest);
    lemma_action_title(m2, rest);
}

proof fn lemma_action_title(m: char, rest: Seq<char>)
    requires
        m == '.' || m == '!' || is_animated(m),
        trimmed(rest).len() >= 15,
        forall|i: int| 0 <= i < 15 ==> ascii_lower(#[trigger] trimmed(rest)[i]) == ascii_lower("Action Required"@[i]),
    ensures
        signature(seq!['[', m, ']'] + rest) == action_required_tag() + elapsed_removed(trimmed(rest)),
{
    reveal_strlit("Action Required");
    let title = seq!['[', m, ']'] + rest;
    let inner = title.drop_first();
    assert(inner =~= seq![m, ']'] + rest);
    assert(!is_whitespace(m));
    lemma_first_index_where(inner, negate(ws()), 0);
    assert(inner.skip(0) =~= inner);
    let bracket = strip_front(inner, ws());
    assert(bracket == inner);
    assert(is_marker(bracket[0]));
    let tail = bracket.drop_first();
    assert(tail =~= seq![']'] + rest);
    lemma_first_index_where(tail, negate(ws()), 0);
    assert(tail.skip(0) =~= tail);
    let after = strip_front(tail, ws());
    assert(after == tail);
    assert(after.drop_first() =~= rest);
    let r = trimmed(rest);
    assert forall|i: int| 0 <= i < 15 implies ascii_lower(#[trigger] r[i]) == ascii_lower(action_required()[i]) by {
        assert("Action Required"@[i] == action_required()[i]);
    }
    assert(action_signature(title) == Some(action_required_tag() + elapsed_removed(r)));
}

pub fn char_in_class(c: char, k: &CharClass) -> (r: bool)
    ensures
        r == class_pred(*k)(c),
{
    let u = c as u32;
    let animated = (0x2800 <= u && u <= 0x28ff) || u == 0xb7 || u == 0x2022 || u == 0x22c5 || u
        == 0x25e6 || u == 0x2733 || u == 0x2736 || u == 0x273b || u == 0x273d || u == 0x2738 || u
        == 0x2739 || u == 0x273a || u == 0x2737 || u == 0x2734 || u == 0x2726 || u == 0x25c7 || u
        == 0x1f916;
    let white = c == ' ' || c == '\t' || c == '\n' || c == '\r';
    match k {
        CharClass::Whitespace => white,
        CharClass::Decoration => white || c == '*' || animated,
        CharClass::Digit => '0' <= c && c <= '9',
        CharClass::Dot => c == '.' || u == 0xb7,
    }
}

/// First index in `v[lo..hi]` of a character outside class `k`, or `hi`.
fn skip_class(v: &Vec<char>, lo: usize, hi: usize, k: CharClass) -> (r: usize)
    requires
        lo <= hi <= v@.len(),
    ensures
        lo <= r <= hi,
        r == lo + first_index_where(v@.subrange(lo as int, hi as int), negate(class_pred(k))),
        strip_front(v@.subrange(lo as int, hi as int), class_pred(k)) == v@.subrange(
            r as int,
            hi as int,
        ),
{
    let ghost s = v@.subrange(lo as int, hi as int);
    let mut i = lo;
    while i < hi && char_in_class(v[i], &k)
        invariant
            lo <= i <= hi <= v@.len(),
            s == v@.subrange(lo as int, hi as int),
            forall|j: int| 0 <= j < i - lo ==> !negate(class_pred(k))(#[trigger] s[j]),
        decreases hi - i,
    {
        i = i + 1;
    }
    proof {
        lemma_first_index_where(s, negate(class_pred(k)), i - lo);
        assert(s.skip(i - lo) =~= v@.subrange(i as int, hi as int));
    }
    i
}

/// Start of the trailing run of class `k` in `v[lo..hi]`.
fn back_class(v: &Vec<char>, lo: usize, hi: usize, k: CharClass) -> (r: usize)
    requires
        lo <= hi <= v@.len(),
    ensures
        lo <= r <= hi,
        r == hi - trailing_count(v@.subrange(lo as int, hi as int), class_pred(k)),
        strip_back(v@.subrange(lo as int, hi as int), class_pred(k)) == v@.subrange(
            lo as int,
            r as int,
        ),
{
    let ghost s = v@.subrange(lo as int, hi as int);
    let mut i = hi;
    while i > lo && char_in_class(v[i - 1], &k)
        invariant
            lo <= i <= hi <= v@.len(),
            s == v@.subrange(lo as int, hi as int),
            forall|j: int| i - lo <= j < s.len() ==> class_pred(k)(#[trigger] s[j]),
        decreases i - lo,
    {
        i = i - 1;
    }
    proof {
        lemma_trailing_count(s, class_pred(k), hi - i);
        assert(s.take(i - lo) =~= v@.subrange(lo as int, i as int));
    }
    i
}

/// End of `elapsed_removed(v[lo..hi])`, which is a prefix of `v[lo..hi]`.
fn elapsed_end(v: &Vec<char>, lo: usize, hi: usize) -> (r: usize)
    requires
        lo <= hi <= v@.len(),
    ensures
        lo <= r <= hi,
        elapsed_removed(v@.subrange(lo as int, hi as int)) == v@.subrange(lo as int, r as int),
{
    let original = back_class(v, lo, hi, CharClass::Whitespace);
    let mut rest = original;
    loop
        invariant
            lo <= rest <= original <= hi <= v@.len(),
            strip_back(v@.subrange(lo as int, hi as int), ws()) == v@.subrange(
                lo as int,
                original as int,
            ),
            strip_elapsed(v@.subrange(lo as int, original as int)) == strip_elapsed(
                v@.subrange(lo as int, rest as int),
            ),
        ensures
            lo <= rest <= original,
            strip_elapsed(v@.subrange(lo as int, original as int)) == v@.subrange(
                lo as int,
                rest as int,
            ),
        decreases rest,
    {
        let ghost cur = v@.subrange(lo as int, rest as int);
        if rest == lo {
            assert(cur.len() == 0);
            break;
        }
        let u = v[rest - 1];
        assert(cur.last() == u);
        if !(u == 's' || u == 'm' || u == 'h' || u == 'd') {
            break;
        }
        let bu = rest - 1;
        assert(cur.drop_last() =~= v@.subrange(lo as int, bu as int));
        let d = back_class(v, lo, bu, CharClass::Digit);
        if d == bu || (d > lo && !char_in_class(v[d - 1], &CharClass::Whitespace)) {
            proof {
                if d > lo {
                    assert(v@.subrange(lo as int, d as int).last() == v@[d - 1]);
                }
            }
            break;
        }
        let next = back_class(v, lo, d, CharClass::Whitespace);
        proof {
            if d > lo {
                assert(v@.subrange(lo as int, d as int).last() == v@[d - 1]);
            }
        }
        rest = next;
    }
    if rest == lo {
        original
    } else {
        rest
    }
}

/// `squash(v[lo..hi], false, false)`.
fn squash_range(v: &Vec<char>, lo: usize, hi: usize) -> (r: Vec<char>)
    requires
        lo <= hi <= v@.len(),
    ensures
        r@ == squash(v@.subrange(lo as int, hi as int), false, false),
{
    let mut out: Vec<char> = Vec::new();
    let mut started = false;
    let mut gap = false;
    let mut i = lo;
    assert(v@.subrange(lo as int, hi as int) =~= v@.subrange(i as int, hi as int));
    while i < hi
        invariant
            lo <= i <= hi <= v@.len(),
            squash(v@.subrange(lo as int, hi as int), false, false) == out@ + squash(
                v@.subrange(i as int, hi as int),
                started,
                gap,
            ),
        decreases hi - i,
    {
        let c = v[i];
        let ghost s = v@.subrange(i as int, hi as int);
        assert(s[0] == c);
        assert(s.drop_first() =~= v@.subrange(i + 1, hi as int));
        if char_in_class(c, &CharClass::Whitespace) {
            gap = true;
        } else {
            let ghost before = out@;
            let ghost s0 = started;
            let ghost g0 = gap;
            if started && gap {
                out.push(' ');
            }
            out.push(c);
            started = true;
            gap = false;
            assert(out@ =~= before + (if s0 && g0 {
                seq![' ']
            } else {
                seq![]
            }) + seq![c]);
            assert(before + squash(s, s0, g0) =~= out@ + squash(s.drop_first(), true, false));
        }
        i = i + 1;
    }
    assert(squash(v@.subrange(i as int, hi as int), started, gap) =~= Seq::<char>::empty());
    out
}

/// Whether `v[lo..lo+15]` spells `Action Required`, ignoring ASCII case.
fn is_action_required(v: &Vec<char>, lo: usize, hi: usize) -> (r: bool)
    requires
        lo <= hi <= v@.len(),
    ensures
        r == ({
            let rest = v@.subrange(lo as int, hi as int);
            rest.len() >= 15 && forall|i: int|
                0 <= i < 15 ==> ascii_lower(#[trigger] rest[i]) == ascii_lower(action_required()[i])
        }),
{
    let ghost rest = v@.subrange(lo as int, hi as int);
    if hi - lo < 15 {
        return false;
    }
    let target: [char; 15] = ['a', 'c', 't', 'i', 'o', 'n', ' ', 'r', 'e', 'q', 'u', 'i', 'r', 'e', 'd'];
    assert forall|i: int| 0 <= i < 15 implies target@[i] == ascii_lower(#[trigger] action_required()[i]) by {
    }
    let mut i: usize = 0;
    while i < 15
        invariant
            i <= 15,
            lo + 15 <= hi <= v@.len(),
            rest == v@.subrange(lo as int, hi as int),
            forall|k: int| 0 <= k < 15 ==> target@[k] == ascii_lower(#[trigger] action_required()[k]),
            forall|k: int| 0 <= k < i ==> ascii_lower(#[trigger] rest[k]) == ascii_lower(action_required()[k]),
        decreases 15 - i,
    {
        let c = v[lo + i];
        let lower = if 'A' <= c && c <= 'Z' {
            char_from_ascii_lower(c)
        } else {
            c
        };
        assert(lower == ascii_lower(rest[i as int]));
        if lower != target[i] {
            return false;
        }
        i = i + 1;
    }
    true
}

fn char_from_ascii_lower(c: char) -> (r: char)
    requires
        'A' <= c <= 'Z',
    ensures
        r == ((c as u32) + 32) as char,
{
    let u = (c as u32) + 32;
    let b = u as u8;
    b as char
}

/// The `[<marker>] Action Required ...` signature of `v`, if it is one.
fn action_signature_chars(v: &Vec<char>) -> (r: Option<Vec<char>>)
    ensures
        match r {
            Some(out) => action_signature(v@) == Some(out@),
            None => action_signature(v@) is None,
        },
{
    let n = v.len();
    let ghost title = v@;
    if !(n > 0 && v[0] == '[') {
        return None;
    }
    assert(title.drop_first() =~= v@.subrange(1, n as int));
    let b = skip_class(v, 1, n, CharClass::Whitespace);
    if b >= n {
        return None;
    }
    let m = v[b];
    let marker = animated(m) || m == '!' || m == '.';
    assert(v@.subrange(b as int, n as int)[0] == m);
    if !marker {
        return None;
    }
    assert(v@.subrange(b as int, n as int).drop_first() =~= v@.subrange(b + 1, n as int));
    let a = skip_class(v, b + 1, n, CharClass::Whitespace);
    if a >= n {
        return None;
    }
    assert(v@.subrange(a as int, n as int)[0] == v@[a as int]);
    if v[a] != ']' {
        return None;
    }
    assert(v@.subrange(a as int, n as int).drop_first() =~= v@.subrange(a + 1, n as int));
    let rs = skip_class(v, a + 1, n, CharClass::Whitespace);
    let re = back_class(v, rs, n, CharClass::Whitespace);
    if !is_action_required(v, rs, re) {
        return None;
    }
    let e = elapsed_end(v, rs, re);
    let tag: [char; 18] = [
        '[', 'a', 'c', 't', 'i', 'o', 'n', '-', 'r', 'e', 'q', 'u', 'i', 'r', 'e', 'd', ']', ' ',
    ];
    let mut out: Vec<char> = Vec::new();
    push_chars(&mut out, &tag, 0, 18);
    push_chars(&mut out, v.as_slice(), rs, e);
    assert(tag@.subrange(0, 18) =~= action_required_tag());
    Some(out)
}

/// The signature of a title that is not an action-required one.
fn plain_signature_chars(v: &Vec<char>) -> (r: Vec<char>)
    ensures
        ({
            let title = v@;
            let stripped = strip_front(title, class_pred(CharClass::Decoration));
            let normalized = squash(stripped, false, false);
            let dots_removed = strip_back(strip_back(normalized, class_pred(CharClass::Dot)), ws());
            let chosen = if dots_removed.len() != normalized.len() && working().len()
                <= dots_removed.len() && dots_removed.skip(dots_removed.len() - working().len())
                == working() {
                dots_removed
            } else {
                normalized
            };
            r@ == if stripped.len() != title.len() {
                elapsed_removed(chosen)
            } else {
                chosen
            }
        }),
{
    let n = v.len();
    assert(v@ =~= v@.subrange(0, n as int));
    let s0 = skip_class(v, 0, n, CharClass::Decoration);
    let normalized = squash_range(v, s0, n);
    let nl = normalized.len();
    assert(normalized@ =~= normalized@.subrange(0, nl as int));
    let d1 = back_class(&normalized, 0, nl, CharClass::Dot);
    let d2 = back_class(&normalized, 0, d1, CharClass::Whitespace);
    let ghost dots_removed = normalized@.subrange(0, d2 as int);
    let ends_working = d2 >= 7 && normalized[d2 - 7] == 'W' && normalized[d2 - 6] == 'o'
        && normalized[d2 - 5] == 'r' && normalized[d2 - 4] == 'k' && normalized[d2 - 3] == 'i'
        && normalized[d2 - 2] == 'n' && normalized[d2 - 1] == 'g';
    proof {
        if d2 >= 7 {
            let tail = dots_removed.skip(dots_removed.len() - 7);
            if ends_working {
                assert(tail =~= working());
            } else {
                assert(tail != working()) by {
                    if tail == working() {
                        assert(tail[0] == 'W' && tail[1] == 'o' && tail[2] == 'r' && tail[3] == 'k'
                            && tail[4] == 'i' && tail[5] == 'n' && tail[6] == 'g');
                    }
                }
            }
        }
    }
    let chosen = if d2 != nl && ends_working {
        d2
    } else {
        nl
    };
    let end = if s0 != 0 {
        elapsed_end(&normalized, 0, chosen)
    } else {
        chosen
    };
    let mut out: Vec<char> = Vec::new();
    push_chars(&mut out, normalized.as_slice(), 0, end);
    assert(out@ =~= normalized@.subrange(0, end as int));
    out
}

/// The signature of the characters of a trimmed title.
fn signature_chars(v: &Vec<char>) -> (r: Vec<char>)
    ensures
        r@ == signature(v@),
{
    match action_signature_chars(v) {
        Some(out) => out,
        None => plain_signature_chars(v),
    }
}

/// Whitespace for titles: space, tab, line feed, carriage return.
pub fn whitespace(ch: char) -> (r: bool)
    ensures
        r == is_whitespace(ch),
{
    ch == ' ' || ch == '\t' || ch == '\n' || ch == '\r'
}

/// Spinner and status glyphs.
pub fn animated(ch: char) -> (r: bool)
    ensures
        r == is_animated(ch),
{
    char_in_class(ch, &CharClass::Decoration) && ch != '*' && !whitespace(ch)
}

/// `value` without leading and trailing whitespace.
pub fn trim(value: &str) -> (r: &str)
    ensures
        r@ == trimmed(value@),
{
    let v = chars_of(value);
    let n = v.len();
    assert(v@.subrange(0, n as int) =~= v@);
    let start = skip_class(&v, 0, n, CharClass::Whitespace);
    let end = back_class(&v, start, n, CharClass::Whitespace);
    value.substring_char(start, end)
}

/// `value` without trailing elapsed-time counters such as ` 12s` or ` 3m 4s`
/// (unchanged when nothing else would remain), and without trailing
/// whitespace.
pub fn without_elapsed(value: &str) -> (r: &str)
    ensures
        r@ == elapsed_removed(value@),
{
    let v = chars_of(value);
    let n = v.len();
    assert(v@.subrange(0, n as int) =~= v@);
    let end = elapsed_end(&v, 0, n);
    value.substring_char(0, end)
}

/// The semantic signature of a title: spinner glyphs, `*` and whitespace at
/// the front are dropped, whitespace runs collapse to one space, dots after
/// a trailing `Working` are dropped, and, for animated titles, trailing
/// elapsed-time counters are dropped. `[<marker>] Action Required ...`
/// titles map to `[action-required] ...`.
pub fn semantic_signature(title: &str) -> (r: String)
    ensures
        r@ == signature(title@),
{
    let v = chars_of(title);
    let sig = signature_chars(&v);
    string_of(sig.as_slice(), 0, sig.len())
}

/// Abstract state of a [`Coalescer`]: the latest title and its signature,
/// the published title, its signature and publication time, the pending
/// change burst (start, latest change), and whether a heartbeat is due.
pub struct CoalescerView {
    pub latest: Option<(Seq<char>, Seq<char>)>,
    pub emitted: Option<(Seq<char>, Seq<char>, u64)>,
    pub pending: Option<(u64, u64)>,
    pub heartbeat: bool,
}

/// Time from `then` to `now`, zero when `then` is later.
pub open spec fn elapsed(now: u64, then: u64) -> nat {
    if now >= then {
        (now - then) as nat
    } else {
        0
    }
}

/// State after observing `title` at `now`.
pub open spec fn observed(v: CoalescerView, title: Seq<char>, now: u64) -> CoalescerView {
    let t = trimmed(title);
    if t.len() == 0 || (v.latest matches Some((raw, _)) && raw == t) {
        v
    } else {
        let sig = signature(t);
        let same_latest = v.latest matches Some((_, last)) && last == sig;
        let same_emitted = v.pending is None && (v.emitted matches Some((_, last, _)) && last
            == sig);
        if same_latest || same_emitted {
            CoalescerView {
                latest: Some((t, sig)),
                heartbeat: if v.pending is None && (v.emitted matches Some((raw, last, _)) && last
                    == sig && raw != t) {
                    true
                } else {
                    v.heartbeat
                },
                ..v
            }
        } else {
            let burst = match v.pending {
                Some((b, _)) => b,
                None => now,
            };
            CoalescerView {
                latest: Some((t, sig)),
                pending: Some((burst, now)),
                heartbeat: false,
                emitted: v.emitted,
            }
        }
    }
}

pub open spec fn pending_due(v: CoalescerView, now: u64) -> bool {
    v.pending matches Some((burst, changed)) && (elapsed(now, changed) >= SECOND as nat || elapsed(
        now,
        burst,
    ) >= 6 * SECOND as nat)
}

pub open spec fn heartbeat_due(v: CoalescerView, now: u64) -> bool {
    v.heartbeat && (v.emitted matches Some((_, _, time)) && elapsed(now, time) >= 2 * SECOND as nat)
}

/// State after asking at `now` for a title to publish, and the title.
pub open spec fn due(v: CoalescerView, now: u64) -> (CoalescerView, Option<Seq<char>>) {
    let pd = pending_due(v, now);
    if !pd && !heartbeat_due(v, now) {
        (v, None)
    } else {
        let v1 = if pd {
            CoalescerView { pending: None, ..v }
        } else {
            CoalescerView { heartbeat: false, ..v }
        };
        match v1.latest {
            None => (v1, None),
            Some((title, sig)) => if v1.emitted matches Some((raw, last, _)) && last == sig && (pd
                || raw == title) {
                (v1, None)
            } else {
                (CoalescerView { emitted: Some((title, sig, now)), ..v1 }, Some(title))
            },
        }
    }
}

/// Each stored signature is the signature of the title stored with it.
pub open spec fn consistent(v: CoalescerView) -> bool {
    &&& (v.latest matches Some((t, sig)) ==> sig == signature(t))
    &&& (v.emitted matches Some((t, sig, _)) ==> sig == signature(t))
}

/// Observing and publishing keep every stored signature that of its title.
pub proof fn law_signatures_stay_consistent(v: CoalescerView, title: Seq<char>, now: u64)
    requires
        consistent(v),
    ensures
        consistent(observed(v, title, now)),
        consistent(due(v, now).0),
{
}

/// The last emitted title is the latest publication: a publication records
/// the title it returns, and observing, or asking when nothing is
/// published, leaves the record as it was. A fresh coalescer has published
/// nothing.
pub proof fn law_last_emitted_is_latest_publication(v: CoalescerView, title: Seq<char>, now: u64)
    ensures
        observed(v, title, now).emitted == v.emitted,
        due(v, now).1 matches Some(t) ==> (due(v, now).0.emitted matches Some((raw, _, at)) && raw
            == t && at == now),
        due(v, now).1 is None ==> due(v, now).0.emitted == v.emitted,
{
}

/// A publication never repeats the title published before it.
pub proof fn law_no_repeated_publication(v: CoalescerView, now: u64)
    requires
        consistent(v),
    ensures
        due(v, now).1 matches Some(t) ==> (v.emitted matches Some((raw, _, _)) ==> raw != t),
{
}

/// Nothing is published while the latest change is younger than a second,
/// its burst younger than six seconds, and no heartbeat is due.
pub proof fn law_quiet_until_settled(v: CoalescerView, now: u64, burst: u64, changed: u64)
    requires
        v.pending == Some((burst, changed)),
        elapsed(now, changed) < SECOND,
        elapsed(now, burst) < 6 * SECOND,
        !heartbeat_due(v, now),
    ensures
        due(v, now) == (v, None::<Seq<char>>),
{
}

/// Once settled, a changed signature publishes the latest title.
pub proof fn law_settled_change_published(v: CoalescerView, now: u64, t: Seq<char>, sig: Seq<char>)
    requires
        pending_due(v, now),
        v.latest == Some((t, sig)),
        !(v.emitted matches Some((_, last, _)) && last == sig),
    ensures
        due(v, now).1 == Some(t),
        due(v, now).0.emitted == Some((t, sig, now)),
        due(v, now).0.pending is None,
{
}

/// A title that only changes spinner or timing text relative to the latest
/// one neither starts nor extends a change burst.
pub proof fn law_spinner_change_keeps_burst(v: CoalescerView, title: Seq<char>, now: u64)
    requires
        v.latest matches Some((_, last)) && last == signature(trimmed(title)),
    ensures
        observed(v, title, now).pending == v.pending,
{
}

/// Observing the latest title again changes nothing.
pub proof fn law_same_title_ignored(v: CoalescerView, title: Seq<char>, now: u64)
    requires
        v.latest matches Some((raw, _)) && raw == trimmed(title),
    ensures
        observed(v, title, now) == v,
{
}

/// A call on a [`Coalescer`]: [`Coalescer::observe`] of a title at a time,
/// or [`Coalescer::take_due`] at a time.
pub enum CoalescerCall {
    Observe(Seq<char>, u64),
    TakeDue(u64),
}

/// A coalescer that has seen nothing.
pub open spec fn fresh() -> CoalescerView {
    CoalescerView { latest: None, emitted: None, pending: None, heartbeat: false }
}

/// The state after `calls` made in order from `v`, and the titles the
/// `take_due` calls among them returned, in order.
pub open spec fn replay(v: CoalescerView, calls: Seq<CoalescerCall>) -> (CoalescerView, Seq<Seq<char>>)
    decreases calls.len(),
{
    if calls.len() == 0 {
        (v, Seq::empty())
    } else {
        let (w, published) = replay(v, calls.drop_last());
        match calls.last() {
            CoalescerCall::Observe(title, now) => (observed(w, title, now), published),
            CoalescerCall::TakeDue(now) => match due(w, now) {
                (w2, Some(t)) => (w2, published.push(t)),
                (w2, None) => (w2, published),
            },
        }
    }
}

/// After any calls, the last emitted title is the latest title that
/// `take_due` returned; before any returned one, it is what it was.
pub proof fn law_emitted_follows_publications(v: CoalescerView, calls: Seq<CoalescerCall>)
    ensures
        ({
            let (w, published) = replay(v, calls);
            &&& published.len() == 0 ==> w.emitted == v.emitted
            &&& published.len() > 0 ==> (w.emitted matches Some((t, _, _)) && t == published.last())
        }),
    decreases calls.len(),
{
    if calls.len() > 0 {
        law_emitted_follows_publications(v, calls.drop_last());
        let (w, _) = replay(v, calls.drop_last());
        match calls.last() {
            CoalescerCall::Observe(title, now) => {
                law_last_emitted_is_latest_publication(w, title, now);
            },
            CoalescerCall::TakeDue(now) => {
                law_last_emitted_is_latest_publication(w, Seq::empty(), now);
            },
        }
    }
}

/// From a fresh coalescer, [`Coalescer::last_emitted`] is none exactly until
/// a `take_due` call has returned a title, and then it is the latest such
/// title.
pub proof fn law_last_emitted_after_calls(calls: Seq<CoalescerCall>)
    ensures
        ({
            let (w, published) = replay(fresh(), calls);
            &&& w.emitted is None <==> published.len() == 0
            &&& published.len() > 0 ==> (w.emitted matches Some((t, _, _)) && t == published.last())
        }),
{
    law_emitted_follows_publications(fresh(), calls);
}

/// Debounces title changes into publications. Timestamps are nanoseconds
/// on a monotonic clock.
pub struct Coalescer {
    latest: Option<(String, String)>,
    emitted: Option<(String, String, u64)>,
    pending: Option<(u64, u64)>,
    heartbeat: bool,
}

impl View for Coalescer {
    type V = CoalescerView;

    closed spec fn view(&self) -> CoalescerView {
        CoalescerView {
            latest: match &self.latest {
                Some((t, s)) => Some((t@, s@)),
                None => None,
            },
            emitted: match &self.emitted {
                Some((t, s, time)) => Some((t@, s@, *time)),
                None => None,
            },
            pending: self.pending,
            heartbeat: self.heartbeat,
        }
    }
}

impl Default for Coalescer {
    fn default() -> (r: Self)
        ensures
            r@ == fresh(),
    {
        Coalescer::new()
    }
}

fn saturating_elapsed(now: u64, then: u64) -> (r: u64)
    ensures
        r as nat == elapsed(now, then),
{
    if now >= then {
        now - then
    } else {
        0
    }
}

impl Coalescer {
    pub fn new() -> (r: Self)
        ensures
            r@ == fresh(),
    {
        Coalescer { latest: None, emitted: None, pending: None, heartbeat: false }
    }

    /// Observes the terminal title `title` at time `now`.
    pub fn observe(&mut self, title: &str, now: u64)
        ensures
            final(self)@ == observed(old(self)@, title@, now),
    {
        let t = trim(title);
        if t.unicode_len() == 0 {
            return;
        }
        let t_string = String::from_str(t);
        match &self.latest {
            Some((raw, _)) => {
                if *raw == t_string {
                    return;
                }
            },
            None => {},
        }
        let sig = semantic_signature(t);
        let same_latest = match &self.latest {
            Some((_, last)) => *last == sig,
            None => false,
        };
        let same_emitted = self.pending.is_none() && match &self.emitted {
            Some((_, last, _)) => *last == sig,
            None => false,
        };
        if same_latest || same_emitted {
            let beat = self.pending.is_none() && match &self.emitted {
                Some((raw, last, _)) => *last == sig && *raw != t_string,
                None => false,
            };
            if beat {
                self.heartbeat = true;
            }
            self.latest = Some((t_string, sig));
            return;
        }
        let burst = match self.pending {
            Some((b, _)) => b,
            None => now,
        };
        self.pending = Some((burst, now));
        self.heartbeat = false;
        self.latest = Some((t_string, sig));
    }

    /// The last published title.
    pub fn last_emitted(&self) -> (r: Option<&str>)
        ensures
            match self@.emitted {
                Some((t, _, _)) => r matches Some(s) && s@ == t,
                None => r is None,
            },
    {
        match &self.emitted {
            Some((title, _, _)) => Some(title.as_str()),
            None => None,
        }
    }

    /// The title to publish at `now`, if one is due: the latest title once
    /// its change has settled (one second without change, or six seconds
    /// into a burst) and its signature differs from the published one, or a
    /// heartbeat two seconds after the last publication when only spinner
    /// or timing text changed.
    pub fn take_due(&mut self, now: u64) -> (r: Option<String>)
        ensures
            (final(self)@, match r {
                Some(t) => Some(t@),
                None => None,
            }) == due(old(self)@, now),
    {
        let pending_due = match self.pending {
            Some((burst, changed)) => saturating_elapsed(now, changed) >= SECOND
                || saturating_elapsed(now, burst) >= 6 * SECOND,
            None => false,
        };
        let heartbeat_due = self.heartbeat && match &self.emitted {
            Some((_, _, time)) => saturating_elapsed(now, *time) >= 2 * SECOND,
            None => false,
        };
        if !pending_due && !heartbeat_due {
            return None;
        }
        if pending_due {
            self.pending = None;
        } else {
            self.heartbeat = false;
        }
        let (title, signature) = match &self.latest {
            Some((t, s)) => (t.clone(), s.clone()),
            None => {
                return None;
            },
        };
        let repeat = match &self.emitted {
            Some((raw, last, _)) => *last == signature && (pending_due || *raw == title),
            None => false,
        };
        if repeat {
            return None;
        }
        self.emitted = Some((title.clone(), signature, now));
        Some(title)
    }
}

} // verus!
