//! Byte and character helpers shared by the parsers: decimal numbers,
//! searching, trimming and UTF-8/UTF-16 conversion.
use vstd::prelude::*;
use vstd::utf8::*;

verus! {

/// ASCII decimal digit.
pub open spec fn is_digit(b: u8) -> bool {
    48 <= b <= 57
}

/// The decimal rendering of `n`, most significant digit first, no leading zeros.
pub open spec fn decimal(n: nat) -> Seq<u8>
    decreases n,
{
    if n < 10 {
        seq![(48 + n) as u8]
    } else {
        decimal(n / 10).push((48 + n % 10) as u8)
    }
}

/// The value of a run of decimal digits.
pub open spec fn digits_value(s: Seq<u8>) -> nat
    decreases s.len(),
{
    if s.len() == 0 {
        0
    } else {
        digits_value(s.drop_last()) * 10 + (s.last() - 48) as nat
    }
}

pub open spec fn all_digits(s: Seq<u8>) -> bool {
    forall|i: int| 0 <= i < s.len() ==> is_digit(#[trigger] s[i])
}

/// What `str::parse` gives for an unsigned integer type whose largest value is
/// `max`: an optional `+`, then at least one digit, with no overflow.
pub open spec fn parse_unsigned(s: Seq<u8>, max: nat) -> Option<nat> {
    let d = if s.len() > 0 && s[0] == 43u8 { s.drop_first() } else { s };
    if d.len() > 0 && all_digits(d) && digits_value(d) <= max {
        Some(digits_value(d))
    } else {
        None
    }
}

pub open spec fn widen(r: Option<u64>) -> Option<nat> {
    match r {
        Some(v) => Some(v as nat),
        None => None,
    }
}

/// Index of the first element satisfying `p`, or the length when none does.
pub open spec fn first_index_where<A>(s: Seq<A>, p: spec_fn(A) -> bool) -> nat
    decreases s.len(),
{
    if s.len() == 0 {
        0
    } else if p(s[0]) {
        0
    } else {
        1 + first_index_where(s.drop_first(), p)
    }
}

/// Number of trailing elements that satisfy `p`.
pub open spec fn trailing_count<A>(s: Seq<A>, p: spec_fn(A) -> bool) -> nat
    decreases s.len(),
{
    if s.len() == 0 {
        0
    } else if p(s.last()) {
        1 + trailing_count(s.drop_last(), p)
    } else {
        0
    }
}

/// The predicate `p` negated.
pub open spec fn negate<A>(p: spec_fn(A) -> bool) -> spec_fn(A) -> bool {
    |a: A| !p(a)
}

/// `s` without its leading elements that satisfy `p`.
pub open spec fn strip_front<A>(s: Seq<A>, p: spec_fn(A) -> bool) -> Seq<A> {
    s.skip(first_index_where(s, negate(p)) as int)
}

/// `s` without its trailing elements that satisfy `p`.
pub open spec fn strip_back<A>(s: Seq<A>, p: spec_fn(A) -> bool) -> Seq<A> {
    s.take(s.len() - trailing_count(s, p))
}

pub proof fn lemma_first_index_where<A>(s: Seq<A>, p: spec_fn(A) -> bool, i: int)
    requires
        0 <= i <= s.len(),
        forall|j: int| 0 <= j < i ==> !p(#[trigger] s[j]),
        i == s.len() || p(s[i]),
    ensures
        first_index_where(s, p) == i,
    decreases i,
{
    if i > 0 {
        assert(!p(s[0]));
        let t = s.drop_first();
        assert forall|j: int| 0 <= j < i - 1 implies !p(#[trigger] t[j]) by {
            assert(t[j] == s[j + 1]);
        }
        lemma_first_index_where(t, p, i - 1);
    }
}

pub proof fn lemma_first_index_where_bound<A>(s: Seq<A>, p: spec_fn(A) -> bool)
    ensures
        first_index_where(s, p) <= s.len(),
        first_index_where(s, p) < s.len() ==> p(s[first_index_where(s, p) as int]),
        forall|j: int| 0 <= j < first_index_where(s, p) ==> !p(#[trigger] s[j]),
    decreases s.len(),
{
    if s.len() > 0 && !p(s[0]) {
        let t = s.drop_first();
        lemma_first_index_where_bound(t, p);
        assert forall|j: int| 0 <= j < first_index_where(s, p) implies !p(#[trigger] s[j]) by {
            if j > 0 {
                assert(s[j] == t[j - 1]);
            }
        }
    }
}

pub proof fn lemma_trailing_count<A>(s: Seq<A>, p: spec_fn(A) -> bool, k: int)
    requires
        0 <= k <= s.len(),
        forall|j: int| s.len() - k <= j < s.len() ==> p(#[trigger] s[j]),
        k == s.len() || !p(s[s.len() - k - 1]),
    ensures
        trailing_count(s, p) == k,
    decreases k,
{
    if k > 0 {
        assert(p(s[s.len() - 1]));
        let t = s.drop_last();
        assert forall|j: int| t.len() - (k - 1) <= j < t.len() implies p(#[trigger] t[j]) by {
            assert(t[j] == s[j]);
        }
        if k - 1 < t.len() {
            assert(t[t.len() - (k - 1) - 1] == s[s.len() - k - 1]);
        }
        lemma_trailing_count(t, p, k - 1);
    } else {
        if s.len() > 0 {
            assert(!p(s.last()));
        }
    }
}

pub proof fn lemma_trailing_count_bound<A>(s: Seq<A>, p: spec_fn(A) -> bool)
    ensures
        trailing_count(s, p) <= s.len(),
        forall|j: int| s.len() - trailing_count(s, p) <= j < s.len() ==> p(#[trigger] s[j]),
        trailing_count(s, p) < s.len() ==> !p(s[s.len() - trailing_count(s, p) - 1]),
    decreases s.len(),
{
    if s.len() > 0 && p(s.last()) {
        let t = s.drop_last();
        lemma_trailing_count_bound(t, p);
        assert forall|j: int| s.len() - trailing_count(s, p) <= j < s.len() implies p(#[trigger] s[j]) by {
            if j < s.len() - 1 {
                assert(s[j] == t[j]);
            }
        }
        if trailing_count(s, p) < s.len() {
            assert(s[s.len() - trailing_count(s, p) - 1] == t[t.len() - trailing_count(t, p) - 1]);
        }
    }
}

/// Appends the decimal rendering of `n` to `out`.
pub fn push_decimal(out: &mut Vec<u8>, n: u64)
    ensures
        final(out)@ == old(out)@ + decimal(n as nat),
    decreases n,
{
    if n >= 10 {
        push_decimal(out, n / 10);
    }
    out.push((48 + n % 10) as u8);
    proof {
        if n >= 10 {
            assert(old(out)@ + decimal(n as nat) =~= old(out)@ + decimal((n / 10) as nat) + seq![(48 + n % 10) as u8]);
        } else {
            assert(old(out)@ + decimal(n as nat) =~= old(out)@ + seq![(48 + n % 10) as u8]);
        }
    }
}

proof fn lemma_digits_value_monotone(s: Seq<u8>, i: int)
    requires
        0 <= i <= s.len(),
        all_digits(s),
    ensures
        digits_value(s.take(i)) <= digits_value(s),
    decreases s.len() - i,
{
    if i < s.len() {
        lemma_digits_value_monotone(s, i + 1);
        assert(s.take(i + 1).drop_last() =~= s.take(i));
        assert(is_digit(s[i]));
    } else {
        assert(s.take(i) =~= s);
    }
}

/// Parses `bytes[start..end]` as `str::parse` does for an unsigned type whose
/// largest value is `max`.
pub fn parse_decimal(bytes: &[u8], start: usize, end: usize, max: u64) -> (r: Option<u64>)
    requires
        start <= end <= bytes@.len(),
        max <= u32::MAX,
    ensures
        widen(r) == parse_unsigned(bytes@.subrange(start as int, end as int), max as nat),
{
    let ghost s = bytes@.subrange(start as int, end as int);
    let mut i = start;
    if i < end && bytes[i] == 43u8 {
        i = i + 1;
    }
    let ghost d = if s.len() > 0 && s[0] == 43u8 { s.drop_first() } else { s };
    assert(d =~= bytes@.subrange(i as int, end as int));
    if i == end {
        return None;
    }
    let digits_start = i;
    let mut acc: u64 = 0;
    while i < end
        invariant
            digits_start <= i <= end <= bytes@.len(),
            d =~= bytes@.subrange(digits_start as int, end as int),
            s == bytes@.subrange(start as int, end as int),
            d == (if s.len() > 0 && s[0] == 43u8 { s.drop_first() } else { s }),
            d.len() > 0,
            acc <= max,
            max <= u32::MAX,
            all_digits(d.take(i - digits_start)),
            acc == digits_value(d.take(i - digits_start)),
        decreases end - i,
    {
        let b = bytes[i];
        if b < 48 || b > 57 {
            assert(!is_digit(d[i - digits_start]));
            assert(!all_digits(d));
            assert(parse_unsigned(s, max as nat) is None);
            return None;
        }
        let next = acc * 10 + (b - 48) as u64;
        proof {
            let k = i - digits_start;
            assert(d.take(k + 1).drop_last() =~= d.take(k));
            assert(d.take(k + 1).last() == b);
            assert(all_digits(d.take(k + 1))) by {
                assert forall|j: int| 0 <= j < k + 1 implies is_digit(#[trigger] d.take(k + 1)[j]) by {
                    if j < k {
                        assert(d.take(k + 1)[j] == d.take(k)[j]);
                    }
                }
            }
        }
        if next > max {
            proof {
                let k = i - digits_start;
                assert(next == digits_value(d.take(k + 1)));
                if all_digits(d) {
                    lemma_digits_value_monotone(d, k + 1);
                }
                assert(parse_unsigned(s, max as nat) is None);
            }
            return None;
        }
        acc = next;
        i = i + 1;
    }
    assert(d.take(d.len() as int) =~= d);
    Some(acc)
}

/// UTF-16 code units of a Unicode scalar value, as `char::encode_utf16` writes them.
pub open spec fn utf16_units(v: nat) -> Seq<u16> {
    if v < 0x10000 {
        seq![v as u16]
    } else {
        let w = (v - 0x10000) as nat;
        seq![(0xD800 + w / 1024) as u16, (0xDC00 + w % 1024) as u16]
    }
}

/// Decodes the scalar that starts `bytes[i..end]`: its value and encoded
/// length when the bytes begin with a valid UTF-8 encoding of one scalar.
pub fn first_scalar(bytes: &[u8], i: usize, end: usize) -> (r: Option<(u32, usize)>)
    requires
        i < end <= bytes@.len(),
    ensures
        ({
            let s = bytes@.subrange(i as int, end as int);
            match r {
                Some((v, n)) => valid_first_scalar(s) && v == decode_first_scalar(s) && n
                    == length_of_first_scalar(s) && v <= 0x10ffff && !(0xd800 <= v <= 0xdfff),
                None => !valid_first_scalar(s),
            }
        }),
{
    let ghost s = bytes@.subrange(i as int, end as int);
    let avail = end - i;
    let b0 = bytes[i];
    let cp: u32;
    let n: usize;
    if b0 <= 0x7f {
        cp = (b0 & 0x7F) as u32;
        assert((b0 & 0x7F) as u32 <= 0x7f) by (bit_vector);
        n = 1;
    } else if 0xc0 <= b0 && b0 <= 0xdf {
        if avail < 2 || !(0x80 <= bytes[i + 1] && bytes[i + 1] <= 0xbf) {
            return None;
        }
        let b1 = bytes[i + 1];
        cp = (((b0 & 0x1F) as u32) << 6) | ((b1 & 0x3f) as u32);
        assert((((b0 & 0x1F) as u32) << 6) | ((b1 & 0x3f) as u32) <= 0x7ff) by (bit_vector);
        n = 2;
    } else if 0xe0 <= b0 && b0 <= 0xef {
        if avail < 3 || !(0x80 <= bytes[i + 1] && bytes[i + 1] <= 0xbf) || !(0x80 <= bytes[i + 2]
            && bytes[i + 2] <= 0xbf) {
            return None;
        }
        let b1 = bytes[i + 1];
        let b2 = bytes[i + 2];
        cp = (((b0 & 0x0F) as u32) << 12) | (((b1 & 0x3f) as u32) << 6) | ((b2 & 0x3f) as u32);
        assert((((b0 & 0x0F) as u32) << 12) | (((b1 & 0x3f) as u32) << 6) | ((b2 & 0x3f) as u32)
            <= 0xffff) by (bit_vector);
        n = 3;
    } else if 0xf0 <= b0 && b0 <= 0xf7 {
        if avail < 4 || !(0x80 <= bytes[i + 1] && bytes[i + 1] <= 0xbf) || !(0x80 <= bytes[i + 2]
            && bytes[i + 2] <= 0xbf) || !(0x80 <= bytes[i + 3] && bytes[i + 3] <= 0xbf) {
            return None;
        }
        cp = (((b0 & 0x07) as u32) << 18) | (((bytes[i + 1] & 0x3f) as u32) << 12) | (((bytes[i
            + 2] & 0x3f) as u32) << 6) | ((bytes[i + 3] & 0x3f) as u32);
        n = 4;
    } else {
        return None;
    }
    assert(cp == decode_first_codepoint(s));
    if (n == 2 && cp < 0x80) || (n == 3 && cp < 0x800) || (n == 4 && (cp < 0x10000 || cp
        > 0x10ffff)) || (0xD800 <= cp && cp <= 0xDFFF) {
        return None;
    }
    Some((cp, n))
}

/// Whether `bytes[start..end]` is well-formed UTF-8.
pub fn utf8_valid(bytes: &[u8], start: usize, end: usize) -> (r: bool)
    requires
        start <= end <= bytes@.len(),
    ensures
        r == valid_utf8(bytes@.subrange(start as int, end as int)),
{
    let mut i = start;
    while i < end
        invariant
            start <= i <= end <= bytes@.len(),
            valid_utf8(bytes@.subrange(start as int, end as int)) == valid_utf8(
                bytes@.subrange(i as int, end as int),
            ),
        decreases end - i,
    {
        let ghost s = bytes@.subrange(i as int, end as int);
        match first_scalar(bytes, i, end) {
            None => {
                return false;
            },
            Some((_, n)) => {
                assert(pop_first_scalar(s) =~= bytes@.subrange(i + n, end as int));
                i = i + n;
            },
        }
    }
    true
}

/// The characters of `s`, in order.
pub fn chars_of(s: &str) -> (v: Vec<char>)
    ensures
        v@ == s@,
{
    let mut v: Vec<char> = Vec::new();
    for c in it: s.chars()
        invariant
            v@ == it.seq().take(it.index()),
            it.seq() == s@,
    {
        v.push(c);
        assert(v@ =~= it.seq().take(it.index() + 1));
    }
    assert(v@ =~= s@);
    v
}

/// Appends one character to a string (`String::push`).
#[verifier::external_body]
pub(crate) fn push_char(s: &mut String, c: char)
    ensures
        final(s)@ == old(s)@.push(c),
{
    s.push(c);
}

/// Builds a string from `chars[lo..hi]`.
pub fn string_of(chars: &[char], lo: usize, hi: usize) -> (r: String)
    requires
        lo <= hi <= chars@.len(),
    ensures
        r@ == chars@.subrange(lo as int, hi as int),
{
    let mut r = String::new();
    let mut i: usize = lo;
    while i < hi
        invariant
            lo <= i <= hi <= chars@.len(),
            r@ == chars@.subrange(lo as int, i as int),
        decreases hi - i,
    {
        push_char(&mut r, chars[i]);
        assert(r@ =~= chars@.subrange(lo as int, i + 1));
        i = i + 1;
    }
    r
}

/// Appends `src[lo..hi]` to `out`.
pub fn push_chars(out: &mut Vec<char>, src: &[char], lo: usize, hi: usize)
    requires
        lo <= hi <= src@.len(),
    ensures
        final(out)@ == old(out)@ + src@.subrange(lo as int, hi as int),
{
    let mut i = lo;
    while i < hi
        invariant
            lo <= i <= hi <= src@.len(),
            out@ == old(out)@ + src@.subrange(lo as int, i as int),
        decreases hi - i,
    {
        out.push(src[i]);
        assert(out@ =~= old(out)@ + src@.subrange(lo as int, i + 1));
        i = i + 1;
    }
}

/// The predicate "equals `b`".
pub open spec fn byte_is(b: u8) -> spec_fn(u8) -> bool {
    |x: u8| x == b
}

/// The part of `s` before the first `b` (all of `s` when there is none).
pub open spec fn before(s: Seq<u8>, b: u8) -> Seq<u8> {
    s.take(first_index_where(s, byte_is(b)) as int)
}

/// The part of `s` after the first `b`, when `s` holds one.
pub open spec fn after(s: Seq<u8>, b: u8) -> Option<Seq<u8>> {
    let k = first_index_where(s, byte_is(b));
    if k < s.len() {
        Some(s.skip(k as int + 1))
    } else {
        None
    }
}

/// Position of the first `b` in `bytes[from..to]`, or `to` when there is none.
pub fn find_byte(bytes: &[u8], from: usize, to: usize, b: u8) -> (k: usize)
    requires
        from <= to <= bytes@.len(),
    ensures
        from <= k <= to,
        k == from + first_index_where(bytes@.subrange(from as int, to as int), byte_is(b)),
{
    let ghost s = bytes@.subrange(from as int, to as int);
    let mut k = from;
    while k < to && bytes[k] != b
        invariant
            from <= k <= to <= bytes@.len(),
            s == bytes@.subrange(from as int, to as int),
            forall|j: int| 0 <= j < k - from ==> !byte_is(b)(#[trigger] s[j]),
        decreases to - k,
    {
        k = k + 1;
    }
    proof {
        lemma_first_index_where(s, byte_is(b), k - from);
    }
    k
}

/// Appends `src[from..to]` to `out`.
pub fn push_range(out: &mut Vec<u8>, src: &[u8], from: usize, to: usize)
    requires
        from <= to <= src@.len(),
    ensures
        final(out)@ == old(out)@ + src@.subrange(from as int, to as int),
{
    let mut i = from;
    while i < to
        invariant
            from <= i <= to <= src@.len(),
            out@ == old(out)@ + src@.subrange(from as int, i as int),
        decreases to - i,
    {
        out.push(src[i]);
        assert(out@ =~= old(out)@ + src@.subrange(from as int, i + 1));
        i = i + 1;
    }
}

/// Whether `s` begins with `prefix`.
pub open spec fn starts_with<A>(s: Seq<A>, prefix: Seq<A>) -> bool {
    prefix.len() <= s.len() && s.take(prefix.len() as int) == prefix
}

/// Whether `p[start..end]` begins with `lit`.
pub fn range_starts_with(p: &[u8], start: usize, end: usize, lit: &[u8]) -> (r: bool)
    requires
        start <= end <= p@.len(),
    ensures
        r == starts_with(p@.subrange(start as int, end as int), lit@),
{
    let ghost s = p@.subrange(start as int, end as int);
    if lit.len() > end - start {
        return false;
    }
    let mut i: usize = 0;
    while i < lit.len()
        invariant
            i <= lit@.len() <= end - start,
            start <= end <= p@.len(),
            s == p@.subrange(start as int, end as int),
            forall|j: int| 0 <= j < i ==> s[j] == lit@[j],
        decreases lit@.len() - i,
    {
        if p[start + i] != lit[i] {
            assert(s.take(lit@.len() as int)[i as int] != lit@[i as int]);
            return false;
        }
        i = i + 1;
    }
    assert(s.take(lit@.len() as int) =~= lit@);
    true
}

/// Whether `p[start..end]` equals `lit`.
pub fn range_eq(p: &[u8], start: usize, end: usize, lit: &[u8]) -> (r: bool)
    requires
        start <= end <= p@.len(),
    ensures
        r == (p@.subrange(start as int, end as int) == lit@),
{
    let ghost s = p@.subrange(start as int, end as int);
    if lit.len() != end - start {
        assert(s.len() != lit@.len());
        return false;
    }
    let r = range_starts_with(p, start, end, lit);
    assert(s.take(lit@.len() as int) =~= s);
    r
}

/// String equality by characters.
pub fn str_equal(a: &str, b: &str) -> (r: bool)
    ensures
        r == (a@ == b@),
{
    let x = chars_of(a);
    let y = chars_of(b);
    if x.len() != y.len() {
        return false;
    }
    let mut i: usize = 0;
    while i < x.len()
        invariant
            x@ == a@,
            y@ == b@,
            x@.len() == y@.len(),
            i <= x@.len(),
            forall|j: int| 0 <= j < i ==> x@[j] == y@[j],
        decreases x@.len() - i,
    {
        if x[i] != y[i] {
            return false;
        }
        i = i + 1;
    }
    assert(x@ =~= y@);
    true
}

} // verus!
