//! What the session host answers to terminal queries the shell sends, and
//! how it records window titles and the bell for attached clients.
use vstd::prelude::*;
use vstd::utf8::{decode_utf8, valid_utf8};
use vstd::string::StringSliceAdditionalSpecFns;
use crate::text::{decimal, push_decimal, push_range, push_char};

verus! {

/// Characters that `String::from_utf8_lossy` decodes `bytes` to.
pub uninterp spec fn utf8_lossy(bytes: Seq<u8>) -> Seq<char>;

/// `String::from_utf8_lossy`: the text of `bytes`, each invalid sequence
/// replaced by U+FFFD. Named [`utf8_lossy`]; valid UTF-8 decodes as is.
#[verifier::external_body]
pub(crate) fn from_utf8_lossy(bytes: &[u8]) -> (r: String)
    ensures
        r@ == utf8_lossy(bytes@),
        valid_utf8(bytes@) ==> r@ == decode_utf8(bytes@),
{
    String::from_utf8_lossy(bytes).into_owned()
}

/// A control character (general category Cc).
pub open spec fn is_control(c: char) -> bool {
    c as u32 <= 0x1f || (0x7f <= c as u32 <= 0x9f)
}

/// The reply to an otherwise unhandled CSI sequence with intermediates `i1`
/// and `i2` (`has_i2`), first parameter `value` (0 when absent) and final
/// `command`, the cursor being at zero-based (`row`, `col`): a cursor
/// position report for `CSI 6 n`, "ready" for `CSI 5 n`, the device
/// attributes for `CSI c` and `CSI > c`, nothing otherwise.
pub open spec fn csi_reply_of(i1: Option<u8>, has_i2: bool, value: u16, command: char, row: u16, col: u16) -> Seq<u8> {
    if has_i2 {
        seq![]
    } else if i1 is None && command == 'n' && value == 6 {
        seq![0x1bu8, 0x5bu8] + decimal(row as nat + 1) + seq![0x3bu8] + decimal(col as nat + 1) + seq![0x52u8]
    } else if i1 is None && command == 'n' && value == 5 {
        seq![0x1bu8, 0x5bu8, 0x30u8, 0x6eu8]
    } else if i1 is None && command == 'c' && value == 0 {
        seq![0x1bu8, 0x5bu8, 0x3fu8, 0x36u8, 0x32u8, 0x3bu8, 0x32u8, 0x32u8, 0x63u8]
    } else if i1 == Some(0x3eu8) && command == 'c' && value == 0 {
        seq![0x1bu8, 0x5bu8, 0x3eu8, 0x30u8, 0x3bu8, 0x31u8, 0x3bu8, 0x30u8, 0x63u8]
    } else {
        seq![]
    }
}

pub fn csi_reply(i1: Option<u8>, has_i2: bool, value: u16, command: char, row: u16, col: u16) -> (r: Vec<u8>)
    ensures
        r@ == csi_reply_of(i1, has_i2, value, command, row, col),
{
    let mut out: Vec<u8> = Vec::new();
    if has_i2 {
        return out;
    }
    let plain = match i1 {
        None => true,
        Some(_) => false,
    };
    if plain && command == 'n' && value == 6 {
        out.push(0x1b);
        out.push(0x5b);
        push_decimal(&mut out, row as u64 + 1);
        out.push(0x3b);
        push_decimal(&mut out, col as u64 + 1);
        out.push(0x52);
    } else if plain && command == 'n' && value == 5 {
        let reply: [u8; 4] = [0x1b, 0x5b, 0x30, 0x6e];
        push_range(&mut out, &reply, 0, 4);
    } else if plain && command == 'c' && value == 0 {
        let reply: [u8; 9] = [0x1b, 0x5b, 0x3f, 0x36, 0x32, 0x3b, 0x32, 0x32, 0x63];
        push_range(&mut out, &reply, 0, 9);
    } else if i1 == Some(0x3eu8) && command == 'c' && value == 0 {
        let reply: [u8; 9] = [0x1b, 0x5b, 0x3e, 0x30, 0x3b, 0x31, 0x3b, 0x30, 0x63];
        push_range(&mut out, &reply, 0, 9);
    }
    assert(out@ =~= csi_reply_of(i1, has_i2, value, command, row, col));
    out
}

/// `ESC ] <which> ; rgb:<v>/<v>/<v> ESC \`
pub open spec fn color_report(which: u8, v: u8) -> Seq<u8> {
    seq![0x1bu8, 0x5du8, 0x31u8, which, 0x3bu8, 0x72u8, 0x67u8, 0x62u8, 0x3au8, v, v, v, v, 0x2fu8, v, v, v, v, 0x2fu8, v, v, v, v, 0x1bu8, 0x5cu8]
}

/// The reply to an otherwise unhandled OSC with parameters `params`: the
/// foreground (light grey) for `10;?`, the background (black) for `11;?`,
/// nothing otherwise.
pub open spec fn osc_reply_of(params: Seq<Seq<u8>>) -> Seq<u8> {
    if params.len() == 2 && params[1] == seq![0x3fu8] {
        if params[0] == seq![0x31u8, 0x30u8] {
            color_report(0x30, 0x65)
        } else if params[0] == seq![0x31u8, 0x31u8] {
            color_report(0x31, 0x30)
        } else {
            seq![]
        }
    } else {
        seq![]
    }
}

fn bytes_are(v: &Vec<u8>, lit: &[u8]) -> (r: bool)
    ensures
        r == (v@ == lit@),
{
    if v.len() != lit.len() {
        return false;
    }
    let mut i: usize = 0;
    while i < v.len()
        invariant
            v@.len() == lit@.len(),
            i <= v@.len(),
            forall|j: int| 0 <= j < i ==> v@[j] == lit@[j],
        decreases v@.len() - i,
    {
        if v[i] != lit[i] {
            return false;
        }
        i = i + 1;
    }
    assert(v@ =~= lit@);
    true
}

pub fn osc_reply(params: &Vec<Vec<u8>>) -> (r: Vec<u8>)
    ensures
        r@ == osc_reply_of(params@.map_values(|p: Vec<u8>| p@)),
{
    let ghost ps = params@.map_values(|p: Vec<u8>| p@);
    let mut out: Vec<u8> = Vec::new();
    let question: [u8; 1] = [0x3f];
    let ten: [u8; 2] = [0x31, 0x30];
    let eleven: [u8; 2] = [0x31, 0x31];
    assert(question@ =~= seq![0x3fu8]);
    assert(ten@ =~= seq![0x31u8, 0x30u8]);
    assert(eleven@ =~= seq![0x31u8, 0x31u8]);
    if params.len() == 2 && bytes_are(&params[1], &question) {
        assert(ps[1] == params@[1]@);
        assert(ps[0] == params@[0]@);
        let which: u8;
        let v: u8;
        if bytes_are(&params[0], &ten) {
            which = 0x30;
            v = 0x65;
        } else if bytes_are(&params[0], &eleven) {
            which = 0x31;
            v = 0x30;
        } else {
            assert(out@ =~= osc_reply_of(ps));
            return out;
        }
        let reply: [u8; 25] = [
            0x1b, 0x5d, 0x31, which, 0x3b, 0x72, 0x67, 0x62, 0x3a, v, v, v, v, 0x2f, v, v, v, v,
            0x2f, v, v, v, v, 0x1b, 0x5c,
        ];
        push_range(&mut out, &reply, 0, 25);
        assert(reply@.subrange(0, 25) =~= color_report(which, v));
        assert(out@ =~= osc_reply_of(ps));
        return out;
    }
    proof {
        if params@.len() == 2 {
            assert(ps[1] == params@[1]@);
        }
    }
    assert(out@ =~= osc_reply_of(ps));
    out
}

/// The characters of `s` that are not control characters.
pub open spec fn without_controls(s: Seq<char>) -> Seq<char>
    decreases s.len(),
{
    if s.len() == 0 {
        seq![]
    } else if is_control(s.last()) {
        without_controls(s.drop_last())
    } else {
        without_controls(s.drop_last()).push(s.last())
    }
}

/// The bytes of `s` that are printable (32 or more, not 127).
pub open spec fn printable_bytes(s: Seq<u8>) -> Seq<u8>
    decreases s.len(),
{
    if s.len() == 0 {
        seq![]
    } else if s.last() >= 32 && s.last() != 127 {
        printable_bytes(s.drop_last()).push(s.last())
    } else {
        printable_bytes(s.drop_last())
    }
}

/// A window-title change `title` as the host records it: the title text
/// (lossily decoded, control characters removed) and the event passed on to
/// clients, `ESC ] 2 ; <printable bytes> BEL`.
pub fn window_title(title: &[u8]) -> (r: (String, Vec<u8>))
    ensures
        r.0@ == without_controls(utf8_lossy(title@)),
        r.1@ == seq![0x1bu8, 0x5du8, 0x32u8, 0x3bu8] + printable_bytes(title@) + seq![7u8],
{
    let text = from_utf8_lossy(title);
    let chars = crate::text::chars_of(text.as_str());
    let mut kept = String::new();
    let mut i: usize = 0;
    while i < chars.len()
        invariant
            i <= chars@.len(),
            chars@ == utf8_lossy(title@),
            kept@ == without_controls(chars@.take(i as int)),
        decreases chars@.len() - i,
    {
        let c = chars[i];
        let u = c as u32;
        assert(chars@.take(i + 1).drop_last() =~= chars@.take(i as int));
        if !(u <= 0x1f || (0x7f <= u && u <= 0x9f)) {
            push_char(&mut kept, c);
        }
        i = i + 1;
    }
    assert(chars@.take(i as int) =~= chars@);
    let mut event: Vec<u8> = Vec::new();
    event.push(0x1b);
    event.push(0x5d);
    event.push(0x32);
    event.push(0x3b);
    let ghost head = event@;
    let mut j: usize = 0;
    while j < title.len()
        invariant
            j <= title@.len(),
            head == seq![0x1bu8, 0x5du8, 0x32u8, 0x3bu8],
            event@ == head + printable_bytes(title@.take(j as int)),
        decreases title@.len() - j,
    {
        let b = title[j];
        assert(title@.take(j + 1).drop_last() =~= title@.take(j as int));
        if b >= 32 && b != 127 {
            event.push(b);
        }
        assert(event@ =~= head + printable_bytes(title@.take(j + 1)));
        j = j + 1;
    }
    assert(title@.take(j as int) =~= title@);
    event.push(7);
    (kept, event)
}

/// A snapshot followed, when the window title is known, by
/// `ESC ] 2 ; <title> BEL` so the client restores it.
pub fn with_title(snapshot: Vec<u8>, title: &str) -> (r: Vec<u8>)
    ensures
        title@.len() == 0 ==> r@ == snapshot@,
        title@.len() > 0 ==> r@ == snapshot@ + seq![0x1bu8, 0x5du8, 0x32u8, 0x3bu8] + title.spec_bytes()
            + seq![7u8],
{
    let mut out = snapshot;
    if title.is_empty() {
        return out;
    }
    let ghost start = out@;
    out.push(0x1b);
    out.push(0x5d);
    out.push(0x32);
    out.push(0x3b);
    let bytes = title.as_bytes();
    push_range(&mut out, bytes, 0, bytes.len());
    out.push(7);
    assert(bytes@.subrange(0, bytes@.len() as int) =~= bytes@);
    assert(out@ =~= start + seq![0x1bu8, 0x5du8, 0x32u8, 0x3bu8] + title.spec_bytes() + seq![7u8]);
    out
}

} // verus!
