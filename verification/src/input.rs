//! Client-side input filtering. The terminal front end reports its display
//! state through private OSC controls (`ESC ] 1337 ; ZMX_... BEL`); those are
//! taken out of the byte stream and turned into events, as is the detach key
//! (Ctrl-\). Every other byte is forwarded unchanged.
use vstd::prelude::*;
use crate::text::{
    after, before, byte_is, find_byte, first_index_where, parse_decimal, parse_unsigned,
    push_range, range_eq, range_starts_with, starts_with, widen,
};

verus! {

/// Held-back bytes of an unterminated control are dropped once this many
/// have accumulated.
pub const CONTROL_LIMIT: usize = 128;

/// One event of the filtered input stream.
#[derive(Debug)]
pub enum Input {
    /// Bytes to forward to the session.
    Bytes(Vec<u8>),
    /// The front end's display state (`visible`, `chat` or `parked`) and size.
    Visibility { state: &'static str, rows: u16, cols: u16 },
    /// The front end asks for a repaint.
    Refresh,
    /// The user pressed the detach key.
    Detach,
}

pub enum InputView {
    Bytes(Seq<u8>),
    Visibility { state: Seq<char>, rows: u16, cols: u16 },
    Refresh,
    Detach,
}

impl View for Input {
    type V = InputView;

    open spec fn view(&self) -> InputView {
        match self {
            Input::Bytes(b) => InputView::Bytes(b@),
            Input::Visibility { state, rows, cols } => InputView::Visibility {
                state: state@,
                rows: *rows,
                cols: *cols,
            },
            Input::Refresh => InputView::Refresh,
            Input::Detach => InputView::Detach,
        }
    }
}

pub open spec fn views(s: Seq<Input>) -> Seq<InputView> {
    s.map_values(|e: Input| e@)
}

/// `ESC ] 1337 ; ZMX_`
pub open spec fn zmx_prefix() -> Seq<u8> {
    seq![0x1bu8, 0x5du8, 0x31u8, 0x33u8, 0x33u8, 0x37u8, 0x3bu8, 0x5au8, 0x4du8, 0x58u8, 0x5fu8]
}

/// `REFRESH`
pub open spec fn refresh_word() -> Seq<u8> {
    seq![0x52u8, 0x45u8, 0x46u8, 0x52u8, 0x45u8, 0x53u8, 0x48u8]
}

/// `VISIBLE=`
pub open spec fn visible_tag() -> Seq<u8> {
    seq![0x56u8, 0x49u8, 0x53u8, 0x49u8, 0x42u8, 0x4cu8, 0x45u8, 0x3du8]
}

/// `CHAT=`
pub open spec fn chat_tag() -> Seq<u8> {
    seq![0x43u8, 0x48u8, 0x41u8, 0x54u8, 0x3du8]
}

/// `HIDDEN=`
pub open spec fn hidden_tag() -> Seq<u8> {
    seq![0x48u8, 0x49u8, 0x44u8, 0x44u8, 0x45u8, 0x4eu8, 0x3du8]
}

/// The visibility event of a `TAG=rows,cols` control: both numbers must
/// parse as `u16` and be positive.
pub open spec fn visibility_event(control: Seq<u8>, tag: Seq<u8>, state: Seq<char>) -> Seq<
    InputView,
> {
    if starts_with(control, tag) {
        let rest = control.skip(tag.len() as int);
        match after(rest, 0x2c) {
            Some(c) => match (parse_unsigned(before(rest, 0x2c), 0xffff), parse_unsigned(c, 0xffff)) {
                (Some(rows), Some(cols)) => if rows > 0 && cols > 0 {
                    seq![InputView::Visibility { state, rows: rows as u16, cols: cols as u16 }]
                } else {
                    seq![]
                },
                _ => seq![],
            },
            None => seq![],
        }
    } else {
        seq![]
    }
}

/// Events of one control body (the bytes between the prefix and BEL).
pub open spec fn control_events(control: Seq<u8>) -> Seq<InputView> {
    (if control == refresh_word() {
        seq![InputView::Refresh]
    } else {
        seq![]
    }) + visibility_event(control, visible_tag(), "visible"@) + visibility_event(
        control,
        chat_tag(),
        "chat"@,
    ) + visibility_event(control, hidden_tag(), "parked"@)
}

pub open spec fn flush(events: Seq<InputView>, out: Seq<u8>) -> Seq<InputView> {
    if out.len() > 0 {
        events.push(InputView::Bytes(out))
    } else {
        events
    }
}

/// Filters `p`, continuing from the events and unflushed bytes so far: the
/// events, the unflushed bytes and what stays held back.
pub open spec fn scan(p: Seq<u8>, detach: bool, events: Seq<InputView>, out: Seq<u8>) -> (Seq<
    InputView,
>, Seq<u8>, Seq<u8>)
    decreases p.len(),
{
    if p.len() == 0 {
        (events, out, p)
    } else if starts_with(zmx_prefix(), p) {
        (events, out, p)
    } else if starts_with(p, zmx_prefix()) {
        let e = first_index_where(p, byte_is(7));
        if e < p.len() && e >= zmx_prefix().len() {
            scan(
                p.skip(e as int + 1),
                detach,
                flush(events, out) + control_events(p.subrange(zmx_prefix().len() as int, e as int)),
                seq![],
            )
        } else if p.len() < CONTROL_LIMIT {
            (events, out, p)
        } else {
            (events, out, seq![])
        }
    } else if p[0] == 0x1c && detach {
        (flush(events, out).push(InputView::Detach), seq![], p.skip(1))
    } else {
        scan(p.skip(1), detach, events, out.push(p[0]))
    }
}

/// Events of a feed and the bytes held back afterwards.
pub open spec fn filter_result(pending: Seq<u8>, bytes: Seq<u8>, detach: bool) -> (Seq<InputView>, Seq<u8>) {
    let r = scan(pending + bytes, detach, seq![], seq![]);
    (flush(r.0, r.1), r.2)
}

/// Splits private display controls and the detach key out of an input
/// byte stream.
pub struct InputFilter {
    pending: Vec<u8>,
}

impl View for InputFilter {
    type V = Seq<u8>;

    closed spec fn view(&self) -> Seq<u8> {
        self.pending@
    }
}

impl Default for InputFilter {
    fn default() -> (r: Self)
        ensures
            r@ == Seq::<u8>::empty(),
    {
        InputFilter::new()
    }
}

fn push_event(events: &mut Vec<Input>, e: Input)
    ensures
        views(final(events)@) == views(old(events)@).push(e@),
{
    events.push(e);
    assert(views(events@) =~= views(old(events)@).push(e@));
}

fn flush_output(events: &mut Vec<Input>, output: &mut Vec<u8>)
    ensures
        views(final(events)@) == flush(views(old(events)@), old(output)@),
        final(output)@ == Seq::<u8>::empty(),
{
    if output.len() > 0 {
        let mut taken = Vec::new();
        std::mem::swap(&mut taken, output);
        push_event(events, Input::Bytes(taken));
    }
}

/// Appends the visibility event of the control `p[cs..ce]` for `tag`.
fn push_visibility(
    p: &[u8],
    cs: usize,
    ce: usize,
    tag: &[u8],
    state: &'static str,
    events: &mut Vec<Input>,
)
    requires
        cs <= ce <= p@.len(),
    ensures
        views(final(events)@) == views(old(events)@) + visibility_event(
            p@.subrange(cs as int, ce as int),
            tag@,
            state@,
        ),
{
    let ghost control = p@.subrange(cs as int, ce as int);
    if !range_starts_with(p, cs, ce, tag) {
        assert(views(events@) =~= views(events@) + Seq::<InputView>::empty());
        return;
    }
    let rs = cs + tag.len();
    let ghost rest = control.skip(tag@.len() as int);
    assert(rest =~= p@.subrange(rs as int, ce as int));
    let comma = find_byte(p, rs, ce, 0x2c);
    if comma == ce {
        assert(after(rest, 0x2c) is None);
        assert(views(events@) =~= views(events@) + Seq::<InputView>::empty());
        return;
    }
    assert(after(rest, 0x2c) == Some(p@.subrange(comma + 1, ce as int)));
    assert(before(rest, 0x2c) =~= p@.subrange(rs as int, comma as int));
    let rows = parse_decimal(p, rs, comma, 0xffff);
    let cols = parse_decimal(p, comma + 1, ce, 0xffff);
    match (rows, cols) {
        (Some(r), Some(c)) => {
            if r > 0 && c > 0 {
                let ghost before_events = views(events@);
                push_event(events, Input::Visibility { state, rows: r as u16, cols: c as u16 });
                assert(views(events@) =~= before_events + seq![
                    InputView::Visibility { state: state@, rows: r as u16, cols: c as u16 },
                ]);
            } else {
                assert(views(events@) =~= views(events@) + Seq::<InputView>::empty());
            }
        },
        _ => {
            assert(views(events@) =~= views(events@) + Seq::<InputView>::empty());
        },
    }
}

/// Appends the events of the control body `p[cs..ce]`.
fn push_control_events(p: &[u8], cs: usize, ce: usize, events: &mut Vec<Input>)
    requires
        cs <= ce <= p@.len(),
    ensures
        views(final(events)@) == views(old(events)@) + control_events(
            p@.subrange(cs as int, ce as int),
        ),
{
    let ghost control = p@.subrange(cs as int, ce as int);
    let ghost start = views(events@);
    let refresh: [u8; 7] = [0x52, 0x45, 0x46, 0x52, 0x45, 0x53, 0x48];
    if range_eq(p, cs, ce, &refresh) {
        push_event(events, Input::Refresh);
    }
    let ghost e0 = views(events@);
    assert(e0 =~= start + (if control == refresh_word() {
        seq![InputView::Refresh]
    } else {
        seq![]
    }));
    let visible: [u8; 8] = [0x56, 0x49, 0x53, 0x49, 0x42, 0x4c, 0x45, 0x3d];
    push_visibility(p, cs, ce, &visible, "visible", events);
    let chat: [u8; 5] = [0x43, 0x48, 0x41, 0x54, 0x3d];
    push_visibility(p, cs, ce, &chat, "chat", events);
    let hidden: [u8; 7] = [0x48, 0x49, 0x44, 0x44, 0x45, 0x4e, 0x3d];
    push_visibility(p, cs, ce, &hidden, "parked", events);
    assert(views(events@) =~= start + control_events(control));
}

/// Whether `p[start..end]` is a prefix of `ESC ] 1337 ; ZMX_`.
fn is_prefix_of_zmx(p: &[u8], start: usize, end: usize, prefix: &[u8]) -> (r: bool)
    requires
        start <= end <= p@.len(),
    ensures
        r == starts_with(prefix@, p@.subrange(start as int, end as int)),
{
    let ghost s = p@.subrange(start as int, end as int);
    let n = end - start;
    if n > prefix.len() {
        return false;
    }
    let mut k: usize = 0;
    while k < n
        invariant
            k <= n == end - start,
            start <= end <= p@.len(),
            n <= prefix@.len(),
            s == p@.subrange(start as int, end as int),
            forall|j: int| 0 <= j < k ==> prefix@[j] == s[j],
        decreases n - k,
    {
        if prefix[k] != p[start + k] {
            assert(prefix@.take(n as int)[k as int] != s[k as int]);
            return false;
        }
        k = k + 1;
    }
    assert(prefix@.take(n as int) =~= s);
    true
}

impl InputFilter {
    pub fn new() -> (r: Self)
        ensures
            r@ == Seq::<u8>::empty(),
    {
        InputFilter { pending: Vec::new() }
    }

    /// Filters the held-back bytes followed by `bytes`. A completed
    /// `ZMX_REFRESH` control becomes [`Input::Refresh`]; `ZMX_VISIBLE=`,
    /// `ZMX_CHAT=` and `ZMX_HIDDEN=` with positive `rows,cols` become
    /// [`Input::Visibility`] (`visible`, `chat`, `parked`); other controls are
    /// dropped. A trailing partial control stays held back (and is dropped
    /// once [`CONTROL_LIMIT`] bytes of it accumulate). With `detach_key`,
    /// Ctrl-\ becomes [`Input::Detach`] and ends the feed, holding back what
    /// follows it.
    #[verifier::rlimit(80)]
    pub fn feed(&mut self, bytes: &[u8], detach_key: bool) -> (events: Vec<Input>)
        ensures
            (views(events@), final(self)@) == filter_result(old(self)@, bytes@, detach_key),
    {
        let prefix: [u8; 11] = [0x1b, 0x5d, 0x31, 0x33, 0x33, 0x37, 0x3b, 0x5a, 0x4d, 0x58, 0x5f];
        assert(prefix@ =~= zmx_prefix());
        push_range(&mut self.pending, bytes, 0, bytes.len());
        assert(bytes@.subrange(0, bytes@.len() as int) =~= bytes@);
        let ghost total = self.pending@;
        let mut events: Vec<Input> = Vec::new();
        let mut output: Vec<u8> = Vec::new();
        let mut i: usize = 0;
        let mut clear = false;
        assert(total.skip(0) =~= total);
        assert(views(events@) =~= Seq::<InputView>::empty());
        while i < self.pending.len()
            invariant_except_break
                !clear,
                scan(total, detach_key, seq![], seq![]) == scan(
                    total.skip(i as int),
                    detach_key,
                    views(events@),
                    output@,
                ),
            invariant
                i <= self.pending@.len(),
                self.pending@ == total,
                prefix@ == zmx_prefix(),
            ensures
                i <= self.pending@.len(),
                self.pending@ == total,
                scan(total, detach_key, seq![], seq![]) == (views(events@), output@, if clear {
                    Seq::<u8>::empty()
                } else {
                    total.skip(i as int)
                }),
            decreases self.pending@.len() - i,
        {
            let len = self.pending.len();
            let ghost p = total.skip(i as int);
            assert(p =~= self.pending@.subrange(i as int, len as int));
            if is_prefix_of_zmx(self.pending.as_slice(), i, len, &prefix) {
                break;
            }
            if range_starts_with(self.pending.as_slice(), i, len, &prefix) {
                let e = find_byte(self.pending.as_slice(), i, len, 7);
                proof {
                    assert(p.take(11)[0] == 0x1b);
                    assert forall|j: int| 0 <= j < 11 implies p[j] != 7 by {
                        assert(p[j] == p.take(11)[j]);
                    }
                    crate::text::lemma_first_index_where_bound(p, byte_is(7));
                    if e - i < 11 {
                        assert(p[e - i] == 7);
                    }
                }
                if e < len {
                    flush_output(&mut events, &mut output);
                    push_control_events(self.pending.as_slice(), i + 11, e, &mut events);
                    assert(p.subrange(11, e - i) =~= self.pending@.subrange(i + 11, e as int));
                    assert(p.skip(e - i + 1) =~= total.skip(e + 1));
                    i = e + 1;
                    continue;
                }
                if len - i < CONTROL_LIMIT {
                    break;
                }
                clear = true;
                break;
            }
            let b = self.pending[i];
            assert(p[0] == b);
            assert(p.skip(1) =~= total.skip(i + 1));
            if b == 0x1c && detach_key {
                flush_output(&mut events, &mut output);
                push_event(&mut events, Input::Detach);
                i = i + 1;
                break;
            }
            output.push(b);
            i = i + 1;
        }
        if clear {
            self.pending.clear();
        } else {
            let rest = self.pending.split_off(i);
            self.pending = rest;
        }
        flush_output(&mut events, &mut output);
        events
    }

    /// Forwards held-back bytes, unless they are (the start of) a private
    /// control.
    pub fn flush(&mut self) -> (events: Vec<Input>)
        ensures
            starts_with(old(self)@, zmx_prefix()) || old(self)@.len() == 0 ==> views(events@)
                == Seq::<InputView>::empty() && final(self)@ == old(self)@,
            !(starts_with(old(self)@, zmx_prefix()) || old(self)@.len() == 0) ==> views(events@)
                == seq![InputView::Bytes(old(self)@)] && final(self)@ == Seq::<u8>::empty(),
    {
        let prefix: [u8; 11] = [0x1b, 0x5d, 0x31, 0x33, 0x33, 0x37, 0x3b, 0x5a, 0x4d, 0x58, 0x5f];
        assert(prefix@ =~= zmx_prefix());
        assert(self.pending@.subrange(0, self.pending@.len() as int) =~= self.pending@);
        if range_starts_with(self.pending.as_slice(), 0, self.pending.len(), &prefix)
            || self.pending.len() == 0 {
            let events = Vec::new();
            assert(views(events@) =~= Seq::<InputView>::empty());
            return events;
        }
        let mut taken = Vec::new();
        std::mem::swap(&mut taken, &mut self.pending);
        let mut events = Vec::new();
        push_event(&mut events, Input::Bytes(taken));
        assert(views(events@) =~= seq![InputView::Bytes(old(self)@)]);
        assert(self@ =~= Seq::<u8>::empty());
        events
    }
}

/// Bytes that are neither an escape nor, when it is enabled, the detach
/// key.
pub open spec fn plain(bytes: Seq<u8>, detach: bool) -> bool {
    forall|i: int| 0 <= i < bytes.len() ==> #[trigger] bytes[i] != 0x1b && !(detach && bytes[i] == 0x1c)
}

proof fn lemma_scan_plain(p: Seq<u8>, detach: bool, events: Seq<InputView>, out: Seq<u8>)
    requires
        plain(p, detach),
    ensures
        scan(p, detach, events, out) == (events, out + p, Seq::<u8>::empty()),
    decreases p.len(),
{
    if p.len() == 0 {
        assert(out + p =~= out);
    } else {
        assert(p[0] != 0x1b);
        assert(zmx_prefix()[0] == 0x1b);
        if starts_with(zmx_prefix(), p) {
            assert(zmx_prefix().take(p.len() as int)[0] == p[0]);
        }
        if starts_with(p, zmx_prefix()) {
            assert(p.take(zmx_prefix().len() as int)[0] == p[0]);
        }
        let rest = p.skip(1);
        assert forall|i: int| 0 <= i < rest.len() implies #[trigger] rest[i] != 0x1b && !(detach
            && rest[i] == 0x1c) by {
            assert(rest[i] == p[i + 1]);
        }
        lemma_scan_plain(rest, detach, events, out.push(p[0]));
        assert(out.push(p[0]) + rest =~= out + p);
    }
}

/// Input without escape bytes, and without the detach key when it is
/// enabled, is forwarded as it is, in one piece, with nothing held back.
pub proof fn law_plain_input_forwarded(bytes: Seq<u8>, detach: bool)
    requires
        plain(bytes, detach),
    ensures
        filter_result(Seq::empty(), bytes, detach) == (
            if bytes.len() > 0 {
                seq![InputView::Bytes(bytes)]
            } else {
                Seq::<InputView>::empty()
            },
            Seq::<u8>::empty(),
        ),
{
    assert(Seq::<u8>::empty() + bytes =~= bytes);
    lemma_scan_plain(bytes, detach, seq![], seq![]);
    assert(Seq::<u8>::empty() + bytes =~= bytes);
    if bytes.len() > 0 {
        assert(Seq::<InputView>::empty().push(InputView::Bytes(bytes)) =~= seq![InputView::Bytes(bytes)]);
    }
}

} // verus!
