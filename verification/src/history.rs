//! Scrollback capture with bounded output. Recent history rows are kept,
//! newest last, while they fit in 512 KiB, and the whole capture (history
//! followed by the current screen) is limited to 1 MiB by dropping the oldest
//! rows first.
use vstd::prelude::*;
use std::collections::VecDeque;
use crate::text::push_range;
use vt100::Screen;

verus! {

/// History rows kept at most, in bytes.
pub const HISTORY_LIMIT: usize = 512 * 1024;

/// Whole capture at most, in bytes, unless the current screen alone is larger.
pub const OUTPUT_LIMIT: usize = 1024 * 1024;

/// Total length of a sequence of rows.
pub open spec fn total(s: Seq<Seq<u8>>) -> nat
    decreases s.len(),
{
    if s.len() == 0 {
        0
    } else {
        total(s.drop_last()) + s.last().len()
    }
}

/// The rows concatenated.
pub open spec fn flatten(s: Seq<Seq<u8>>) -> Seq<u8>
    decreases s.len(),
{
    if s.len() == 0 {
        seq![]
    } else {
        flatten(s.drop_last()) + s.last()
    }
}

/// Drops the oldest rows while the rows and `reserve` more bytes exceed
/// `budget`.
pub open spec fn fit(s: Seq<Seq<u8>>, reserve: nat, budget: nat) -> Seq<Seq<u8>>
    decreases s.len(),
{
    if s.len() == 0 || total(s) + reserve <= budget {
        s
    } else {
        fit(s.drop_first(), reserve, budget)
    }
}

/// `\r\n`
pub open spec fn crlf() -> Seq<u8> {
    seq![0x0du8, 0x0au8]
}

pub proof fn lemma_total_front(s: Seq<Seq<u8>>)
    requires
        s.len() > 0,
    ensures
        total(s) == s[0].len() + total(s.drop_first()),
    decreases s.len(),
{
    if s.len() > 1 {
        let dl = s.drop_last();
        lemma_total_front(dl);
        assert(dl.drop_first() =~= s.drop_first().drop_last());
        assert(dl[0] == s[0]);
        assert(s.drop_first().last() == s.last());
        assert(total(s.drop_first()) == total(s.drop_first().drop_last()) + s.drop_first().last().len());
    } else {
        assert(s.drop_first().len() == 0);
        assert(s.drop_last().len() == 0);
        assert(total(s.drop_first()) == 0);
        assert(total(s.drop_last()) == 0);
    }
}

pub proof fn lemma_total_push(s: Seq<Seq<u8>>, x: Seq<u8>)
    ensures
        total(s.push(x)) == total(s) + x.len(),
{
    assert(s.push(x).drop_last() =~= s);
}

/// `fit` keeps a suffix; it fits unless it is empty; one more row would not.
pub proof fn lemma_fit(s: Seq<Seq<u8>>, reserve: nat, budget: nat)
    ensures
        fit(s, reserve, budget).len() <= s.len(),
        fit(s, reserve, budget) == s.skip(s.len() - fit(s, reserve, budget).len()),
        fit(s, reserve, budget).len() == 0 || total(fit(s, reserve, budget)) + reserve <= budget,
        fit(s, reserve, budget).len() < s.len() ==> total(
            s.skip(s.len() - fit(s, reserve, budget).len() - 1),
        ) + reserve > budget,
    decreases s.len(),
{
    if s.len() == 0 || total(s) + reserve <= budget {
        assert(s.skip(0) =~= s);
    } else {
        let t = s.drop_first();
        lemma_fit(t, reserve, budget);
        let f = fit(t, reserve, budget);
        assert(t.skip(t.len() - f.len()) =~= s.skip(s.len() - f.len()));
        if f.len() == t.len() {
            assert(s.skip(s.len() - f.len() - 1) =~= s);
        } else {
            assert(t.skip(t.len() - f.len() - 1) =~= s.skip(s.len() - f.len() - 1));
        }
    }
}

/// Adding a row to a window that was trimmed to a budget gives the same
/// window as trimming all rows at once: the window is always the longest
/// suffix of the rows that fits.
pub proof fn law_window_incremental(s: Seq<Seq<u8>>, x: Seq<u8>, budget: nat)
    ensures
        fit(fit(s, 0, budget).push(x), 0, budget) == fit(s.push(x), 0, budget),
    decreases s.len(),
{
    if s.len() == 0 || total(s) <= budget {
    } else {
        let t = s.drop_first();
        lemma_total_push(s, x);
        lemma_total_front(s);
        assert(s.push(x).drop_first() =~= t.push(x));
        lemma_total_push(t, x);
        law_window_incremental(t, x, budget);
    }
}

/// The rows kept so far, newest last, and their total length.
pub struct HistoryWindow {
    lines: VecDeque<Vec<u8>>,
    bytes: u128,
}

impl View for HistoryWindow {
    type V = Seq<Seq<u8>>;

    closed spec fn view(&self) -> Seq<Seq<u8>> {
        self.lines@.map_values(|l: Vec<u8>| l@)
    }
}

impl HistoryWindow {
    pub closed spec fn well_formed(&self) -> bool {
        &&& self.bytes == total(self@)
        &&& total(self@) <= HISTORY_LIMIT
    }

    pub fn new() -> (r: Self)
        ensures
            r@ == Seq::<Seq<u8>>::empty(),
            r.well_formed(),
    {
        let r = HistoryWindow { lines: VecDeque::new(), bytes: 0 };
        assert(r@ =~= Seq::<Seq<u8>>::empty());
        r
    }

    /// Drops the oldest rows while the rows and `reserve` bytes exceed `budget`.
    fn drop_oldest(&mut self, reserve: u128, budget: u128)
        requires
            old(self).bytes == total(old(self)@),
        ensures
            final(self).bytes == total(final(self)@),
            final(self)@ == fit(old(self)@, reserve as nat, budget as nat),
    {
        while (self.bytes > budget || reserve > budget - self.bytes) && self.lines.len() > 0
            invariant
                self.bytes == total(self@),
                fit(old(self)@, reserve as nat, budget as nat) == fit(self@, reserve as nat, budget as nat),
            decreases self@.len(),
        {
            let ghost before = self@;
            proof {
                lemma_total_front(before);
            }
            match self.lines.pop_front() {
                Some(line) => {
                    assert(self@ =~= before.drop_first());
                    self.bytes = self.bytes - line.len() as u128;
                },
                None => {},
            }
        }
    }

    /// Appends a row (with `\r\n` added) and drops the oldest rows while the
    /// rows exceed [`HISTORY_LIMIT`].
    pub fn push_line(&mut self, line: Vec<u8>)
        requires
            old(self).well_formed(),
        ensures
            final(self).well_formed(),
            final(self)@ == fit(old(self)@.push(line@ + crlf()), 0, HISTORY_LIMIT as nat),
    {
        let mut line = line;
        let ghost given = line@;
        line.push(0x0d);
        line.push(0x0a);
        assert(line@ =~= given + crlf());
        let len = line.len();
        let ghost before = self@;
        self.lines.push_back(line);
        assert(self@ =~= before.push(given + crlf()));
        proof {
            lemma_total_push(before, given + crlf());
        }
        self.bytes = self.bytes + len as u128;
        self.drop_oldest(0, HISTORY_LIMIT as u128);
        proof {
            lemma_fit(before.push(given + crlf()), 0, HISTORY_LIMIT as nat);
        }
    }

    /// The kept rows that fit, with `current` after them, in at most
    /// [`OUTPUT_LIMIT`] bytes (oldest rows dropped first).
    pub fn finish(self, current: Vec<u8>) -> (out: Vec<u8>)
        requires
            self.well_formed(),
        ensures
            out@ == flatten(fit(self@, current@.len(), OUTPUT_LIMIT as nat)) + current@,
    {
        let mut window = self;
        window.drop_oldest(current.len() as u128, OUTPUT_LIMIT as u128);
        let mut out: Vec<u8> = Vec::new();
        let n = window.lines.len();
        let mut i: usize = 0;
        while i < n
            invariant
                i <= n == window@.len(),
                out@ == flatten(window@.take(i as int)),
            decreases n - i,
        {
            let line = &window.lines[i];
            push_range(&mut out, line.as_slice(), 0, line.len());
            assert(window@.take(i + 1).drop_last() =~= window@.take(i as int));
            assert(line@.subrange(0, line@.len() as int) =~= window@[i as int]);
            i = i + 1;
        }
        assert(window@.take(n as int) =~= window@);
        push_range(&mut out, current.as_slice(), 0, current.len());
        assert(current@.subrange(0, current@.len() as int) =~= current@);
        out
    }
}

/// A terminal screen of the `vt100` crate. Opaque here; what capture reads
/// of it is named below, and each wrapper states its result over those
/// names.
#[verifier::external_type_specification]
#[verifier::external_body]
pub struct ExScreen(vt100::Screen);

/// The rows held by the screen's grid in view, oldest first: its scrollback
/// rows, then the screen's rows, each as the plain text (UTF-8) that
/// `Screen::rows(0, cols)` renders for it at the screen's full width.
pub uninterp spec fn screen_lines(s: Screen) -> Seq<Seq<u8>>;

/// How many of [`screen_lines`] are scrollback rows.
pub uninterp spec fn screen_scrollback_len(s: Screen) -> nat;

/// `Screen::scrollback`: how far the view is scrolled into the scrollback.
pub uninterp spec fn screen_offset(s: Screen) -> nat;

/// `Screen::size`: (rows, cols).
pub uninterp spec fn screen_size_of(s: Screen) -> (u16, u16);

/// `Screen::rows_formatted(0, cols)`: the visible rows with their
/// formatting escapes, once the view is scrolled to `k`.
pub uninterp spec fn formatted_rows_at(s: Screen, k: nat) -> Seq<Seq<u8>>;

/// `Screen::contents` (as UTF-8 bytes), once the view is scrolled to `k`.
pub uninterp spec fn contents_at(s: Screen, k: nat) -> Seq<u8>;

/// `Screen::state_formatted`, once the view is scrolled to `k`.
pub uninterp spec fn state_at(s: Screen, k: nat) -> Seq<u8>;

/// The rows of a vector of rows.
pub open spec fn row_views(v: Seq<Vec<u8>>) -> Seq<Seq<u8>> {
    v.map_values(|r: Vec<u8>| r@)
}

/// `Screen::clone`: the same screen.
#[verifier::external_body]
fn screen_clone(screen: &Screen) -> (r: Screen)
    ensures
        r == *screen,
{
    screen.clone()
}

/// `Screen::size`: (rows, cols). The grid in view holds the scrollback rows
/// and one row per screen row, and the view always shows one row per screen
/// row.
#[verifier::external_body]
fn screen_size(screen: &Screen) -> (r: (u16, u16))
    ensures
        r == screen_size_of(*screen),
        screen_lines(*screen).len() == screen_scrollback_len(*screen) + r.0,
        forall|k: nat| (#[trigger] formatted_rows_at(*screen, k)).len() == r.0,
{
    screen.size()
}

/// `Screen::set_scrollback`: scrolls the view `rows` rows into the
/// scrollback, clamped to its length. Only the view's offset changes.
#[verifier::external_body]
fn screen_set_scrollback(screen: &mut Screen, rows: usize)
    ensures
        screen_offset(*final(screen)) == if rows <= screen_scrollback_len(*old(screen)) {
            rows as nat
        } else {
            screen_scrollback_len(*old(screen))
        },
        screen_scrollback_len(*final(screen)) == screen_scrollback_len(*old(screen)),
        screen_lines(*final(screen)) == screen_lines(*old(screen)),
        screen_size_of(*final(screen)) == screen_size_of(*old(screen)),
        forall|k: nat| #[trigger] formatted_rows_at(*final(screen), k) == formatted_rows_at(*old(screen), k),
        forall|k: nat| #[trigger] contents_at(*final(screen), k) == contents_at(*old(screen), k),
        forall|k: nat| #[trigger] state_at(*final(screen), k) == state_at(*old(screen), k),
{
    screen.set_scrollback(rows)
}

/// `Screen::scrollback`: the view's offset.
#[verifier::external_body]
fn screen_scrollback(screen: &Screen) -> (r: usize)
    ensures
        r == screen_offset(*screen),
{
    screen.scrollback()
}

/// `Screen::rows_formatted(0, width)`: all visible rows with their
/// formatting escapes.
#[verifier::external_body]
fn screen_rows_formatted(screen: &Screen, width: u16) -> (r: Vec<Vec<u8>>)
    ensures
        width == screen_size_of(*screen).1 && screen_offset(*screen) <= screen_scrollback_len(*screen)
            ==> row_views(r@) == formatted_rows_at(*screen, screen_offset(*screen)),
{
    screen.rows_formatted(0, width).collect()
}

/// `Screen::rows(0, width)`: all visible rows as plain text (as UTF-8
/// bytes): the rows of the grid from the view's offset back from the end of
/// the scrollback, one per screen row.
#[verifier::external_body]
fn screen_rows(screen: &Screen, width: u16) -> (r: Vec<Vec<u8>>)
    ensures
        width == screen_size_of(*screen).1 && screen_offset(*screen) <= screen_scrollback_len(*screen)
            ==> row_views(r@) == screen_lines(*screen).subrange(
            screen_scrollback_len(*screen) - screen_offset(*screen),
            screen_scrollback_len(*screen) - screen_offset(*screen) + screen_size_of(*screen).0,
        ),
{
    screen.rows(0, width).map(String::into_bytes).collect()
}

/// `Screen::state_formatted`: escapes that redraw the visible screen and
/// restore its cursor and modes.
#[verifier::external_body]
fn screen_state_formatted(screen: &Screen) -> (r: Vec<u8>)
    ensures
        screen_offset(*screen) == 0 ==> r@ == state_at(*screen, 0),
{
    screen.state_formatted()
}

/// `Screen::contents`: the visible text (as UTF-8 bytes).
#[verifier::external_body]
fn screen_contents(screen: &Screen) -> (r: Vec<u8>)
    ensures
        screen_offset(*screen) == 0 ==> r@ == contents_at(*screen, 0),
{
    screen.contents().into_bytes()
}

/// Each row followed by `\r\n`.
pub open spec fn with_crlf(rows: Seq<Seq<u8>>) -> Seq<Seq<u8>> {
    rows.map_values(|r: Seq<u8>| r + crlf())
}

/// The rows a capture reads, oldest first: with the view scrolled `r` rows
/// into the scrollback, the first min(`r`, `height`) rows that `view(r)`
/// shows, then on from `r` less that many.
pub open spec fn rows_read(view: spec_fn(nat) -> Seq<Seq<u8>>, r: nat, height: nat) -> Seq<Seq<u8>>
    decreases r,
{
    if r == 0 || height == 0 {
        seq![]
    } else {
        let c = if r <= height { r } else { height };
        view(r).take(c as int) + rows_read(view, (r - c) as nat, height)
    }
}

/// The scrollback rows a capture of `rows` rows covers: at most `rows`, at
/// most all of the scrollback.
pub open spec fn covered(s: Screen, rows: nat) -> nat {
    if rows <= screen_scrollback_len(s) {
        rows
    } else {
        screen_scrollback_len(s)
    }
}

/// The history rows of a capture, oldest first: formatted as each view
/// shows them when `vt`; otherwise the newest [`covered`] scrollback rows.
pub open spec fn history_rows(s: Screen, rows: nat, vt: bool) -> Seq<Seq<u8>> {
    let sb = screen_scrollback_len(s);
    let h = screen_size_of(s).0 as nat;
    if vt {
        rows_read(|k: nat| formatted_rows_at(s, k), covered(s, rows), h)
    } else {
        screen_lines(s).subrange(sb - covered(s, rows), sb as int)
    }
}

/// The current screen of a capture: formatted with cursor and modes when
/// `vt`, plain text otherwise, with the view at the bottom.
pub open spec fn current_screen(s: Screen, vt: bool) -> Seq<u8> {
    if vt {
        state_at(s, 0)
    } else {
        contents_at(s, 0)
    }
}

/// What [`capture`] returns: the history rows, each ending in `\r\n`,
/// trimmed (oldest first) to [`HISTORY_LIMIT`] and then to leave room for
/// the current screen within [`OUTPUT_LIMIT`], followed by the current
/// screen.
pub open spec fn captured(s: Screen, rows: nat, vt: bool) -> Seq<u8> {
    let cur = current_screen(s, vt);
    flatten(fit(fit(with_crlf(history_rows(s, rows, vt)), 0, HISTORY_LIMIT as nat), cur.len(), OUTPUT_LIMIT as nat))
        + cur
}

/// Read with plain views, the batches cover the newest `r` scrollback rows
/// in order.
proof fn lemma_plain_rows_read(lines: Seq<Seq<u8>>, sb: nat, h: nat, r: nat)
    requires
        h > 0,
        r <= sb,
        lines.len() == sb + h,
    ensures
        rows_read(|k: nat| lines.subrange(sb - k, sb - k + h), r, h) == lines.subrange(sb - r, sb as int),
    decreases r,
{
    let view = |k: nat| lines.subrange(sb - k, sb - k + h);
    if r > 0 {
        let c = if r <= h { r } else { h };
        lemma_plain_rows_read(lines, sb, h, (r - c) as nat);
        assert(view(r).take(c as int) =~= lines.subrange(sb - r, sb - r + c));
        assert(lines.subrange(sb - r, sb - r + c) + lines.subrange(sb - (r - c), sb as int)
            =~= lines.subrange(sb - r, sb as int));
    } else {
        assert(lines.subrange(sb as int, sb as int) =~= Seq::<Seq<u8>>::empty());
    }
}

/// Captures up to `rows` scrollback rows and the current screen, formatted
/// with escapes when `vt`, as plain text otherwise (see [`captured`]). The
/// history rows (each ending in `\r\n`, oldest first) keep at most
/// [`HISTORY_LIMIT`] bytes and the whole at most [`OUTPUT_LIMIT`] bytes
/// unless the current screen alone is larger; the oldest rows go first.
/// The screen has at least one row: reading a screen without rows would
/// never end.
pub fn capture(screen: &Screen, rows: usize, vt: bool) -> (out: Vec<u8>)
    requires
        screen_size_of(*screen).0 > 0,
    ensures
        out@ == captured(*screen, rows as nat, vt),
{
    let ghost s0 = *screen;
    let mut screen = screen_clone(screen);
    let (height, width) = screen_size(&screen);
    screen_set_scrollback(&mut screen, rows);
    let available = screen_scrollback(&screen);
    let ghost sb = screen_scrollback_len(s0);
    let ghost h = height as nat;
    let ghost view = if vt {
        |k: nat| formatted_rows_at(s0, k)
    } else {
        |k: nat| screen_lines(s0).subrange(sb - k, sb - k + h)
    };
    let ghost all = rows_read(view, available as nat, h);
    let ghost mut done: Seq<Seq<u8>> = seq![];
    let mut window = HistoryWindow::new();
    let mut remaining = available;
    assert(with_crlf(done) =~= Seq::<Seq<u8>>::empty());
    while remaining > 0
        invariant
            window.well_formed(),
            window@ == fit(with_crlf(done), 0, HISTORY_LIMIT as nat),
            done + rows_read(view, remaining as nat, h) == all,
            remaining <= available,
            h > 0,
            available == covered(s0, rows as nat),
            sb == screen_scrollback_len(s0),
            h == screen_size_of(s0).0,
            height == screen_size_of(s0).0,
            width == screen_size_of(s0).1,
            screen_lines(s0).len() == sb + h,
            forall|k: nat| (#[trigger] formatted_rows_at(s0, k)).len() == h,
            view == (if vt {
                |k: nat| formatted_rows_at(s0, k)
            } else {
                |k: nat| screen_lines(s0).subrange(sb - k, sb - k + h)
            }),
            screen_scrollback_len(screen) == sb,
            screen_lines(screen) == screen_lines(s0),
            screen_size_of(screen) == screen_size_of(s0),
            forall|k: nat| #[trigger] formatted_rows_at(screen, k) == formatted_rows_at(s0, k),
            forall|k: nat| #[trigger] contents_at(screen, k) == contents_at(s0, k),
            forall|k: nat| #[trigger] state_at(screen, k) == state_at(s0, k),
        decreases remaining,
    {
        screen_set_scrollback(&mut screen, remaining);
        let count = if remaining < height as usize {
            remaining
        } else {
            height as usize
        };
        let mut batch = if vt {
            screen_rows_formatted(&screen, width)
        } else {
            screen_rows(&screen, width)
        };
        let ghost shown = view(remaining as nat);
        assert(row_views(batch@) == shown);
        assert(shown.len() == h);
        let ghost start = done;
        assert(start + shown.take(0) =~= start);
        assert(shown.skip(0) =~= shown);
        let mut i: usize = 0;
        while i < count
            invariant
                window.well_formed(),
                window@ == fit(with_crlf(done), 0, HISTORY_LIMIT as nat),
                i <= count <= h,
                shown.len() == h,
                row_views(batch@) == shown.skip(i as int),
                done == start + shown.take(i as int),
            decreases count - i,
        {
            let ghost before = batch@;
            assert(row_views(before).len() == before.len());
            assert(batch@.len() == h - i);
            let line = batch.remove(0);
            assert(batch@ =~= before.subrange(1, before.len() as int));
            assert(row_views(batch@) =~= shown.skip(i + 1)) by {
                assert forall|j: int| 0 <= j < batch@.len() implies #[trigger] row_views(batch@)[j]
                    == shown.skip(i + 1)[j] by {
                    assert(row_views(before)[j + 1] == shown.skip(i as int)[j + 1]);
                }
            }
            assert(line@ == shown[i as int]) by {
                assert(row_views(before)[0] == before[0]@);
            }
            let ghost pushed = with_crlf(done);
            window.push_line(line);
            proof {
                law_window_incremental(pushed, shown[i as int] + crlf(), HISTORY_LIMIT as nat);
                assert(pushed.push(shown[i as int] + crlf()) =~= with_crlf(done.push(shown[i as int])));
                assert(start + shown.take(i + 1) =~= (start + shown.take(i as int)).push(shown[i as int]));
                done = done.push(shown[i as int]);
            }
            i = i + 1;
        }
        proof {
            assert(rows_read(view, remaining as nat, h) == shown.take(count as int) + rows_read(
                view,
                (remaining - count) as nat,
                h,
            ));
            assert(start + rows_read(view, remaining as nat, h) =~= done + rows_read(
                view,
                (remaining - count) as nat,
                h,
            ));
        }
        remaining = remaining - count;
    }
    proof {
        assert(done =~= all) by {
            assert(done + rows_read(view, remaining as nat, h) == all);
            assert(rows_read(view, remaining as nat, h) =~= Seq::<Seq<u8>>::empty());
        }
        if !vt {
            lemma_plain_rows_read(screen_lines(s0), sb, h, available as nat);
        }
    }
    screen_set_scrollback(&mut screen, 0);
    let current = if vt {
        screen_state_formatted(&screen)
    } else {
        screen_contents(&screen)
    };
    window.finish(current)
}

/// How far back the view is scrolled from which a capture of `r` rows, read
/// through views of `h` rows, takes its `i`-th row.
spec fn view_of_row(r: nat, h: nat, i: int) -> nat
    decreases r,
{
    let c = if r <= h { r } else { h };
    if r == 0 || h == 0 || i < c {
        r
    } else {
        view_of_row((r - c) as nat, h, i - c)
    }
}

/// Reading `r` rows through views of `h` rows each gives `r` rows, the
/// `i`-th of them being, in a view `k` no further back than `r`, the row
/// `j` with `j - k == i - r`: the grid row `i` places after the `r`-th row
/// from the end of the scrollback.
proof fn lemma_rows_read_shape(view: spec_fn(nat) -> Seq<Seq<u8>>, r: nat, h: nat, i: int)
    requires
        h > 0,
        forall|k: nat| (#[trigger] view(k)).len() == h,
    ensures
        rows_read(view, r, h).len() == r,
        0 <= i < r ==> {
            let k = view_of_row(r, h, i);
            &&& k <= r
            &&& 0 <= i - r + k < h
            &&& rows_read(view, r, h)[i] == view(k)[i - r + k]
        },
    decreases r,
{
    if r > 0 {
        let c = if r <= h { r } else { h };
        let rest = (r - c) as nat;
        lemma_rows_read_shape(view, rest, h, i - c);
        let out = rows_read(view, r, h);
        assert(out == view(r).take(c as int) + rows_read(view, rest, h));
        if 0 <= i < c {
            assert(out[i] == view(r)[i]);
        } else if c <= i < r {
            assert(out[i] == rows_read(view, rest, h)[i - c]);
        }
    }
}

/// `row` is the formatted rendering of grid row `g` (counted from the oldest
/// scrollback row) in some view of the screen scrolled back no further than
/// the scrollback.
pub open spec fn renders_grid_row(s: Screen, row: Seq<u8>, g: int) -> bool {
    exists|k: nat, j: int|
        k <= screen_scrollback_len(s) && 0 <= j < screen_size_of(s).0 && screen_scrollback_len(s) - k + j == g
            && row =~= #[trigger] formatted_rows_at(s, k)[j]
}

/// A VT capture holds the same history rows as a plain one, formatted: as
/// many (the newest min(`rows`, scrollback length) scrollback rows, before
/// the byte limits), in the same order, each VT row being the formatted
/// rendering of the grid row the plain capture holds at that place.
pub proof fn law_vt_history_matches_plain(s: Screen, rows: nat)
    requires
        screen_size_of(s).0 > 0,
        screen_lines(s).len() == screen_scrollback_len(s) + screen_size_of(s).0,
        forall|k: nat| (#[trigger] formatted_rows_at(s, k)).len() == screen_size_of(s).0,
    ensures
        covered(s, rows) == if rows <= screen_scrollback_len(s) {
            rows
        } else {
            screen_scrollback_len(s)
        },
        history_rows(s, rows, true).len() == covered(s, rows),
        history_rows(s, rows, false).len() == covered(s, rows),
        forall|i: int|
            0 <= i < covered(s, rows) ==> #[trigger] history_rows(s, rows, false)[i] == screen_lines(s)[screen_scrollback_len(
                s,
            ) - covered(s, rows) + i],
        forall|i: int|
            0 <= i < covered(s, rows) ==> renders_grid_row(
                s,
                #[trigger] history_rows(s, rows, true)[i],
                screen_scrollback_len(s) - covered(s, rows) + i,
            ),
{
    let sb = screen_scrollback_len(s);
    let n = covered(s, rows);
    let h = screen_size_of(s).0 as nat;
    let view = |k: nat| formatted_rows_at(s, k);
    assert forall|k: nat| (#[trigger] view(k)).len() == h by {
        assert(formatted_rows_at(s, k).len() == h);
    }
    lemma_rows_read_shape(view, n, h, 0);
    assert(history_rows(s, rows, true) == rows_read(view, n, h));
    assert forall|i: int| 0 <= i < covered(s, rows) implies renders_grid_row(
        s,
        #[trigger] history_rows(s, rows, true)[i],
        screen_scrollback_len(s) - covered(s, rows) + i,
    ) by {
        lemma_rows_read_shape(view, n, h, i);
        let k = view_of_row(n, h, i);
        let j = i - n + k;
        assert(history_rows(s, rows, true)[i] == formatted_rows_at(s, k)[j]);
        assert(k <= sb && 0 <= j < h && sb - k + j == sb - n + i);
    }
}

/// A suffix of the rows is no longer than all of them.
proof fn lemma_suffix_total(s: Seq<Seq<u8>>, k: int)
    requires
        0 <= k <= s.len(),
    ensures
        total(s.skip(k)) <= total(s),
    decreases k,
{
    if k > 0 {
        lemma_total_front(s);
        lemma_suffix_total(s.drop_first(), k - 1);
        assert(s.drop_first().skip(k - 1) =~= s.skip(k));
    } else {
        assert(s.skip(0) =~= s);
    }
}

/// A capture's history part holds at most [`HISTORY_LIMIT`] bytes, and with
/// the current screen at most [`OUTPUT_LIMIT`] bytes unless it is empty.
pub proof fn law_capture_bounded(s: Screen, rows: nat, vt: bool)
    ensures
        ({
            let cur = current_screen(s, vt);
            let kept = fit(
                fit(with_crlf(history_rows(s, rows, vt)), 0, HISTORY_LIMIT as nat),
                cur.len(),
                OUTPUT_LIMIT as nat,
            );
            &&& captured(s, rows, vt) == flatten(kept) + cur
            &&& total(kept) <= HISTORY_LIMIT
            &&& (kept.len() == 0 || total(kept) + cur.len() <= OUTPUT_LIMIT)
        }),
{
    let cur = current_screen(s, vt);
    let first = fit(with_crlf(history_rows(s, rows, vt)), 0, HISTORY_LIMIT as nat);
    lemma_fit(with_crlf(history_rows(s, rows, vt)), 0, HISTORY_LIMIT as nat);
    lemma_fit(first, cur.len(), OUTPUT_LIMIT as nat);
    let kept = fit(first, cur.len(), OUTPUT_LIMIT as nat);
    lemma_suffix_total(first, first.len() - kept.len());
}

} // verus!
