//! Display leadership among the clients attached to one session.
//!
//! Visible clients own the terminal grid and the most recently active
//! visible client leads. Without a visible client, a chat client may widen
//! the grid to the resting width of 200 columns, and an unattended session
//! keeps its grid.
use vstd::prelude::*;
use std::collections::BTreeMap;
use crate::text::str_equal;
use vstd::std_specs::iter::IteratorSpec;

verus! {

broadcast use {vstd::std_specs::btree::group_btree_axioms, vstd::laws_cmp::group_laws_cmp};

pub const RESTING_ROWS: u16 = 50;

pub const RESTING_COLS: u16 = 200;

/// How a client shows the session.
#[derive(Clone, Copy, Debug, PartialEq, Eq, Structural)]
pub enum Visibility {
    Visible,
    Chat,
    Parked,
}

pub open spec fn visibility_of(value: Seq<char>) -> Option<Visibility> {
    if value == "visible"@ {
        Some(Visibility::Visible)
    } else if value == "chat"@ {
        Some(Visibility::Chat)
    } else if value == "parked"@ {
        Some(Visibility::Parked)
    } else {
        None
    }
}

pub open spec fn visibility_name(v: Visibility) -> Seq<char> {
    match v {
        Visibility::Visible => "visible"@,
        Visibility::Chat => "chat"@,
        Visibility::Parked => "parked"@,
    }
}

impl Visibility {
    /// Reads a wire name: `visible`, `chat` or `parked`.
    pub fn parse(value: &str) -> (r: Option<Self>)
        ensures
            r == visibility_of(value@),
    {
        if str_equal(value, "visible") {
            Some(Visibility::Visible)
        } else if str_equal(value, "chat") {
            Some(Visibility::Chat)
        } else if str_equal(value, "parked") {
            Some(Visibility::Parked)
        } else {
            None
        }
    }

    /// The wire name.
    pub fn name(self) -> (r: &'static str)
        ensures
            r@ == visibility_name(self),
    {
        match self {
            Visibility::Visible => "visible",
            Visibility::Chat => "chat",
            Visibility::Parked => "parked",
        }
    }
}

/// One attached client.
pub struct Client {
    pub visibility: Visibility,
    pub rows: u16,
    pub cols: u16,
    /// Logical time of the client's latest activity while visible.
    pub activity: u64,
    /// Set once the client reported its display state; from then on plain
    /// resizes no longer change its size.
    pub explicit_visibility: bool,
    pub prompt_editor: Option<String>,
}

/// Abstract state: the clients by id and the logical clock.
pub struct DisplayView {
    pub clients: Map<u64, Client>,
    pub clock: u64,
}

/// Activities are distinct and no later than the clock.
pub open spec fn well_formed(v: DisplayView) -> bool {
    &&& v.clients.dom().finite()
    &&& forall|k: u64| #[trigger] v.clients.contains_key(k) ==> v.clients[k].activity <= v.clock
    &&& forall|a: u64, b: u64|
        #[trigger] v.clients.contains_key(a) && #[trigger] v.clients.contains_key(b) && a != b
            ==> v.clients[a].activity != v.clients[b].activity
}

/// `id` is the visible client with the latest activity.
pub open spec fn is_leader(m: Map<u64, Client>, id: u64) -> bool {
    &&& m.contains_key(id)
    &&& m[id].visibility == Visibility::Visible
    &&& forall|k: u64|
        #[trigger] m.contains_key(k) && m[k].visibility == Visibility::Visible ==> m[k].activity
            <= m[id].activity
}

pub open spec fn has_visible(m: Map<u64, Client>) -> bool {
    exists|k: u64| #[trigger] m.contains_key(k) && m[k].visibility == Visibility::Visible
}

pub open spec fn has_chat(m: Map<u64, Client>) -> bool {
    exists|k: u64| #[trigger] m.contains_key(k) && m[k].visibility == Visibility::Chat
}

/// `id` is the client with the latest activity of all.
pub open spec fn is_latest(m: Map<u64, Client>, id: u64) -> bool {
    &&& m.contains_key(id)
    &&& forall|k: u64| #[trigger] m.contains_key(k) ==> m[k].activity <= m[id].activity
}

/// The leader, when there is a visible client.
pub open spec fn leader_of(m: Map<u64, Client>) -> Option<u64> {
    if has_visible(m) {
        Some(choose|id: u64| is_leader(m, id))
    } else {
        None
    }
}

/// The grid the session should have, given its current grid.
pub open spec fn grid_of(m: Map<u64, Client>, current: (u16, u16)) -> (u16, u16) {
    match leader_of(m) {
        Some(id) => (m[id].rows, m[id].cols),
        None => if has_chat(m) {
            let latest = choose|id: u64| is_latest(m, id);
            (m[latest].rows, if current.1 >= RESTING_COLS { current.1 } else { RESTING_COLS })
        } else {
            current
        },
    }
}

/// The prompt editor of the leader, or `editor`.
pub open spec fn prompt_editor_of(m: Map<u64, Client>) -> Seq<char> {
    match leader_of(m) {
        Some(id) => match m[id].prompt_editor {
            Some(e) => e@,
            None => "editor"@,
        },
        None => "editor"@,
    }
}

/// State after attaching `id`.
pub open spec fn attached(v: DisplayView, id: u64, rows: u16, cols: u16, prompt_editor: Option<String>) -> DisplayView {
    let clock = (v.clock + 1) as u64;
    DisplayView {
        clients: v.clients.insert(
            id,
            Client {
                visibility: Visibility::Visible,
                rows,
                cols,
                activity: clock,
                explicit_visibility: false,
                prompt_editor,
            },
        ),
        clock,
    }
}

/// State after a plain resize of `id`.
pub open spec fn resized(v: DisplayView, id: u64, rows: u16, cols: u16) -> DisplayView {
    if v.clients.contains_key(id) && !v.clients[id].explicit_visibility {
        DisplayView { clients: v.clients.insert(id, Client { rows, cols, ..v.clients[id] }), ..v }
    } else {
        v
    }
}

/// State after `id` reports its display state and size.
pub open spec fn shown(v: DisplayView, id: u64, visibility: Visibility, rows: u16, cols: u16) -> DisplayView {
    if v.clients.contains_key(id) {
        let clock = if visibility == Visibility::Visible {
            (v.clock + 1) as u64
        } else {
            v.clock
        };
        let c = v.clients[id];
        DisplayView {
            clients: v.clients.insert(
                id,
                Client {
                    visibility,
                    rows,
                    cols,
                    activity: if visibility == Visibility::Visible {
                        clock
                    } else {
                        c.activity
                    },
                    explicit_visibility: true,
                    prompt_editor: c.prompt_editor,
                },
            ),
            clock,
        }
    } else {
        v
    }
}

/// State after input from `id`.
pub open spec fn touched(v: DisplayView, id: u64) -> DisplayView {
    if v.clients.contains_key(id) && v.clients[id].visibility == Visibility::Visible {
        let clock = (v.clock + 1) as u64;
        DisplayView {
            clients: v.clients.insert(id, Client { activity: clock, ..v.clients[id] }),
            clock,
        }
    } else {
        v
    }
}

/// One client's entry in a grid snapshot.
pub struct ClientEntry {
    pub id: u64,
    pub visibility: Visibility,
    pub activity: u64,
    pub rows: u16,
    pub cols: u16,
}

/// Display metadata of a session, as the `grid` operation reports it.
pub struct GridSnapshot {
    pub rows: u16,
    pub cols: u16,
    pub leader: Option<u64>,
    pub resting_rows: u16,
    pub resting_cols: u16,
    pub chat_claim: bool,
    /// All clients, by increasing id.
    pub clients: Vec<ClientEntry>,
}

/// The clients attached to a session and the logical clock that orders
/// their activity.
pub struct DisplayPolicy {
    clients: BTreeMap<u64, Client>,
    clock: u64,
}

impl View for DisplayPolicy {
    type V = DisplayView;

    closed spec fn view(&self) -> DisplayView {
        DisplayView { clients: self.clients@, clock: self.clock }
    }
}

impl Default for DisplayPolicy {
    fn default() -> (r: Self)
        ensures
            r@.clients == Map::<u64, Client>::empty(),
            r@.clock == 0,
            well_formed(r@),
    {
        DisplayPolicy::new()
    }
}

/// The id of the client with the latest activity, among the visible ones
/// when `visible_only`.
fn latest_client(m: &BTreeMap<u64, Client>, visible_only: bool) -> (r: Option<u64>)
    ensures
        match r {
            Some(id) => m@.contains_key(id) && (visible_only ==> m@[id].visibility
                == Visibility::Visible) && forall|k: u64| #[trigger]
                m@.contains_key(k) && (visible_only ==> m@[k].visibility == Visibility::Visible)
                ==> m@[k].activity <= m@[id].activity,
            None => forall|k: u64| #[trigger]
                m@.contains_key(k) ==> (visible_only && m@[k].visibility != Visibility::Visible),
        },
{
    let mut best: Option<(u64, u64)> = None;
    for item in it: m.iter()
        invariant
            it.seq() == vstd::std_specs::btree::spec_btree_map_iter(m).remaining(),
            forall|i: int|
                0 <= i < it.index() && (visible_only ==> (#[trigger] it.seq()[i]).1.visibility
                    == Visibility::Visible) ==> (best matches Some((_, a)) && it.seq()[i].1.activity
                    <= a),
            best matches Some((bid, ba)) ==> m@.contains_key(bid) && (visible_only ==> m@[bid].visibility
                == Visibility::Visible) && m@[bid].activity == ba,
    {
        let (id, client) = item;
        if !visible_only || client.visibility == Visibility::Visible {
            match best {
                Some((_, a)) => {
                    if client.activity > a {
                        best = Some((*id, client.activity));
                    }
                },
                None => {
                    best = Some((*id, client.activity));
                },
            }
        }
    }
    proof {
        let v = vstd::std_specs::btree::spec_btree_map_iter(m).remaining();
        assert forall|k: u64| #[trigger] m@.contains_key(k) && (visible_only ==> m@[k].visibility
            == Visibility::Visible) implies (best matches Some((_, a)) && m@[k].activity <= a) by {
            assert(v.contains((&k, &m@[k])));
            let i = choose|i: int| 0 <= i < v.len() && v[i] == (&k, &m@[k]);
            assert(v[i].1.activity == m@[k].activity);
        }
    }
    match best {
        Some((id, _)) => Some(id),
        None => None,
    }
}

proof fn lemma_leader_unique(v: DisplayView, a: u64, b: u64)
    requires
        well_formed(v),
        is_leader(v.clients, a),
        is_leader(v.clients, b),
    ensures
        a == b,
{
}

proof fn lemma_latest_unique(v: DisplayView, a: u64, b: u64)
    requires
        well_formed(v),
        is_latest(v.clients, a),
        is_latest(v.clients, b),
    ensures
        a == b,
{
}

/// Under well-formedness the leader is the one visible client with the
/// latest activity.
pub proof fn law_leader_is_latest_visible(v: DisplayView, id: u64)
    requires
        well_formed(v),
    ensures
        leader_of(v.clients) == Some(id) <==> is_leader(v.clients, id),
{
    if is_leader(v.clients, id) {
        assert(has_visible(v.clients));
        let c = choose|l: u64| is_leader(v.clients, l);
        lemma_leader_unique(v, id, c);
    }
    if leader_of(v.clients) == Some(id) {
        let k = choose|k: u64| #[trigger] v.clients.contains_key(k) && v.clients[k].visibility
            == Visibility::Visible;
        lemma_visible_has_leader(v, k);
    }
}

proof fn lemma_visible_has_leader(v: DisplayView, k: u64)
    requires
        well_formed(v),
        v.clients.contains_key(k),
        v.clients[k].visibility == Visibility::Visible,
    ensures
        exists|l: u64| is_leader(v.clients, l),
    decreases v.clients.dom().len(),
{
    let m = v.clients;
    if exists|j: u64| #[trigger] m.contains_key(j) && m[j].visibility == Visibility::Visible
        && m[j].activity > m[k].activity {
        let j = choose|j: u64| #[trigger] m.contains_key(j) && m[j].visibility
            == Visibility::Visible && m[j].activity > m[k].activity;
        let smaller = DisplayView { clients: m.remove(k), clock: v.clock };
        assert(smaller.clients.dom() =~= m.dom().remove(k));
        lemma_visible_has_leader(smaller, j);
        let l = choose|l: u64| is_leader(smaller.clients, l);
        assert(is_leader(m, l)) by {
            assert forall|x: u64| #[trigger] m.contains_key(x) && m[x].visibility
                == Visibility::Visible implies m[x].activity <= m[l].activity by {
                if x != k {
                    assert(smaller.clients.contains_key(x));
                } else {
                    assert(smaller.clients.contains_key(j));
                }
            }
        }
    } else {
        assert(is_leader(m, k));
    }
}

/// A client that attaches leads the session, with its size as the grid.
pub proof fn law_attached_client_leads(
    v: DisplayView,
    id: u64,
    rows: u16,
    cols: u16,
    prompt_editor: Option<String>,
    current: (u16, u16),
)
    requires
        well_formed(v),
        v.clock < u64::MAX,
    ensures
        leader_of(attached(v, id, rows, cols, prompt_editor).clients) == Some(id),
        grid_of(attached(v, id, rows, cols, prompt_editor).clients, current) == (rows, cols),
        prompt_editor_of(attached(v, id, rows, cols, prompt_editor).clients) == match prompt_editor {
            Some(e) => e@,
            None => "editor"@,
        },
{
    let w = attached(v, id, rows, cols, prompt_editor);
    assert(well_formed(w));
    assert(is_leader(w.clients, id));
    law_leader_is_latest_visible(w, id);
}

/// Attaching replaces a client already attached under the same id: it is
/// visible again and takes plain resizes again.
pub proof fn law_attach_replaces_client(
    v: DisplayView,
    id: u64,
    rows: u16,
    cols: u16,
    prompt_editor: Option<String>,
    r: u16,
    c: u16,
)
    ensures
        ({
            let w = resized(attached(v, id, rows, cols, prompt_editor), id, r, c);
            &&& w.clients[id].rows == r && w.clients[id].cols == c
            &&& w.clients[id].visibility == Visibility::Visible
            &&& w.clients[id].prompt_editor == prompt_editor
        }),
{
}

/// Detaching a client that was attached to a session undoes the attach for
/// the other clients: they, and so the grid and the prompt editor, are as
/// before it. Detaching a client that is not attached changes nothing.
pub proof fn law_remove_undoes_attach(
    v: DisplayView,
    id: u64,
    rows: u16,
    cols: u16,
    prompt_editor: Option<String>,
    current: (u16, u16),
)
    requires
        !v.clients.contains_key(id),
    ensures
        attached(v, id, rows, cols, prompt_editor).clients.remove(id) == v.clients,
        grid_of(attached(v, id, rows, cols, prompt_editor).clients.remove(id), current) == grid_of(
            v.clients,
            current,
        ),
        prompt_editor_of(attached(v, id, rows, cols, prompt_editor).clients.remove(id))
            == prompt_editor_of(v.clients),
        v.clients.remove(id) == v.clients,
{
    assert(attached(v, id, rows, cols, prompt_editor).clients.remove(id) =~= v.clients);
    assert(v.clients.remove(id) =~= v.clients);
}

/// Activity records recency: attaching, reporting visible and input from a
/// visible client make that client the most recently active of all; plain
/// resizes, other reports and input from clients that are not visible
/// leave every activity as it was. With [`law_leader_is_latest_visible`]
/// and [`grid_of`], the grid follows the visible client acted on last, else
/// with a chat client the rows of the client acted on last at no less than
/// the resting width, else stays.
pub proof fn law_activity_records_recency(
    v: DisplayView,
    id: u64,
    rows: u16,
    cols: u16,
    prompt_editor: Option<String>,
    visibility: Visibility,
)
    requires
        well_formed(v),
        v.clock < u64::MAX,
    ensures
        is_latest(attached(v, id, rows, cols, prompt_editor).clients, id),
        v.clients.contains_key(id) ==> is_latest(shown(v, id, Visibility::Visible, rows, cols).clients, id),
        v.clients.contains_key(id) && v.clients[id].visibility == Visibility::Visible ==> is_latest(
            touched(v, id).clients,
            id,
        ),
        forall|k: u64| #[trigger]
            resized(v, id, rows, cols).clients.contains_key(k) ==> resized(v, id, rows, cols).clients[k].activity
                == v.clients[k].activity,
        visibility != Visibility::Visible ==> forall|k: u64| #[trigger]
            shown(v, id, visibility, rows, cols).clients.contains_key(k) ==> shown(
                v,
                id,
                visibility,
                rows,
                cols,
            ).clients[k].activity == v.clients[k].activity,
        !(v.clients.contains_key(id) && v.clients[id].visibility == Visibility::Visible) ==> touched(v, id)
            == v,
{
}

/// Input from a visible client makes it the leader.
pub proof fn law_input_makes_leader(v: DisplayView, id: u64)
    requires
        well_formed(v),
        v.clock < u64::MAX,
        v.clients.contains_key(id),
        v.clients[id].visibility == Visibility::Visible,
    ensures
        leader_of(touched(v, id).clients) == Some(id),
{
    let w = touched(v, id);
    assert(well_formed(w));
    assert(is_leader(w.clients, id));
    law_leader_is_latest_visible(w, id);
}

/// A client that reports itself visible leads, and its reported size becomes
/// the grid.
pub proof fn law_visible_report_leads(v: DisplayView, id: u64, rows: u16, cols: u16, current: (u16, u16))
    requires
        well_formed(v),
        v.clock < u64::MAX,
        v.clients.contains_key(id),
    ensures
        leader_of(shown(v, id, Visibility::Visible, rows, cols).clients) == Some(id),
        grid_of(shown(v, id, Visibility::Visible, rows, cols).clients, current) == (rows, cols),
{
    let w = shown(v, id, Visibility::Visible, rows, cols);
    assert(well_formed(w));
    assert(is_leader(w.clients, id));
    law_leader_is_latest_visible(w, id);
}

/// Once a client has reported its display state, plain resizes leave it
/// alone.
pub proof fn law_resize_after_report_ignored(v: DisplayView, id: u64, rows: u16, cols: u16)
    requires
        v.clients.contains_key(id),
        v.clients[id].explicit_visibility,
    ensures
        resized(v, id, rows, cols) == v,
{
}

/// A detached client no longer leads.
pub proof fn law_removed_client_does_not_lead(v: DisplayView, id: u64)
    requires
        well_formed(v),
    ensures
        leader_of(v.clients.remove(id)) != Some(id),
{
    let w = DisplayView { clients: v.clients.remove(id), clock: v.clock };
    assert(well_formed(w));
    law_leader_is_latest_visible(w, id);
}

/// Without visible clients, a chat client widens the grid to at least the
/// resting width and never narrows it; with no visible or chat client the
/// grid stays as it is.
pub proof fn law_grid_without_visible(v: DisplayView, current: (u16, u16))
    requires
        well_formed(v),
        !has_visible(v.clients),
    ensures
        has_chat(v.clients) ==> grid_of(v.clients, current).1 >= RESTING_COLS && grid_of(
            v.clients,
            current,
        ).1 >= current.1,
        !has_chat(v.clients) ==> grid_of(v.clients, current) == current,
{
}

/// The prompt editor is the one the visible client with the latest activity
/// declared, `editor` when it declared none, and `editor` when no client is
/// visible, whatever chat or parked clients declared. Changing the editor of
/// a client that is not visible changes nothing.
pub proof fn law_prompt_editor_from_visible_leader(v: DisplayView, id: u64, other: u64, editor: Option<String>)
    requires
        well_formed(v),
    ensures
        !has_visible(v.clients) ==> prompt_editor_of(v.clients) == "editor"@,
        is_leader(v.clients, id) ==> prompt_editor_of(v.clients) == match v.clients[id].prompt_editor {
            Some(e) => e@,
            None => "editor"@,
        },
        v.clients.contains_key(other) && v.clients[other].visibility != Visibility::Visible
            ==> prompt_editor_of(
            v.clients.insert(other, Client { prompt_editor: editor, ..v.clients[other] }),
        ) == prompt_editor_of(v.clients),
{
    law_leader_is_latest_visible(v, id);
    if v.clients.contains_key(other) && v.clients[other].visibility != Visibility::Visible {
        let m = v.clients;
        let m2 = m.insert(other, Client { prompt_editor: editor, ..m[other] });
        let w = DisplayView { clients: m2, clock: v.clock };
        assert(m2.dom() =~= m.dom());
        assert(well_formed(w));
        assert forall|x: u64| is_leader(m2, x) <==> is_leader(m, x) by {
            if is_leader(m, x) {
                assert forall|k: u64| #[trigger]
                    m2.contains_key(k) && m2[k].visibility == Visibility::Visible implies m2[k].activity
                    <= m2[x].activity by {
                    assert(m.contains_key(k));
                }
            }
            if is_leader(m2, x) {
                assert forall|k: u64| #[trigger]
                    m.contains_key(k) && m[k].visibility == Visibility::Visible implies m[k].activity
                    <= m[x].activity by {
                    assert(m2.contains_key(k));
                }
            }
        }
        assert(has_visible(m2) == has_visible(m)) by {
            if has_visible(m) {
                let k = choose|k: u64| #[trigger] m.contains_key(k) && m[k].visibility == Visibility::Visible;
                assert(m2.contains_key(k));
            }
            if has_visible(m2) {
                let k = choose|k: u64| #[trigger] m2.contains_key(k) && m2[k].visibility == Visibility::Visible;
                assert(m.contains_key(k));
            }
        }
        if has_visible(m) {
            let l = choose|x: u64| is_leader(m, x);
            let l2 = choose|x: u64| is_leader(m2, x);
            let k = choose|k: u64| #[trigger] m.contains_key(k) && m[k].visibility == Visibility::Visible;
            lemma_visible_has_leader(v, k);
            assert(is_leader(m2, l));
            lemma_leader_unique(w, l, l2);
            assert(l != other);
        }
    }
}

/// A call on a [`DisplayPolicy`]: `attach`, `remove`, `resize`,
/// `visibility` or `input`, with its arguments.
pub enum DisplayCall {
    Attach(u64, u16, u16, Option<String>),
    Remove(u64),
    Resize(u64, u16, u16),
    Show(u64, Visibility, u16, u16),
    Input(u64),
}

/// The state after one call.
pub open spec fn after_call(v: DisplayView, call: DisplayCall) -> DisplayView {
    match call {
        DisplayCall::Attach(id, rows, cols, prompt_editor) => attached(v, id, rows, cols, prompt_editor),
        DisplayCall::Remove(id) => DisplayView { clients: v.clients.remove(id), clock: v.clock },
        DisplayCall::Resize(id, rows, cols) => resized(v, id, rows, cols),
        DisplayCall::Show(id, visibility, rows, cols) => shown(v, id, visibility, rows, cols),
        DisplayCall::Input(id) => touched(v, id),
    }
}

/// The state after `calls`, made in order on a new policy.
pub open spec fn after_calls(calls: Seq<DisplayCall>) -> DisplayView
    decreases calls.len(),
{
    if calls.len() == 0 {
        DisplayView { clients: Map::empty(), clock: 0 }
    } else {
        after_call(after_calls(calls.drop_last()), calls.last())
    }
}

/// Whether `id` is attached after `calls`: attached, and not removed since.
pub open spec fn in_session(calls: Seq<DisplayCall>, id: u64) -> bool
    decreases calls.len(),
{
    if calls.len() == 0 {
        false
    } else {
        match calls.last() {
            DisplayCall::Attach(i, _, _, _) if i == id => true,
            DisplayCall::Remove(i) if i == id => false,
            _ => in_session(calls.drop_last(), id),
        }
    }
}

/// Whether `id` has reported its display state since it was last attached.
pub open spec fn reported(calls: Seq<DisplayCall>, id: u64) -> bool
    decreases calls.len(),
{
    if calls.len() == 0 {
        false
    } else {
        let before = calls.drop_last();
        match calls.last() {
            DisplayCall::Attach(i, _, _, _) if i == id => false,
            DisplayCall::Show(i, _, _, _) if i == id && in_session(before, id) => true,
            _ => reported(before, id),
        }
    }
}

/// How `id` shows the session after `calls`: visible from its latest
/// attach, then as it last reported.
pub open spec fn shown_as(calls: Seq<DisplayCall>, id: u64) -> Visibility
    decreases calls.len(),
{
    if calls.len() == 0 {
        Visibility::Visible
    } else {
        let before = calls.drop_last();
        match calls.last() {
            DisplayCall::Attach(i, _, _, _) if i == id => Visibility::Visible,
            DisplayCall::Show(i, visibility, _, _) if i == id && in_session(before, id) => visibility,
            _ => shown_as(before, id),
        }
    }
}

/// The latest size of `id` after `calls`: from its attach, its reports, and
/// its resizes until its first report.
pub open spec fn size_after(calls: Seq<DisplayCall>, id: u64) -> (u16, u16)
    decreases calls.len(),
{
    if calls.len() == 0 {
        (0, 0)
    } else {
        let before = calls.drop_last();
        match calls.last() {
            DisplayCall::Attach(i, rows, cols, _) if i == id => (rows, cols),
            DisplayCall::Show(i, _, rows, cols) if i == id && in_session(before, id) => (rows, cols),
            DisplayCall::Resize(i, rows, cols) if i == id && in_session(before, id) && !reported(
                before,
                id,
            ) => (rows, cols),
            _ => size_after(before, id),
        }
    }
}

/// The position (counting from 1) of the latest call that made `id` active:
/// its attach, a report of it as visible, or input from it while visible.
pub open spec fn last_active(calls: Seq<DisplayCall>, id: u64) -> int
    decreases calls.len(),
{
    if calls.len() == 0 {
        0
    } else {
        let before = calls.drop_last();
        match calls.last() {
            DisplayCall::Attach(i, _, _, _) if i == id => calls.len() as int,
            DisplayCall::Show(i, Visibility::Visible, _, _) if i == id && in_session(before, id) => calls.len() as int,
            DisplayCall::Input(i) if i == id && in_session(before, id) && shown_as(before, id)
                == Visibility::Visible => calls.len() as int,
            _ => last_active(before, id),
        }
    }
}

/// `id` is the visible attached client made active last.
pub open spec fn leads_after(calls: Seq<DisplayCall>, id: u64) -> bool {
    &&& in_session(calls, id)
    &&& shown_as(calls, id) == Visibility::Visible
    &&& forall|k: u64|
        in_session(calls, k) && shown_as(calls, k) == Visibility::Visible ==> #[trigger] last_active(
            calls,
            k,
        ) <= last_active(calls, id)
}

/// `id` is the attached client made active last.
pub open spec fn latest_after(calls: Seq<DisplayCall>, id: u64) -> bool {
    &&& in_session(calls, id)
    &&& forall|k: u64| in_session(calls, k) ==> #[trigger] last_active(calls, k) <= last_active(calls, id)
}

/// The grid after `calls`, from the call history alone: the size of the
/// visible client made active last; else, with a chat client, the rows of
/// the client made active last at no less than the resting width; else the
/// current grid.
pub open spec fn grid_after(calls: Seq<DisplayCall>, current: (u16, u16)) -> (u16, u16) {
    if exists|id: u64| in_session(calls, id) && shown_as(calls, id) == Visibility::Visible {
        size_after(calls, choose|id: u64| leads_after(calls, id))
    } else if exists|id: u64| in_session(calls, id) && shown_as(calls, id) == Visibility::Chat {
        let latest = choose|id: u64| latest_after(calls, id);
        (size_after(calls, latest).0, if current.1 >= RESTING_COLS { current.1 } else { RESTING_COLS })
    } else {
        current
    }
}

/// What the state after `calls` holds, in terms of the call history.
pub open spec fn follows_history(calls: Seq<DisplayCall>) -> bool {
    let v = after_calls(calls);
    &&& well_formed(v)
    &&& v.clock <= calls.len()
    &&& forall|id: u64| #[trigger] v.clients.contains_key(id) <==> in_session(calls, id)
    &&& forall|id: u64| #[trigger]
        v.clients.contains_key(id) ==> {
            &&& v.clients[id].visibility == shown_as(calls, id)
            &&& (v.clients[id].rows, v.clients[id].cols) == size_after(calls, id)
            &&& v.clients[id].explicit_visibility == reported(calls, id)
            &&& 1 <= last_active(calls, id) <= calls.len()
        }
    &&& forall|a: u64, b: u64| #[trigger]
        v.clients.contains_key(a) && #[trigger] v.clients.contains_key(b) ==> (v.clients[a].activity
            < v.clients[b].activity <==> last_active(calls, a) < last_active(calls, b))
}

proof fn lemma_has_latest(v: DisplayView, k: u64)
    requires
        well_formed(v),
        v.clients.contains_key(k),
    ensures
        exists|l: u64| is_latest(v.clients, l),
    decreases v.clients.dom().len(),
{
    let m = v.clients;
    if exists|j: u64| #[trigger] m.contains_key(j) && m[j].activity > m[k].activity {
        let j = choose|j: u64| #[trigger] m.contains_key(j) && m[j].activity > m[k].activity;
        let smaller = DisplayView { clients: m.remove(k), clock: v.clock };
        assert(smaller.clients.dom() =~= m.dom().remove(k));
        lemma_has_latest(smaller, j);
        let l = choose|l: u64| is_latest(smaller.clients, l);
        assert(is_latest(m, l)) by {
            assert forall|x: u64| #[trigger] m.contains_key(x) implies m[x].activity <= m[l].activity by {
                if x != k {
                    assert(smaller.clients.contains_key(x));
                } else {
                    assert(smaller.clients.contains_key(j));
                }
            }
        }
    } else {
        assert(is_latest(m, k));
    }
}

/// The history of every client but `id` is unchanged by the last call when
/// that call is about `id`.
proof fn lemma_others_unchanged(calls: Seq<DisplayCall>, id: u64)
    requires
        calls.len() > 0,
        match calls.last() {
            DisplayCall::Attach(i, _, _, _) => i == id,
            DisplayCall::Remove(i) => i == id,
            DisplayCall::Resize(i, _, _) => i == id,
            DisplayCall::Show(i, _, _, _) => i == id,
            DisplayCall::Input(i) => i == id,
        },
    ensures
        forall|k: u64|
            k != id ==> {
                &&& #[trigger] in_session(calls, k) == in_session(calls.drop_last(), k)
                &&& shown_as(calls, k) == shown_as(calls.drop_last(), k)
                &&& size_after(calls, k) == size_after(calls.drop_last(), k)
                &&& reported(calls, k) == reported(calls.drop_last(), k)
                &&& last_active(calls, k) == last_active(calls.drop_last(), k)
            },
{
}

proof fn lemma_follows_history(calls: Seq<DisplayCall>)
    requires
        calls.len() < u64::MAX,
    ensures
        follows_history(calls),
    decreases calls.len(),
{
    if calls.len() > 0 {
        let before = calls.drop_last();
        lemma_follows_history(before);
        let v = after_calls(before);
        let w = after_calls(calls);
        let n = calls.len() as int;
        assert(w == after_call(v, calls.last()));
        match calls.last() {
            DisplayCall::Attach(id, rows, cols, pe) => {
                lemma_others_unchanged(calls, id);
                assert(w.clients.contains_key(id));
                assert(well_formed(w));
                assert(last_active(calls, id) == n);
            },
            DisplayCall::Remove(id) => {
                lemma_others_unchanged(calls, id);
                assert(!in_session(calls, id));
                assert(well_formed(w));
            },
            DisplayCall::Resize(id, rows, cols) => {
                lemma_others_unchanged(calls, id);
                assert(well_formed(w));
            },
            DisplayCall::Show(id, visibility, rows, cols) => {
                lemma_others_unchanged(calls, id);
                assert(well_formed(w));
                if v.clients.contains_key(id) && visibility == Visibility::Visible {
                    assert(last_active(calls, id) == n);
                }
            },
            DisplayCall::Input(id) => {
                lemma_others_unchanged(calls, id);
                assert(well_formed(w));
                if v.clients.contains_key(id) && v.clients[id].visibility == Visibility::Visible {
                    assert(last_active(calls, id) == n);
                }
            },
        }
    }
}

/// After any calls on a new policy (fewer than the clock can count), the
/// grid follows the call history: the size of the visible client made
/// active last (by attach, a visible report, or input while visible),
/// where a size comes from the latest attach, report, or resize before the
/// first report; else, with a chat client, the rows of the client made
/// active last at no less than the resting width; else the current grid.
pub proof fn law_grid_follows_history(calls: Seq<DisplayCall>, current: (u16, u16))
    requires
        calls.len() < u64::MAX,
    ensures
        well_formed(after_calls(calls)),
        grid_of(after_calls(calls).clients, current) == grid_after(calls, current),
{
    lemma_follows_history(calls);
    let v = after_calls(calls);
    let m = v.clients;
    assert forall|x: u64| is_leader(m, x) <==> leads_after(calls, x) by {
        if is_leader(m, x) {
            assert forall|k: u64|
                in_session(calls, k) && shown_as(calls, k) == Visibility::Visible implies #[trigger] last_active(
                calls,
                k,
            ) <= last_active(calls, x) by {
                assert(m.contains_key(k));
            }
        }
        if leads_after(calls, x) {
            assert(m.contains_key(x));
            assert forall|k: u64| #[trigger]
                m.contains_key(k) && m[k].visibility == Visibility::Visible implies m[k].activity
                <= m[x].activity by {
                assert(last_active(calls, k) <= last_active(calls, x));
            }
        }
    }
    assert forall|x: u64| is_latest(m, x) <==> latest_after(calls, x) by {
        if is_latest(m, x) {
            assert forall|k: u64| in_session(calls, k) implies #[trigger] last_active(calls, k)
                <= last_active(calls, x) by {
                assert(m.contains_key(k));
            }
        }
        if latest_after(calls, x) {
            assert(m.contains_key(x));
            assert forall|k: u64| #[trigger] m.contains_key(k) implies m[k].activity <= m[x].activity by {
                assert(last_active(calls, k) <= last_active(calls, x));
            }
        }
    }
    let hv = exists|id: u64| in_session(calls, id) && shown_as(calls, id) == Visibility::Visible;
    if hv {
        let k = choose|id: u64| in_session(calls, id) && shown_as(calls, id) == Visibility::Visible;
        assert(m.contains_key(k));
        lemma_visible_has_leader(v, k);
        let l = choose|id: u64| is_leader(m, id);
        let h = choose|id: u64| leads_after(calls, id);
        assert(leads_after(calls, l));
        assert(is_leader(m, h));
        lemma_leader_unique(v, l, h);
    } else {
        assert(!has_visible(m)) by {
            if has_visible(m) {
                let k = choose|k: u64| #[trigger] m.contains_key(k) && m[k].visibility == Visibility::Visible;
                assert(in_session(calls, k));
            }
        }
        let hc = exists|id: u64| in_session(calls, id) && shown_as(calls, id) == Visibility::Chat;
        if hc {
            let k = choose|id: u64| in_session(calls, id) && shown_as(calls, id) == Visibility::Chat;
            assert(m.contains_key(k));
            assert(has_chat(m));
            lemma_has_latest(v, k);
            let l = choose|id: u64| is_latest(m, id);
            let h = choose|id: u64| latest_after(calls, id);
            assert(latest_after(calls, l));
            assert(is_latest(m, h));
            lemma_latest_unique(v, l, h);
        } else {
            assert(!has_chat(m)) by {
                if has_chat(m) {
                    let k = choose|k: u64| #[trigger] m.contains_key(k) && m[k].visibility == Visibility::Chat;
                    assert(in_session(calls, k));
                }
            }
        }
    }
}

impl DisplayPolicy {
    pub fn new() -> (r: Self)
        ensures
            r@.clients == Map::<u64, Client>::empty(),
            r@.clock == 0,
            well_formed(r@),
    {
        DisplayPolicy { clients: BTreeMap::new(), clock: 0 }
    }

    /// Attaches (or re-attaches) a visible client; it becomes the most
    /// recently active one.
    pub fn attach(&mut self, id: u64, rows: u16, cols: u16, prompt_editor: Option<String>)
        requires
            well_formed(old(self)@),
            old(self)@.clock < u64::MAX,
        ensures
            well_formed(final(self)@),
            final(self)@ == attached(old(self)@, id, rows, cols, prompt_editor),
    {
        self.clock = self.clock + 1;
        self.clients.insert(
            id,
            Client {
                visibility: Visibility::Visible,
                rows,
                cols,
                activity: self.clock,
                explicit_visibility: false,
                prompt_editor,
            },
        );
    }

    /// Detaches a client.
    pub fn remove(&mut self, id: u64)
        requires
            well_formed(old(self)@),
        ensures
            well_formed(final(self)@),
            final(self)@.clock == old(self)@.clock,
            final(self)@.clients == old(self)@.clients.remove(id),
    {
        self.clients.remove(&id);
    }

    /// Records a client's new size, unless the client has reported its
    /// display state (its size then comes with that report).
    pub fn resize(&mut self, id: u64, rows: u16, cols: u16)
        requires
            well_formed(old(self)@),
        ensures
            well_formed(final(self)@),
            final(self)@ == resized(old(self)@, id, rows, cols),
    {
        match self.clients.remove(&id) {
            Some(mut client) => {
                if !client.explicit_visibility {
                    client.rows = rows;
                    client.cols = cols;
                }
                self.clients.insert(id, client);
                assert(self@.clients =~= resized(old(self)@, id, rows, cols).clients);
            },
            None => {
                assert(self@.clients =~= old(self)@.clients);
            },
        }
    }

    /// Records a client's reported display state and size; a client turning
    /// visible becomes the most recently active one.
    pub fn visibility(&mut self, id: u64, visibility: Visibility, rows: u16, cols: u16)
        requires
            well_formed(old(self)@),
            old(self)@.clients.contains_key(id) && visibility == Visibility::Visible ==> old(
                self,
            )@.clock < u64::MAX,
        ensures
            well_formed(final(self)@),
            final(self)@ == shown(old(self)@, id, visibility, rows, cols),
    {
        match self.clients.remove(&id) {
            Some(mut client) => {
                client.explicit_visibility = true;
                client.visibility = visibility;
                client.rows = rows;
                client.cols = cols;
                if visibility == Visibility::Visible {
                    self.clock = self.clock + 1;
                    client.activity = self.clock;
                }
                self.clients.insert(id, client);
                assert(self@.clients =~= shown(old(self)@, id, visibility, rows, cols).clients);
            },
            None => {
                assert(self@.clients =~= old(self)@.clients);
            },
        }
    }

    /// Records input from a client; a visible client becomes the most
    /// recently active one.
    pub fn input(&mut self, id: u64)
        requires
            well_formed(old(self)@),
            old(self)@.clients.contains_key(id) && old(self)@.clients[id].visibility
                == Visibility::Visible ==> old(self)@.clock < u64::MAX,
        ensures
            well_formed(final(self)@),
            final(self)@ == touched(old(self)@, id),
    {
        match self.clients.remove(&id) {
            Some(mut client) => {
                if client.visibility == Visibility::Visible {
                    self.clock = self.clock + 1;
                    client.activity = self.clock;
                }
                self.clients.insert(id, client);
                assert(self@.clients =~= touched(old(self)@, id).clients);
            },
            None => {
                assert(self@.clients =~= old(self)@.clients);
            },
        }
    }

    /// Whether the activity clock has reached its end, so that no further
    /// activity can be recorded.
    pub fn clock_exhausted(&self) -> (r: bool)
        ensures
            r == (self@.clock == u64::MAX),
    {
        self.clock == u64::MAX
    }

    /// The visible client with the latest activity.
    pub fn leader(&self) -> (r: Option<u64>)
        requires
            well_formed(self@),
        ensures
            r == leader_of(self@.clients),
            r matches Some(id) ==> is_leader(self@.clients, id),
    {
        let r = latest_client(&self.clients, true);
        proof {
            match r {
                Some(id) => {
                    assert(is_leader(self@.clients, id));
                    let c = choose|l: u64| is_leader(self@.clients, l);
                    lemma_leader_unique(self@, id, c);
                },
                None => {},
            }
        }
        r
    }

    /// Whether some client is in chat.
    pub fn chat_claim(&self) -> (r: bool)
        ensures
            r == has_chat(self@.clients),
    {
        let mut found = false;
        for item in it: self.clients.iter()
            invariant
                it.seq() == vstd::std_specs::btree::spec_btree_map_iter(&self.clients).remaining(),
                found ==> has_chat(self@.clients),
                !found ==> forall|i: int|
                    0 <= i < it.index() ==> (#[trigger] it.seq()[i]).1.visibility
                        != Visibility::Chat,
        {
            let (id, client) = item;
            if client.visibility == Visibility::Chat {
                assert(self@.clients.contains_key(*id));
                found = true;
            }
        }
        proof {
            if !found {
                let v = vstd::std_specs::btree::spec_btree_map_iter(&self.clients).remaining();
                assert forall|k: u64| #[trigger] self@.clients.contains_key(k) implies self@.clients[k].visibility
                    != Visibility::Chat by {
                    assert(v.contains((&k, &self@.clients[k])));
                }
            }
        }
        found
    }

    /// The grid the session should have, given its current grid `current`
    /// (rows, cols): the leader's size; else, when a client is in chat, the
    /// latest client's rows and at least the resting width; else `current`.
    pub fn grid(&self, current: (u16, u16)) -> (r: (u16, u16))
        requires
            well_formed(self@),
        ensures
            r == grid_of(self@.clients, current),
    {
        match self.leader() {
            Some(id) => {
                let client = self.clients.get(&id).unwrap();
                return (client.rows, client.cols);
            },
            None => {},
        }
        if self.chat_claim() {
            let latest = latest_client(&self.clients, false);
            match latest {
                Some(id) => {
                    proof {
                        assert(is_latest(self@.clients, id));
                        let c = choose|l: u64| is_latest(self@.clients, l);
                        lemma_latest_unique(self@, id, c);
                    }
                    let client = self.clients.get(&id).unwrap();
                    let cols = if current.1 >= RESTING_COLS {
                        current.1
                    } else {
                        RESTING_COLS
                    };
                    (client.rows, cols)
                },
                None => {
                    proof {
                        let k = choose|k: u64| #[trigger] self@.clients.contains_key(k)
                            && self@.clients[k].visibility == Visibility::Chat;
                        assert(self@.clients.contains_key(k));
                    }
                    current
                },
            }
        } else {
            current
        }
    }

    /// Display metadata for the current grid `rows` x `cols`: the leader, the
    /// resting size, whether a client is in chat, and every client by
    /// increasing id.
    pub fn snapshot(&self, rows: u16, cols: u16) -> (r: GridSnapshot)
        requires
            well_formed(self@),
        ensures
            r.rows == rows,
            r.cols == cols,
            r.leader == leader_of(self@.clients),
            r.resting_rows == RESTING_ROWS,
            r.resting_cols == RESTING_COLS,
            r.chat_claim == has_chat(self@.clients),
            r.clients@.len() == self@.clients.dom().len(),
            forall|i: int|
                #![trigger r.clients@[i]]
                0 <= i < r.clients@.len() ==> {
                    let e = r.clients@[i];
                    let c = self@.clients[e.id];
                    &&& self@.clients.contains_key(e.id)
                    &&& e.visibility == c.visibility
                    &&& e.activity == c.activity
                    &&& e.rows == c.rows
                    &&& e.cols == c.cols
                },
            forall|k: u64| #[trigger]
                self@.clients.contains_key(k) ==> exists|i: int|
                    0 <= i < r.clients@.len() && #[trigger] r.clients@[i].id == k,
            forall|i: int, j: int|
                0 <= i < j < r.clients@.len() ==> r.clients@[i].id < r.clients@[j].id,
    {
        let ghost v = vstd::std_specs::btree::spec_btree_map_iter(&self.clients).remaining();
        let mut entries: Vec<ClientEntry> = Vec::new();
        for item in it: self.clients.iter()
            invariant
                it.seq() == v,
                v == vstd::std_specs::btree::spec_btree_map_iter(&self.clients).remaining(),
                entries@.len() == it.index(),
                forall|i: int|
                    #![trigger entries@[i]]
                    0 <= i < it.index() ==> {
                        let e = entries@[i];
                        &&& e.id == *v[i].0
                        &&& e.visibility == v[i].1.visibility
                        &&& e.activity == v[i].1.activity
                        &&& e.rows == v[i].1.rows
                        &&& e.cols == v[i].1.cols
                    },
        {
            let (id, client) = item;
            entries.push(
                ClientEntry {
                    id: *id,
                    visibility: client.visibility,
                    activity: client.activity,
                    rows: client.rows,
                    cols: client.cols,
                },
            );
        }
        proof {
            let m = self@.clients;
            assert forall|k: u64| #[trigger] m.contains_key(k) implies exists|i: int|
                0 <= i < entries@.len() && #[trigger] entries@[i].id == k by {
                assert(v.contains((&k, &m[k])));
                let i = choose|i: int| 0 <= i < v.len() && v[i] == (&k, &m[k]);
                assert(entries@[i].id == k);
            }
            let keys = v.map_values(|kv: (&u64, &Client)| *kv.0);
            assert(vstd::std_specs::btree::increasing_seq(keys));
            assert(vstd::laws_cmp::obeys_cmp::<u64>());
            assert forall|i: int, j: int| 0 <= i < j < entries@.len() implies entries@[i].id
                < entries@[j].id by {
                assert(keys[i] == entries@[i].id && keys[j] == entries@[j].id);
                assert(vstd::std_specs::cmp::OrdSpec::cmp_spec(&keys[i], &keys[j]) is Less);
            }
        }
        GridSnapshot {
            rows,
            cols,
            leader: self.leader(),
            resting_rows: RESTING_ROWS,
            resting_cols: RESTING_COLS,
            chat_claim: self.chat_claim(),
            clients: entries,
        }
    }

    /// The leader's prompt editor, or `editor` without one.
    pub fn prompt_editor(&self) -> (r: &str)
        requires
            well_formed(self@),
        ensures
            r@ == prompt_editor_of(self@.clients),
    {
        match self.leader() {
            Some(id) => {
                let client = self.clients.get(&id).unwrap();
                match &client.prompt_editor {
                    Some(editor) => editor.as_str(),
                    None => "editor",
                }
            },
            None => "editor",
        }
    }
}

} // verus!
