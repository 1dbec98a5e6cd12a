#![verifier::spinoff_prover]
//! The bar's state machine. The plugin shell adapts zellij events into the
//! plain values below and executes the `Effect`s it gets back.
//!
//! Three separated concerns: the row SET is zellij's tabs (`apply_tabs`),
//! the row ORDER is the store's commitment ordinals, the row DECORATION is
//! the store's pushed snapshots (`apply_snapshot`).
use crate::seqs::{
    any, assoc_insert, contains_str, contains_usize, find, get_usize, has_str, increasing,
    insert_sorted, lemma_any_at, lemma_find_at, lemma_find_iff, lemma_not_any, lemma_push_contains, lemma_find_none, lemma_find_some, lemma_is_sorted_listing,
    assoc_insert_u32, find_index, key_str, key_u32, key_u32_ne, lookup_str, lookup_u32,
    lookup_usize, remove_str, u32_index, u32_insert, u32_remove, sorted_listing, str_get, str_index, str_insert,
    without_str,
};
use crate::render::{opt_view, spec_viewport_top, viewport_top, ContentView, Provenance, Row, RowContent, RowStatus, RowView, TermStatus, Widths};
use crate::rows::{
    branch_cell, provenance_of, spec_branch_cell, spec_provenance, spec_repo_ink, spec_title_ink,
    lex_lt, str_lt, utf8_len, byte_len, ProvisionalInks,
};
use crate::text::{
    basename, chars_of, command_display, copy_opt_string, elapsed_label, opt_str_eq, spec_basename,
    spec_command_display, spec_elapsed_label, spec_within, string_of, views, within,
};
use crate::types::{DEFAULT_HALF_LIFE_HOURS, spec_lines_per_row, spec_target_cols, Agent, AgentSnapshot, OrderMode, RowHeight, Status};
use crate::payload::{fields_view, json_nav_fields, parse_nav_fields, NavFields, NavFieldsView};
use crate::text::str_eq;
use vstd::arithmetic::div_mod::{lemma_add_mod_noop_right, lemma_mod_add_multiples_vanish, lemma_mod_bound, lemma_small_mod};
use vstd::prelude::*;

verus! {

/// One tab as zellij's last tab frame reported it.
#[derive(Debug, Clone, PartialEq, Eq)]
pub struct TabMeta {
    /// Zellij's stable tab id (survives reorders).
    pub tab_id: usize,
    /// Current 0-based position: the join key with the pane manifest.
    pub position: usize,
    pub name: String,
    pub active: bool,
    /// Whether this tab's floating set is currently shown.
    pub floating_visible: bool,
}

/// One pane as zellij's last pane manifest reported it.
#[derive(Debug, Clone, PartialEq, Eq)]
pub struct PaneMeta {
    pub tab_position: usize,
    pub pane_id: u32,
    pub is_plugin: bool,
    pub is_focused: bool,
    pub is_floating: bool,
    /// The launch command of a command pane; `None` for a shell pane.
    pub terminal_command: Option<String>,
    /// A finished command pane, and how it finished.
    pub exited: bool,
    pub exit_status: Option<i32>,
}

/// What the bar has learned about a terminal pane beyond the manifest.
#[derive(Debug, Clone, Default, PartialEq, Eq)]
pub struct TermFacts {
    /// The pane process's current working directory.
    pub cwd: Option<String>,
    /// The most recent foreground command that was not the shell itself.
    pub last_cmd: Option<String>,
    /// Whether that command is in flight right now.
    pub running: bool,
}

/// One OS answer about one pane: each field is "answered" or "not asked".
#[derive(Debug, Clone, Default, PartialEq, Eq)]
pub struct PaneProbe {
    pub pane_id: u32,
    pub cwd: Option<String>,
    /// The foreground argv exactly as the OS reported it.
    pub foreground: Option<Vec<String>>,
}

/// Side effects for the plugin shell to execute, kept as data.
#[derive(Debug, Clone, PartialEq, Eq)]
pub enum Effect {
    /// Rename the real tab to clave's label.
    RenameTab { tab_id: usize, name: String },
    /// Focus a terminal pane (zellij pulls its tab forward).
    FocusPane { pane_id: u32 },
    /// Switch to the tab at this 0-based position.
    SwitchTab { position: usize },
    /// Broadcast the visited beacon after a single-instance jump.
    AnnounceVisit { tab_id: usize },
    /// The same beacon, sent only by an instance that elected itself.
    ReanchorVisit { tab_id: usize },
    /// Persist the unread clear for an agent.
    MarkRead { uuid: String },
    /// Report the uuid → tab join to the store.
    Bind { uuid: String, tab_id: usize },
    /// Drop store binds and orders for tabs this instance saw die.
    PruneTabs { stale_ids: Vec<usize> },
    /// Switch this tab to the other declared bar geometry.
    SwapWidth,
    /// Arm the peek sink timer.
    ArmPeek,
    /// Hide the active tab's floating panes.
    ShellHide,
    /// Show the active tab's hidden floating panes.
    ShellShow,
    /// Open the floating scratch shell at this location.
    ShellSpawn { cwd: Option<String> },
    /// Launch a dormant agent.
    OpenAgent { uuid: String },
    /// The once-ever birth stamp for a tab the store has never ordered.
    Touch { tab_id: usize },
    /// Persist the collapse mode.
    PersistCollapse { collapsed: bool },
    /// The bind leg changed state.
    BindStall { state: BindStallState, stranded: usize, own_tab: Option<usize> },
}

/// An effect as plain values.
pub ghost enum EffectView {
    RenameTab { tab_id: usize, name: Seq<char> },
    FocusPane { pane_id: u32 },
    SwitchTab { position: usize },
    AnnounceVisit { tab_id: usize },
    ReanchorVisit { tab_id: usize },
    MarkRead { uuid: Seq<char> },
    Bind { uuid: Seq<char>, tab_id: usize },
    PruneTabs { stale_ids: Seq<usize> },
    SwapWidth,
    ArmPeek,
    ShellHide,
    ShellShow,
    ShellSpawn { cwd: Option<Seq<char>> },
    OpenAgent { uuid: Seq<char> },
    Touch { tab_id: usize },
    PersistCollapse { collapsed: bool },
    BindStall { state: BindStallState, stranded: usize, own_tab: Option<usize> },
}

impl View for Effect {
    type V = EffectView;

    open spec fn view(&self) -> EffectView {
        match self {
            Effect::RenameTab { tab_id, name } => EffectView::RenameTab {
                tab_id: *tab_id,
                name: name@,
            },
            Effect::FocusPane { pane_id } => EffectView::FocusPane { pane_id: *pane_id },
            Effect::SwitchTab { position } => EffectView::SwitchTab { position: *position },
            Effect::AnnounceVisit { tab_id } => EffectView::AnnounceVisit { tab_id: *tab_id },
            Effect::ReanchorVisit { tab_id } => EffectView::ReanchorVisit { tab_id: *tab_id },
            Effect::MarkRead { uuid } => EffectView::MarkRead { uuid: uuid@ },
            Effect::Bind { uuid, tab_id } => EffectView::Bind { uuid: uuid@, tab_id: *tab_id },
            Effect::PruneTabs { stale_ids } => EffectView::PruneTabs { stale_ids: stale_ids@ },
            Effect::SwapWidth => EffectView::SwapWidth,
            Effect::ArmPeek => EffectView::ArmPeek,
            Effect::ShellHide => EffectView::ShellHide,
            Effect::ShellShow => EffectView::ShellShow,
            Effect::ShellSpawn { cwd } => EffectView::ShellSpawn {
                cwd: match cwd {
                    Some(c) => Some(c@),
                    None => None,
                },
            },
            Effect::OpenAgent { uuid } => EffectView::OpenAgent { uuid: uuid@ },
            Effect::Touch { tab_id } => EffectView::Touch { tab_id: *tab_id },
            Effect::PersistCollapse { collapsed } => EffectView::PersistCollapse {
                collapsed: *collapsed,
            },
            Effect::BindStall { state, stranded, own_tab } => EffectView::BindStall {
                state: *state,
                stranded: *stranded,
                own_tab: *own_tab,
            },
        }
    }
}

/// A run of effects as plain values.
pub open spec fn fx_view(s: Seq<Effect>) -> Seq<EffectView> {
    s.map_values(|e: Effect| e@)
}

/// No effects.
pub fn no_effects() -> (r: Vec<Effect>)
    ensures
        fx_view(r@) == Seq::<EffectView>::empty(),
        r@.len() == 0,
{
    let r: Vec<Effect> = Vec::new();
    assert(fx_view(r@) =~= Seq::<EffectView>::empty());
    r
}

/// Appending an effect appends its view.
pub proof fn lemma_fx_push(s: Seq<Effect>, e: Effect)
    ensures
        fx_view(s.push(e)) == fx_view(s).push(e@),
{
    assert(fx_view(s.push(e)) =~= fx_view(s).push(e@));
}

/// Concatenating runs concatenates their views.
pub proof fn lemma_fx_concat(s: Seq<Effect>, t: Seq<Effect>)
    ensures
        fx_view(s + t) == fx_view(s) + fx_view(t),
{
    assert(fx_view(s + t) =~= fx_view(s) + fx_view(t));
}

/// Why the bind leg is (or is no longer) silent.
#[derive(Debug, Clone, Copy, PartialEq, Eq, Structural)]
pub enum BindStallState {
    /// The tab frame and the pane frame disagree.
    FramesIncoherent,
    /// Our own tab is absent from the tab frame.
    OwnPositionUnknown,
    /// A row's pane id is known but the pane frame does not hold it.
    PaneKnownButAbsent,
    /// None of the above still holds.
    Cleared,
}

/// Row identity: a live zellij tab, or a dormant store row.
#[derive(Debug, Clone, PartialEq, Eq)]
pub enum RowKey {
    Tab(usize),
    Dormant(String),
}

/// The fast band's period, in thousandths of a second: the one timer the
/// width cooldown and the working spinner share.
pub const FAST_TICK_MILLIS: u64 = 150;

/// A fast-tick claim at least this many seconds old was never honoured by
/// the host and is dropped.
pub const FAST_STRAND_SECS: u64 = 2;

/// The peek sink timer's length, in thousandths of a second.
pub const PEEK_SINK_MILLIS: u64 = 900;

/// The most switch asks one mode intent may spend without landing.
pub const WALK_ASK_CAP: u8 = 3;

/// Manifests a pane sits out after a probe both OS queries failed on.
pub const PROBE_FAILURE_STANDDOWN: u8 = 3;

/// A row that has never received a user commitment.
pub const NO_COMMITMENT: u64 = 0;

/// Bind re-emissions per (uuid, target tab) episode.
pub const BIND_MAX_TRIES: u32 = 4;

/// Consecutive confirming store advances that end a bind episode.
pub const BIND_CONFIRMS_TO_RESET: u32 = 2;

/// One outstanding `clave bind` for a uuid.
#[derive(Debug, Clone, Copy, PartialEq, Eq, Structural)]
pub struct BindSent {
    pub tab_id: usize,
    pub at_seq: u64,
    pub tries: u32,
    pub confirms: u32,
}

/// The bar's whole state.
pub struct BarModel {
    awaiting_hydration: bool,
    shell_spawn_pending: bool,
    seq: u64,
    agents: Vec<Agent>,
    uuid_to_pane: Vec<(String, u32)>,
    tabs: Vec<TabMeta>,
    witnessed_dead: Vec<usize>,
    panes: Vec<PaneMeta>,
    pane_facts: Vec<(u32, TermFacts)>,
    probe_backoff: Vec<(u32, u8)>,
    tab_order: Vec<(usize, u64)>,
    order: OrderMode,
    today: u32,
    tab_frecency: Vec<(usize, u64)>,
    tab_touched: Vec<(usize, u64)>,
    birth_touched: Vec<usize>,
    renamed: Vec<(String, String)>,
    own_pane: Option<u32>,
    bind_sent: Vec<(String, BindSent)>,
    bind_stall: Option<BindStallState>,
    read_locally: Vec<String>,
    swap_in_flight: bool,
    last_painted: Option<usize>,
    walk_spent: Option<(bool, u8)>,
    current_tab: Option<usize>,
    birth_announced: bool,
    reanchor_owed: bool,
    organic_pending: bool,
    /// Bar collapsed to the glyph gutter?
    pub collapsed: bool,
    peeking: bool,
    pending_collapse: Option<bool>,
    collapse_reasserted: bool,
    opening: Vec<String>,
    cursor: Option<String>,
    cursor_gen: u64,
    row_height: RowHeight,
    now: u64,
    fast_armed_at: Option<u64>,
    swap_owed: u8,
    spin_frame: u64,
}

/// The model's state as plain values.
pub ghost struct ModelView {
    pub awaiting_hydration: bool,
    pub shell_spawn_pending: bool,
    pub seq: u64,
    pub agents: Seq<Agent>,
    pub uuid_to_pane: Seq<(String, u32)>,
    pub tabs: Seq<TabMeta>,
    pub witnessed_dead: Seq<usize>,
    pub panes: Seq<PaneMeta>,
    pub pane_facts: Seq<(u32, TermFacts)>,
    pub probe_backoff: Seq<(u32, u8)>,
    pub tab_order: Seq<(usize, u64)>,
    pub order: OrderMode,
    pub today: u32,
    pub tab_frecency: Seq<(usize, u64)>,
    pub tab_touched: Seq<(usize, u64)>,
    pub birth_touched: Seq<usize>,
    pub renamed: Seq<(String, String)>,
    pub own_pane: Option<u32>,
    pub bind_sent: Seq<(String, BindSent)>,
    pub bind_stall: Option<BindStallState>,
    pub read_locally: Seq<String>,
    pub swap_in_flight: bool,
    pub last_painted: Option<usize>,
    pub walk_spent: Option<(bool, u8)>,
    pub current_tab: Option<usize>,
    pub birth_announced: bool,
    pub reanchor_owed: bool,
    pub organic_pending: bool,
    pub collapsed: bool,
    pub peeking: bool,
    pub pending_collapse: Option<bool>,
    pub collapse_reasserted: bool,
    pub opening: Seq<String>,
    pub cursor: Option<Seq<char>>,
    pub cursor_gen: u64,
    pub row_height: RowHeight,
    pub now: u64,
    pub fast_armed_at: Option<u64>,
    pub swap_owed: u8,
    pub spin_frame: u64,
}

impl View for BarModel {
    type V = ModelView;

    closed spec fn view(&self) -> ModelView {
        ModelView {
            awaiting_hydration: self.awaiting_hydration,
            shell_spawn_pending: self.shell_spawn_pending,
            seq: self.seq,
            agents: self.agents@,
            uuid_to_pane: self.uuid_to_pane@,
            tabs: self.tabs@,
            witnessed_dead: self.witnessed_dead@,
            panes: self.panes@,
            pane_facts: self.pane_facts@,
            probe_backoff: self.probe_backoff@,
            tab_order: self.tab_order@,
            order: self.order,
            today: self.today,
            tab_frecency: self.tab_frecency@,
            tab_touched: self.tab_touched@,
            birth_touched: self.birth_touched@,
            renamed: self.renamed@,
            own_pane: self.own_pane,
            bind_sent: self.bind_sent@,
            bind_stall: self.bind_stall,
            read_locally: self.read_locally@,
            swap_in_flight: self.swap_in_flight,
            last_painted: self.last_painted,
            walk_spent: self.walk_spent,
            current_tab: self.current_tab,
            birth_announced: self.birth_announced,
            reanchor_owed: self.reanchor_owed,
            organic_pending: self.organic_pending,
            collapsed: self.collapsed,
            peeking: self.peeking,
            pending_collapse: self.pending_collapse,
            collapse_reasserted: self.collapse_reasserted,
            opening: self.opening@,
            cursor: opt_view(self.cursor),
            cursor_gen: self.cursor_gen,
            row_height: self.row_height,
            now: self.now,
            fast_armed_at: self.fast_armed_at,
            swap_owed: self.swap_owed,
            spin_frame: self.spin_frame,
        }
    }
}

/// The state of a model nobody has fed yet.
pub open spec fn spec_initial() -> ModelView {
    ModelView {
        awaiting_hydration: false,
        shell_spawn_pending: false,
        seq: 0,
        agents: Seq::empty(),
        uuid_to_pane: Seq::empty(),
        tabs: Seq::empty(),
        witnessed_dead: Seq::empty(),
        panes: Seq::empty(),
        pane_facts: Seq::empty(),
        probe_backoff: Seq::empty(),
        tab_order: Seq::empty(),
        order: OrderMode::Frecency { half_life_hours: DEFAULT_HALF_LIFE_HOURS },
        today: 0,
        tab_frecency: Seq::empty(),
        tab_touched: Seq::empty(),
        birth_touched: Seq::empty(),
        renamed: Seq::empty(),
        own_pane: None,
        bind_sent: Seq::empty(),
        bind_stall: None,
        read_locally: Seq::empty(),
        swap_in_flight: false,
        last_painted: None,
        walk_spent: None,
        current_tab: None,
        birth_announced: false,
        reanchor_owed: false,
        organic_pending: false,
        collapsed: false,
        peeking: false,
        pending_collapse: None,
        collapse_reasserted: false,
        opening: Seq::empty(),
        cursor: None,
        cursor_gen: 0,
        row_height: RowHeight::Double,
        now: 0,
        fast_armed_at: None,
        swap_owed: 0,
        spin_frame: 0,
    }
}

impl Default for BarModel {
    fn default() -> (r: BarModel)
        ensures
            r@ == spec_initial(),
    {
        BarModel::new()
    }
}

// ---------------------------------------------------------------------------
// Predicates the searches below are stated with.

/// The tab sits at `pos`.
pub open spec fn tab_at(pos: usize) -> spec_fn(TabMeta) -> bool {
    |t: TabMeta| t.position == pos
}

/// The tab has id `id`.
pub open spec fn tab_with_id(id: usize) -> spec_fn(TabMeta) -> bool {
    |t: TabMeta| t.tab_id == id
}

/// The tab is the active one.
pub open spec fn tab_is_active() -> spec_fn(TabMeta) -> bool {
    |t: TabMeta| t.active
}

/// The pane is our own plugin pane.
pub open spec fn own_plugin(own: u32) -> spec_fn(PaneMeta) -> bool {
    |p: PaneMeta| p.is_plugin && p.pane_id == own
}

/// The pane is the terminal pane with this id.
pub open spec fn terminal_with_id(id: u32) -> spec_fn(PaneMeta) -> bool {
    |p: PaneMeta| p.pane_id == id && !p.is_plugin
}

/// The agent's store bind names this tab.
pub open spec fn bound_to(tab_id: usize) -> spec_fn(Agent) -> bool {
    |a: Agent| a.tab_id == Some(tab_id)
}

/// The agent has this uuid.
pub open spec fn agent_with_uuid(uuid: Seq<char>) -> spec_fn(Agent) -> bool {
    |a: Agent| a.uuid@ == uuid
}

// ---------------------------------------------------------------------------
// Queries over the frames.

/// The set of positions a tab frame covers.
pub open spec fn tab_positions(tabs: Seq<TabMeta>) -> Set<usize> {
    Set::new(|pos: usize| exists|i: int| 0 <= i < tabs.len() && (#[trigger] tabs[i]).position == pos)
}

/// The set of tab positions a pane manifest covers.
pub open spec fn pane_positions(panes: Seq<PaneMeta>) -> Set<usize> {
    Set::new(
        |pos: usize| exists|i: int| 0 <= i < panes.len() && (#[trigger] panes[i]).tab_position == pos,
    )
}

/// Our own tab position, per the last pane manifest.
pub open spec fn spec_own_tab_position(v: ModelView) -> Option<usize> {
    match v.own_pane {
        None => None,
        Some(own) => match find(v.panes, own_plugin(own)) {
            Some(p) => Some(p.tab_position),
            None => None,
        },
    }
}

/// The two frames describe the same, non-empty set of tab positions.
pub open spec fn spec_frames_coherent(v: ModelView) -> bool {
    v.tabs.len() > 0 && v.panes.len() > 0 && tab_positions(v.tabs) == pane_positions(v.panes)
}

/// Our tab id: only when the two frames agree.
pub open spec fn spec_own_tab(v: ModelView) -> Option<usize> {
    if !spec_frames_coherent(v) {
        None
    } else {
        match spec_own_tab_position(v) {
            None => None,
            Some(pos) => match find(v.tabs, tab_at(pos)) {
                Some(t) => Some(t.tab_id),
                None => None,
            },
        }
    }
}

/// Whether some tab with this id is active.
pub open spec fn tab_active_with_id(tabs: Seq<TabMeta>, id: usize) -> bool {
    exists|i: int| 0 <= i < tabs.len() && (#[trigger] tabs[i]).tab_id == id && tabs[i].active
}

/// Election, strong form: the frames agree and resolve us into an active tab.
pub open spec fn spec_elects_confirmed(v: ModelView) -> bool {
    match spec_own_tab(v) {
        Some(id) => tab_active_with_id(v.tabs, id),
        None => false,
    }
}

/// Election, weak form: the position join, with no coherence witness.
pub open spec fn spec_elects_presumed(v: ModelView) -> bool {
    match spec_own_tab_position(v) {
        Some(pos) => match find(v.tabs, tab_at(pos)) {
            Some(t) => t.active,
            None => false,
        },
        None => false,
    }
}

/// The tab the last frame says is active.
pub open spec fn spec_active_tab_id(v: ModelView) -> Option<usize> {
    match find(v.tabs, tab_is_active()) {
        Some(t) => Some(t.tab_id),
        None => None,
    }
}

/// Which tab position holds this terminal pane.
pub open spec fn spec_tab_position_of_pane(v: ModelView, pane_id: u32) -> Option<usize> {
    match find(v.panes, terminal_with_id(pane_id)) {
        Some(p) => Some(p.tab_position),
        None => None,
    }
}

/// The agent bound to this tab, per the snapshot.
pub open spec fn spec_agent_in_tab(v: ModelView, tab_id: usize) -> Option<Agent> {
    find(v.agents, bound_to(tab_id))
}

/// The `clave-nav` executor: our own tab, when the beacon names it.
pub open spec fn spec_nav_executor(v: ModelView) -> Option<usize> {
    match spec_own_tab(v) {
        Some(own) => if v.current_tab == Some(own) {
            Some(own)
        } else {
            None
        },
        None => None,
    }
}

/// Our own tab is the one the beacon names.
pub open spec fn spec_own_tab_focused(v: ModelView) -> bool {
    spec_nav_executor(v) is Some
}

/// The beacon names a tab absent from the last tab frame.
pub open spec fn spec_beacon_stranded(v: ModelView) -> bool {
    match v.current_tab {
        Some(id) => !any(v.tabs, tab_with_id(id)),
        None => false,
    }
}

/// A collapsed bar that is not peeking shows the gutter.
pub open spec fn spec_showing_collapsed(v: ModelView) -> bool {
    v.collapsed && !v.peeking
}

impl TermFacts {
    /// An equal copy.
    pub fn copy(&self) -> (r: TermFacts)
        ensures
            r == *self,
    {
        TermFacts {
            cwd: copy_opt_string(&self.cwd),
            last_cmd: copy_opt_string(&self.last_cmd),
            running: self.running,
        }
    }
}

impl TabMeta {
    /// An equal copy.
    pub fn copy(&self) -> (r: TabMeta)
        ensures
            r == *self,
    {
        TabMeta {
            tab_id: self.tab_id,
            position: self.position,
            name: self.name.clone(),
            active: self.active,
            floating_visible: self.floating_visible,
        }
    }
}

impl BarModel {
    /// A model nobody has fed yet.
    pub fn new() -> (r: BarModel)
        ensures
            r@ == spec_initial(),
    {
        BarModel {
            awaiting_hydration: false,
            shell_spawn_pending: false,
            seq: 0,
            agents: Vec::new(),
            uuid_to_pane: Vec::new(),
            tabs: Vec::new(),
            witnessed_dead: Vec::new(),
            panes: Vec::new(),
            pane_facts: Vec::new(),
            probe_backoff: Vec::new(),
            tab_order: Vec::new(),
            order: OrderMode::default(),
            today: 0,
            tab_frecency: Vec::new(),
            tab_touched: Vec::new(),
            birth_touched: Vec::new(),
            renamed: Vec::new(),
            own_pane: None,
            bind_sent: Vec::new(),
            bind_stall: None,
            read_locally: Vec::new(),
            swap_in_flight: false,
            last_painted: None,
            walk_spent: None,
            current_tab: None,
            birth_announced: false,
            reanchor_owed: false,
            organic_pending: false,
            collapsed: false,
            peeking: false,
            pending_collapse: None,
            collapse_reasserted: false,
            opening: Vec::new(),
            cursor: None,
            cursor_gen: 0,
            row_height: RowHeight::Double,
            now: 0,
            fast_armed_at: None,
            swap_owed: 0,
            spin_frame: 0,
        }
    }

    /// Our own tab position, per the last pane manifest.
    fn own_tab_position(&self) -> (r: Option<usize>)
        ensures
            r == spec_own_tab_position(self@),
    {
        let own = match self.own_pane {
            Some(o) => o,
            None => return None,
        };
        let mut i: usize = 0;
        while i < self.panes.len()
            invariant
                i <= self.panes@.len(),
                self.own_pane == Some(own),
                forall|j: int| 0 <= j < i ==> !own_plugin(own)(#[trigger] self.panes@[j]),
            decreases self.panes.len() - i,
        {
            if self.panes[i].is_plugin && self.panes[i].pane_id == own {
                proof {
                    lemma_find_at(self.panes@, own_plugin(own), i as int);
                }
                return Some(self.panes[i].tab_position);
            }
            i = i + 1;
        }
        proof {
            lemma_find_none(self.panes@, own_plugin(own));
        }
        None
    }

    /// Is `pos` covered by the tab frame?
    fn tab_covers(&self, pos: usize) -> (r: bool)
        ensures
            r == tab_positions(self.tabs@).contains(pos),
    {
        let mut i: usize = 0;
        while i < self.tabs.len()
            invariant
                i <= self.tabs@.len(),
                forall|j: int| 0 <= j < i ==> (#[trigger] self.tabs@[j]).position != pos,
            decreases self.tabs.len() - i,
        {
            if self.tabs[i].position == pos {
                assert(self.tabs@[i as int].position == pos);
                return true;
            }
            i = i + 1;
        }
        false
    }

    /// Is `pos` covered by the pane manifest?
    fn panes_cover(&self, pos: usize) -> (r: bool)
        ensures
            r == pane_positions(self.panes@).contains(pos),
    {
        let mut i: usize = 0;
        while i < self.panes.len()
            invariant
                i <= self.panes@.len(),
                forall|j: int| 0 <= j < i ==> (#[trigger] self.panes@[j]).tab_position != pos,
            decreases self.panes.len() - i,
        {
            if self.panes[i].tab_position == pos {
                assert(self.panes@[i as int].tab_position == pos);
                return true;
            }
            i = i + 1;
        }
        false
    }

    /// The last tab frame and the last pane manifest cover the same tab
    /// positions (and neither is empty).
    pub fn frames_coherent(&self) -> (r: bool)
        ensures
            r == spec_frames_coherent(self@),
    {
        if self.tabs.len() == 0 || self.panes.len() == 0 {
            return false;
        }
        let mut i: usize = 0;
        while i < self.tabs.len()
            invariant
                i <= self.tabs@.len(),
                forall|j: int|
                    0 <= j < i ==> pane_positions(self.panes@).contains(
                        (#[trigger] self.tabs@[j]).position,
                    ),
            decreases self.tabs.len() - i,
        {
            if !self.panes_cover(self.tabs[i].position) {
                assert(tab_positions(self.tabs@).contains(self.tabs@[i as int].position));
                return false;
            }
            i = i + 1;
        }
        let mut k: usize = 0;
        while k < self.panes.len()
            invariant
                k <= self.panes@.len(),
                forall|j: int|
                    0 <= j < k ==> tab_positions(self.tabs@).contains(
                        (#[trigger] self.panes@[j]).tab_position,
                    ),
            decreases self.panes.len() - k,
        {
            if !self.tab_covers(self.panes[k].tab_position) {
                assert(pane_positions(self.panes@).contains(self.panes@[k as int].tab_position));
                return false;
            }
            k = k + 1;
        }
        assert(tab_positions(self.tabs@) =~= pane_positions(self.panes@)) by {
            assert forall|pos: usize| tab_positions(self.tabs@).contains(pos) implies pane_positions(
                self.panes@,
            ).contains(pos) by {
                let j = choose|j: int|
                    0 <= j < self.tabs@.len() && (#[trigger] self.tabs@[j]).position == pos;
                assert(pane_positions(self.panes@).contains(self.tabs@[j].position));
            }
            assert forall|pos: usize| pane_positions(self.panes@).contains(pos) implies tab_positions(
                self.tabs@,
            ).contains(pos) by {
                let j = choose|j: int|
                    0 <= j < self.panes@.len() && (#[trigger] self.panes@[j]).tab_position == pos;
                assert(tab_positions(self.tabs@).contains(self.panes@[j].tab_position));
            }
        }
        true
    }

    /// The first tab at `pos`, as an index.
    fn tab_index_at(&self, pos: usize) -> (r: Option<usize>)
        ensures
            match r {
                Some(i) => i < self.tabs@.len() && find(self.tabs@, tab_at(pos)) == Some(
                    self.tabs@[i as int],
                ),
                None => find(self.tabs@, tab_at(pos)) is None,
            },
    {
        let mut i: usize = 0;
        while i < self.tabs.len()
            invariant
                i <= self.tabs@.len(),
                forall|j: int| 0 <= j < i ==> !tab_at(pos)(#[trigger] self.tabs@[j]),
            decreases self.tabs.len() - i,
        {
            if self.tabs[i].position == pos {
                proof {
                    lemma_find_at(self.tabs@, tab_at(pos), i as int);
                }
                return Some(i);
            }
            i = i + 1;
        }
        proof {
            lemma_find_none(self.tabs@, tab_at(pos));
        }
        None
    }

    /// The first tab with this id, as an index.
    fn tab_index_of(&self, id: usize) -> (r: Option<usize>)
        ensures
            match r {
                Some(i) => i < self.tabs@.len() && find(self.tabs@, tab_with_id(id)) == Some(
                    self.tabs@[i as int],
                ) && any(self.tabs@, tab_with_id(id)),
                None => find(self.tabs@, tab_with_id(id)) is None && !any(
                    self.tabs@,
                    tab_with_id(id),
                ),
            },
    {
        let mut i: usize = 0;
        while i < self.tabs.len()
            invariant
                i <= self.tabs@.len(),
                forall|j: int| 0 <= j < i ==> !tab_with_id(id)(#[trigger] self.tabs@[j]),
            decreases self.tabs.len() - i,
        {
            if self.tabs[i].tab_id == id {
                proof {
                    lemma_find_at(self.tabs@, tab_with_id(id), i as int);
                    lemma_any_at(self.tabs@, tab_with_id(id), i as int);
                }
                return Some(i);
            }
            i = i + 1;
        }
        proof {
            lemma_find_none(self.tabs@, tab_with_id(id));
        }
        None
    }

    /// Our tab id: `Some` only when the two frames agree.
    pub fn own_tab(&self) -> (r: Option<usize>)
        ensures
            r == spec_own_tab(self@),
    {
        if !self.frames_coherent() {
            return None;
        }
        let pos = match self.own_tab_position() {
            Some(p) => p,
            None => return None,
        };
        match self.tab_index_at(pos) {
            Some(i) => Some(self.tabs[i].tab_id),
            None => None,
        }
    }

    /// Whether some tab with this id is active.
    fn active_with_id(&self, id: usize) -> (r: bool)
        ensures
            r == tab_active_with_id(self.tabs@, id),
    {
        let mut i: usize = 0;
        while i < self.tabs.len()
            invariant
                i <= self.tabs@.len(),
                forall|j: int|
                    0 <= j < i ==> !((#[trigger] self.tabs@[j]).tab_id == id && self.tabs@[j].active),
            decreases self.tabs.len() - i,
        {
            if self.tabs[i].tab_id == id && self.tabs[i].active {
                assert(self.tabs@[i as int].tab_id == id);
                return true;
            }
            i = i + 1;
        }
        false
    }

    /// Election, strong form: the frames agree and the tab they resolve us
    /// into is the active one.
    pub fn elects_confirmed(&self) -> (r: bool)
        ensures
            r == spec_elects_confirmed(self@),
    {
        match self.own_tab() {
            Some(id) => self.active_with_id(id),
            None => false,
        }
    }

    /// Election, weak form: the position join, with no coherence witness.
    pub fn elects_presumed(&self) -> (r: bool)
        ensures
            r == spec_elects_presumed(self@),
    {
        match self.own_tab_position() {
            Some(pos) => match self.tab_index_at(pos) {
                Some(i) => self.tabs[i].active,
                None => false,
            },
            None => false,
        }
    }

    /// The tab zellij's last frame says is active.
    pub fn active_tab_id(&self) -> (r: Option<usize>)
        ensures
            r == spec_active_tab_id(self@),
    {
        match self.active_index() {
            Some(i) => Some(self.tabs[i].tab_id),
            None => None,
        }
    }

    /// The first active tab, as an index.
    fn active_index(&self) -> (r: Option<usize>)
        ensures
            match r {
                Some(i) => i < self.tabs@.len() && find(self.tabs@, tab_is_active()) == Some(
                    self.tabs@[i as int],
                ),
                None => find(self.tabs@, tab_is_active()) is None,
            },
    {
        let mut i: usize = 0;
        while i < self.tabs.len()
            invariant
                i <= self.tabs@.len(),
                forall|j: int| 0 <= j < i ==> !tab_is_active()(#[trigger] self.tabs@[j]),
            decreases self.tabs.len() - i,
        {
            if self.tabs[i].active {
                proof {
                    lemma_find_at(self.tabs@, tab_is_active(), i as int);
                }
                return Some(i);
            }
            i = i + 1;
        }
        proof {
            lemma_find_none(self.tabs@, tab_is_active());
        }
        None
    }

    /// Which tab position holds this terminal pane.
    fn tab_position_of_pane(&self, pane_id: u32) -> (r: Option<usize>)
        ensures
            r == spec_tab_position_of_pane(self@, pane_id),
    {
        let mut i: usize = 0;
        while i < self.panes.len()
            invariant
                i <= self.panes@.len(),
                forall|j: int| 0 <= j < i ==> !terminal_with_id(pane_id)(#[trigger] self.panes@[j]),
            decreases self.panes.len() - i,
        {
            if self.panes[i].pane_id == pane_id && !self.panes[i].is_plugin {
                proof {
                    lemma_find_at(self.panes@, terminal_with_id(pane_id), i as int);
                }
                return Some(self.panes[i].tab_position);
            }
            i = i + 1;
        }
        proof {
            lemma_find_none(self.panes@, terminal_with_id(pane_id));
        }
        None
    }

    /// The index of the agent bound to this tab.
    fn agent_index_in_tab(&self, tab_id: usize) -> (r: Option<usize>)
        ensures
            match r {
                Some(i) => i < self.agents@.len() && spec_agent_in_tab(self@, tab_id) == Some(
                    self.agents@[i as int],
                ),
                None => spec_agent_in_tab(self@, tab_id) is None,
            },
    {
        let mut i: usize = 0;
        while i < self.agents.len()
            invariant
                i <= self.agents@.len(),
                forall|j: int| 0 <= j < i ==> !bound_to(tab_id)(#[trigger] self.agents@[j]),
            decreases self.agents.len() - i,
        {
            if self.agents[i].tab_id == Some(tab_id) {
                proof {
                    lemma_find_at(self.agents@, bound_to(tab_id), i as int);
                }
                return Some(i);
            }
            i = i + 1;
        }
        proof {
            lemma_find_none(self.agents@, bound_to(tab_id));
        }
        None
    }

    /// The replicated focus truth: the beacon the nav election reads.
    pub fn current_tab(&self) -> (r: Option<usize>)
        ensures
            r == self@.current_tab,
    {
        self.current_tab
    }

    /// The `clave-nav` executor: `Some(own tab)` on the one instance whose
    /// own tab the beacon names, `None` everywhere else.
    pub fn nav_executor(&self) -> (r: Option<usize>)
        ensures
            r == spec_nav_executor(self@),
    {
        match self.own_tab() {
            Some(own) => if self.current_tab == Some(own) {
                Some(own)
            } else {
                None
            },
            None => None,
        }
    }

    /// Is this bar's own tab the one the beacon names?
    pub fn own_tab_focused(&self) -> (r: bool)
        ensures
            r == spec_own_tab_focused(self@),
    {
        self.nav_executor().is_some()
    }

    /// Does the beacon name a tab absent from the last tab frame?
    fn beacon_stranded(&self) -> (r: bool)
        ensures
            r == spec_beacon_stranded(self@),
    {
        match self.current_tab {
            Some(id) => self.tab_index_of(id).is_none(),
            None => false,
        }
    }
}


/// Our own tab shows its floating set.
pub open spec fn spec_own_tab_floating_visible(v: ModelView) -> bool {
    match spec_own_tab(v) {
        Some(own) => exists|i: int|
            0 <= i < v.tabs.len() && (#[trigger] v.tabs[i]).tab_id == own
                && v.tabs[i].floating_visible,
        None => false,
    }
}

/// The walk asks already spent on the intent `want`.
pub open spec fn spent_on(walk: Option<(bool, u8)>, want: bool) -> u8 {
    match walk {
        Some((w, n)) => if w == want {
            n
        } else {
            0
        },
        None => 0,
    }
}

/// One judged paint of the width machine: the new state and what it asks.
pub open spec fn spec_width_effects(v: ModelView, own_cols: Option<usize>) -> (ModelView, Seq<EffectView>) {
    if v.awaiting_hydration {
        (v, Seq::empty())
    } else if !spec_own_tab_focused(v) {
        (ModelView { walk_spent: None, ..v }, Seq::empty())
    } else {
        match own_cols {
            None => (v, Seq::empty()),
            Some(cols) => {
                let v1 = ModelView { last_painted: Some(cols), ..v };
                let want = spec_showing_collapsed(v);
                if spec_own_tab_floating_visible(v) || v.swap_in_flight {
                    (v1, Seq::empty())
                } else if cols == spec_target_cols(v.row_height, want) {
                    (ModelView { walk_spent: None, ..v1 }, Seq::empty())
                } else if spent_on(v.walk_spent, want) >= WALK_ASK_CAP {
                    (v1, Seq::empty())
                } else {
                    (
                        ModelView {
                            walk_spent: Some((want, (spent_on(v.walk_spent, want) + 1) as u8)),
                            swap_in_flight: true,
                            swap_owed: if v.fast_armed_at is Some {
                                2
                            } else {
                                1
                            },
                            ..v1
                        },
                        seq![EffectView::SwapWidth],
                    )
                }
            },
        }
    }
}

/// The cooldown expiry: end the deafness and judge the latest paint once.
pub open spec fn spec_width_cooldown_elapsed(v: ModelView) -> (ModelView, Seq<EffectView>) {
    if !v.swap_in_flight {
        (v, Seq::empty())
    } else {
        spec_width_effects(ModelView { swap_in_flight: false, swap_owed: 0, ..v }, v.last_painted)
    }
}

/// Alt+c: flip the mode, drop any peek, and owe the store the new mode.
pub open spec fn spec_toggle(v: ModelView) -> (ModelView, Seq<EffectView>) {
    (
        ModelView {
            collapsed: !v.collapsed,
            peeking: false,
            pending_collapse: Some(!v.collapsed),
            collapse_reasserted: false,
            ..v
        },
        seq![EffectView::PersistCollapse { collapsed: !v.collapsed }],
    )
}

/// The birth stamp: owed once for a tab the store's order does not carry.
pub open spec fn spec_needs_birth_touch(v: ModelView, tab_id: usize) -> (ModelView, bool) {
    if lookup_usize(v.tab_order, tab_id) is None && !v.birth_touched.contains(tab_id) {
        (ModelView { birth_touched: v.birth_touched.push(tab_id), ..v }, true)
    } else {
        (v, false)
    }
}

/// A beacon: some tab gained focus.
pub open spec fn spec_beacon(v: ModelView, tab_id: usize) -> ModelView {
    ModelView {
        current_tab: Some(tab_id),
        organic_pending: false,
        reanchor_owed: false,
        cursor: None,
        ..v
    }
}

/// The visited pipe: a beacon, plus a peek when the bar is collapsed.
pub open spec fn spec_visited(v: ModelView, tab_id: usize) -> (ModelView, bool) {
    let b = spec_beacon(v, tab_id);
    if !v.collapsed {
        (b, false)
    } else {
        (ModelView { peeking: true, ..b }, true)
    }
}

/// The last peek timer expired.
pub open spec fn spec_peek_expired(v: ModelView) -> (ModelView, bool) {
    if !v.peeking {
        (v, false)
    } else {
        (ModelView { peeking: false, ..v }, true)
    }
}

impl BarModel {
    /// A `clave-visited` beacon landed: some tab gained focus. Elects the
    /// nav executor; never reorders.
    pub fn beacon(&mut self, tab_id: usize)
        ensures
            final(self)@ == spec_beacon(old(self)@, tab_id),
    {
        self.current_tab = Some(tab_id);
        self.organic_pending = false;
        self.reanchor_owed = false;
        self.cursor = None;
    }

    /// The `clave-visited` pipe: beacon, plus peek-on-nav. Returns true when
    /// a peek was armed.
    pub fn visited(&mut self, tab_id: usize) -> (r: bool)
        ensures
            (final(self)@, r) == spec_visited(old(self)@, tab_id),
    {
        self.beacon(tab_id);
        if !self.collapsed {
            return false;
        }
        self.peeking = true;
        true
    }

    /// The last peek timer expired: sink back to the gutter. Returns whether
    /// anything changed.
    pub fn peek_expired(&mut self) -> (r: bool)
        ensures
            (final(self)@, r) == spec_peek_expired(old(self)@),
    {
        if !self.peeking {
            return false;
        }
        self.peeking = false;
        true
    }

    /// Alt+o's `clave-organic` pipe: arm one announce on the next tab frame,
    /// and spend the dormant selection.
    pub fn set_organic_pending(&mut self)
        ensures
            final(self)@ == (ModelView { organic_pending: true, cursor: None, ..old(self)@ }),
    {
        self.organic_pending = true;
        self.cursor = None;
    }

    /// Should this instance fire `clave touch` for this tab? True at most
    /// once per tab, and never for a tab the store's order already carries.
    pub fn needs_birth_touch(&mut self, tab_id: usize) -> (r: bool)
        ensures
            (final(self)@, r) == spec_needs_birth_touch(old(self)@, tab_id),
    {
        if get_usize(&self.tab_order, tab_id).is_some() {
            return false;
        }
        if contains_usize(&self.birth_touched, tab_id) {
            return false;
        }
        self.birth_touched.push(tab_id);
        true
    }

    /// Record our plugin pane id.
    pub fn set_own_pane(&mut self, plugin_pane_id: u32)
        ensures
            final(self)@ == (ModelView { own_pane: Some(plugin_pane_id), ..old(self)@ }),
    {
        self.own_pane = Some(plugin_pane_id);
    }

    /// Set the row geometry this bar renders.
    pub fn set_row_height(&mut self, row_height: RowHeight)
        ensures
            final(self)@ == (ModelView { row_height, ..old(self)@ }),
    {
        self.row_height = row_height;
    }

    /// The geometry this bar draws.
    pub fn row_height(&self) -> (r: RowHeight)
        ensures
            r == self@.row_height,
    {
        self.row_height
    }

    /// The shell's wall clock, set before every render.
    pub fn tick(&mut self, now: u64)
        ensures
            final(self)@ == (ModelView { now, ..old(self)@ }),
    {
        self.now = now;
    }

    /// Mark this model as awaiting its first snapshot.
    pub fn await_hydration(&mut self)
        ensures
            final(self)@ == (ModelView { awaiting_hydration: true, ..old(self)@ }),
    {
        self.awaiting_hydration = true;
    }

    /// Alt+c: flip between the template width and the glyph gutter, and
    /// book the absolute mode this instance now owes the store.
    pub fn toggle(&mut self) -> (r: Vec<Effect>)
        ensures
            (final(self)@, fx_view(r@)) == spec_toggle(old(self)@),
    {
        self.collapsed = !self.collapsed;
        self.peeking = false;
        self.pending_collapse = Some(self.collapsed);
        self.collapse_reasserted = false;
        let mut fx: Vec<Effect> = Vec::new();
        fx.push(Effect::PersistCollapse { collapsed: self.collapsed });
        assert(fx_view(fx@) =~= seq![EffectView::PersistCollapse { collapsed: self.collapsed }]);
        fx
    }

    /// The snapshot-authoritative flip, on change only.
    fn heal_collapse(&mut self, collapsed: bool)
        ensures
            final(self)@ == (if old(self)@.collapsed != collapsed {
                ModelView { collapsed, peeking: false, ..old(self)@ }
            } else {
                old(self)@
            }),
    {
        if self.collapsed != collapsed {
            self.collapsed = collapsed;
            self.peeking = false;
        }
    }

    /// A collapsed bar that is not peeking shows the gutter.
    fn showing_collapsed(&self) -> (r: bool)
        ensures
            r == spec_showing_collapsed(self@),
    {
        self.collapsed && !self.peeking
    }

    /// The width profile this bar renders at, chosen by state.
    pub fn widths(&self) -> (r: Widths)
        ensures
            r == (if spec_showing_collapsed(self@) {
                Widths::COLLAPSED
            } else {
                Widths::EXPANDED
            }),
    {
        if self.showing_collapsed() {
            Widths::COLLAPSED
        } else {
            Widths::EXPANDED
        }
    }

    /// The width profile for one paint: during hydration a paint at the
    /// collapsed width picks the collapsed profile.
    pub fn widths_at(&self, cols: usize) -> (r: Widths)
        ensures
            r == (if (self@.awaiting_hydration && cols == spec_target_cols(self@.row_height, true))
                || spec_showing_collapsed(self@) {
                Widths::COLLAPSED
            } else {
                Widths::EXPANDED
            }),
    {
        if self.awaiting_hydration && cols == self.row_height.target_cols(true) {
            return Widths::COLLAPSED;
        }
        self.widths()
    }

    /// Whether the bar's own tab shows its floating set.
    fn own_tab_floating_visible(&self) -> (r: bool)
        ensures
            r == spec_own_tab_floating_visible(self@),
    {
        match self.own_tab() {
            Some(own) => {
                let mut i: usize = 0;
                while i < self.tabs.len()
                    invariant
                        i <= self.tabs@.len(),
                        spec_own_tab(self@) == Some(own),
                        forall|j: int|
                            0 <= j < i ==> !((#[trigger] self.tabs@[j]).tab_id == own
                                && self.tabs@[j].floating_visible),
                    decreases self.tabs.len() - i,
                {
                    if self.tabs[i].tab_id == own && self.tabs[i].floating_visible {
                        assert(self@.tabs[i as int].tab_id == own
                            && self@.tabs[i as int].floating_visible);
                        return true;
                    }
                    i = i + 1;
                }
                false
            },
            None => false,
        }
    }

    /// The width machine: while this pane is painted at a width other than
    /// the one the mode declares and its tab is the focused one, ask for one
    /// switch per judged paint; an ask defers judgement to its cooldown, and
    /// one intent may spend at most `WALK_ASK_CAP` asks.
    #[verifier::spinoff_prover]
    #[verifier::rlimit(50)]
    pub fn width_effects(&mut self, own_cols: Option<usize>) -> (r: Vec<Effect>)
        ensures
            (final(self)@, fx_view(r@)) == spec_width_effects(old(self)@, own_cols),
    {
        if self.awaiting_hydration {
            return no_effects();
        }
        if !self.own_tab_focused() {
            self.walk_spent = None;
            return no_effects();
        }
        let cols = match own_cols {
            Some(c) => c,
            None => return Vec::new(),
        };
        self.last_painted = Some(cols);
        if self.own_tab_floating_visible() {
            return no_effects();
        }
        if self.swap_in_flight {
            return no_effects();
        }
        let want = self.showing_collapsed();
        if cols == self.row_height.target_cols(want) {
            self.walk_spent = None;
            return no_effects();
        }
        let spent: u8 = match self.walk_spent {
            Some((w, n)) => if w == want {
                n
            } else {
                0
            },
            None => 0,
        };
        if spent >= WALK_ASK_CAP {
            return no_effects();
        }
        self.walk_spent = Some((want, spent + 1));
        self.swap_in_flight = true;
        self.swap_owed = if self.fast_armed_at.is_some() {
            2
        } else {
            1
        };
        let mut fx: Vec<Effect> = Vec::new();
        fx.push(Effect::SwapWidth);
        assert(fx_view(fx@) =~= seq![EffectView::SwapWidth]);
        fx
    }

    /// The width cooldown fired: end the deafness and judge the latest
    /// painted width exactly once.
    pub fn width_cooldown_elapsed(&mut self) -> (r: Vec<Effect>)
        ensures
            (final(self)@, fx_view(r@)) == spec_width_cooldown_elapsed(old(self)@),
    {
        if !self.swap_in_flight {
            return no_effects();
        }
        self.swap_in_flight = false;
        self.swap_owed = 0;
        let last = self.last_painted;
        self.width_effects(last)
    }
}


/// The uuid → pane association the snapshot's rows carry, later rows
/// overriding earlier ones.
pub open spec fn spec_pane_map(agents: Seq<Agent>) -> Seq<(String, u32)>
    decreases agents.len(),
{
    if agents.len() == 0 {
        Seq::empty()
    } else {
        let m = spec_pane_map(agents.drop_last());
        match agents.last().pane_id {
            Some(p) => assoc_insert(m, agents.last().uuid, p),
            None => m,
        }
    }
}

/// The registered pane of a uuid.
pub open spec fn spec_pane_of(v: ModelView, uuid: Seq<char>) -> Option<u32> {
    lookup_str(v.uuid_to_pane, uuid)
}

/// No live tab carries the agent's bind, and no registered pane of it is in
/// the manifest.
pub open spec fn spec_is_dormant(v: ModelView, a: Agent) -> bool {
    let tab_live = match a.tab_id {
        Some(id) => any(v.tabs, tab_with_id(id)),
        None => false,
    };
    let pane_live = match spec_pane_of(v, a.uuid@) {
        Some(p) => spec_tab_position_of_pane(v, p) is Some,
        None => false,
    };
    !tab_live && !pane_live
}

/// An in-flight open that has not resolved: its row still exists, is still
/// dormant, and is not stale.
pub open spec fn still_opening(v: ModelView) -> spec_fn(String) -> bool {
    |u: String|
        match find(v.agents, agent_with_uuid(u@)) {
            Some(a) => spec_is_dormant(v, a) && !a.stale,
            None => false,
        }
}

/// The in-flight opens that have not resolved.
#[verifier::opaque]
pub open spec fn pruned_opening(v: ModelView) -> Seq<String> {
    v.opening.filter(still_opening(v))
}

/// Drop the in-flight marks that resolved.
pub open spec fn spec_prune_opening(v: ModelView) -> ModelView {
    ModelView { opening: pruned_opening(v), ..v }
}

/// The tab id is still referenced by the store: a row's bind or an order.
pub open spec fn still_referenced(agents: Seq<Agent>, order: Seq<(usize, u64)>) -> spec_fn(
    usize,
) -> bool {
    |id: usize| any(agents, bound_to(id)) || lookup_usize(order, id) is Some
}

/// The collapse ledger's answer to an accepted snapshot's mode.
pub open spec fn spec_collapse_ledger(v: ModelView, snap_collapsed: bool) -> (ModelView, Seq<EffectView>) {
    match v.pending_collapse {
        Some(want) => if snap_collapsed == want {
            (ModelView { pending_collapse: None, ..v }, Seq::empty())
        } else if !v.collapse_reasserted {
            (
                ModelView { collapse_reasserted: true, ..v },
                seq![EffectView::PersistCollapse { collapsed: want }],
            )
        } else {
            (v, Seq::empty())
        },
        None => if v.collapsed != snap_collapsed {
            (ModelView { collapsed: snap_collapsed, peeking: false, ..v }, Seq::empty())
        } else {
            (v, Seq::empty())
        },
    }
}

/// One row's rename bookkeeping: a bound row whose label differs from the
/// last one we wrote renames its tab; a non-Done row clears its local
/// unread override.
pub open spec fn spec_rename_step(
    a: Agent,
    renamed: Seq<(String, String)>,
    read: Seq<String>,
    fx: Seq<EffectView>,
) -> (Seq<(String, String)>, Seq<String>, Seq<EffectView>) {
    let (renamed1, fx1) = match a.tab_id {
        Some(tab_id) => {
            let same = match lookup_str(renamed, a.uuid@) {
                Some(l) => l@ == a.label@,
                None => false,
            };
            if same {
                (renamed, fx)
            } else {
                (
                    assoc_insert(renamed, a.uuid, a.label),
                    fx.push(EffectView::RenameTab { tab_id, name: a.label@ }),
                )
            }
        },
        None => (renamed, fx),
    };
    let read1 = if a.status != Status::Done {
        without_str(read, a.uuid@)
    } else {
        read
    };
    (renamed1, read1, fx1)
}

/// The rename bookkeeping over a run of rows, in order.
pub open spec fn spec_renames(
    agents: Seq<Agent>,
    renamed: Seq<(String, String)>,
    read: Seq<String>,
    fx: Seq<EffectView>,
) -> (Seq<(String, String)>, Seq<String>, Seq<EffectView>)
    decreases agents.len(),
{
    if agents.len() == 0 {
        (renamed, read, fx)
    } else {
        let (r, d, f) = spec_renames(agents.drop_last(), renamed, read, fx);
        spec_rename_step(agents.last(), r, d, f)
    }
}

/// The snapshot's tables replace the model's, and the death claims the
/// store no longer references are settled.
pub open spec fn spec_replace_tables(v: ModelView, snap: AgentSnapshot) -> ModelView {
    ModelView {
        seq: snap.seq,
        awaiting_hydration: false,
        agents: snap.agents@,
        uuid_to_pane: spec_pane_map(snap.agents@),
        tab_order: snap.tab_order@,
        order: snap.order,
        today: snap.today,
        tab_frecency: snap.tab_frecency@,
        tab_touched: snap.tab_touched@,
        witnessed_dead: v.witnessed_dead.filter(still_referenced(snap.agents@, snap.tab_order@)),
        ..v
    }
}

/// Applying a full-replace snapshot: a snapshot no newer than the last one
/// accepted changes nothing; a newer one replaces the store's tables, runs
/// the collapse ledger, books renames and unread clears, and retires
/// resolved opens.
pub open spec fn spec_apply_snapshot(v: ModelView, snap: AgentSnapshot) -> (ModelView, Seq<EffectView>) {
    if snap.seq <= v.seq {
        (v, Seq::empty())
    } else {
        let v1 = spec_replace_tables(v, snap);
        let (v2, fx) = spec_collapse_ledger(v1, snap.collapsed);
        let (renamed, read, fx2) = spec_renames(v2.agents, v2.renamed, v2.read_locally, fx);
        let v3 = ModelView { renamed, read_locally: read, ..v2 };
        (spec_prune_opening(v3), fx2)
    }
}

/// A register broadcast: bind the uuid to its pane, then retire resolved
/// opens.
pub open spec fn spec_register(v: ModelView, uuid: String, pane_id: u32) -> ModelView {
    spec_prune_opening(ModelView { uuid_to_pane: assoc_insert(v.uuid_to_pane, uuid, pane_id), ..v })
}

impl BarModel {
    /// The registered pane of a uuid.
    fn pane_of(&self, uuid: &String) -> (r: Option<u32>)
        ensures
            r == spec_pane_of(self@, uuid@),
    {
        str_get(&self.uuid_to_pane, uuid)
    }

    /// Dormancy: no live tab carries the bind and no registered pane is in
    /// the manifest.
    fn is_dormant(&self, a: &Agent) -> (r: bool)
        ensures
            r == spec_is_dormant(self@, *a),
    {
        let tab_live = match a.tab_id {
            Some(id) => self.tab_index_of(id).is_some(),
            None => false,
        };
        let pane_live = match self.pane_of(&a.uuid) {
            Some(p) => self.tab_position_of_pane(p).is_some(),
            None => false,
        };
        !tab_live && !pane_live
    }

    /// The index of the row with this uuid.
    fn agent_index_of(&self, uuid: &String) -> (r: Option<usize>)
        ensures
            match r {
                Some(i) => i < self.agents@.len() && find(self.agents@, agent_with_uuid(uuid@))
                    == Some(self.agents@[i as int]),
                None => find(self.agents@, agent_with_uuid(uuid@)) is None,
            },
    {
        let mut i: usize = 0;
        while i < self.agents.len()
            invariant
                i <= self.agents@.len(),
                forall|j: int| 0 <= j < i ==> !agent_with_uuid(uuid@)(#[trigger] self.agents@[j]),
            decreases self.agents.len() - i,
        {
            if self.agents[i].uuid == *uuid {
                proof {
                    lemma_find_at(self.agents@, agent_with_uuid(uuid@), i as int);
                }
                return Some(i);
            }
            i = i + 1;
        }
        proof {
            lemma_find_none(self.agents@, agent_with_uuid(uuid@));
        }
        None
    }

    /// Is this open still unresolved?
    fn is_still_opening(&self, u: &String) -> (r: bool)
        ensures
            r == still_opening(self@)(*u),
    {
        match self.agent_index_of(u) {
            Some(i) => self.is_dormant(&self.agents[i]) && !self.agents[i].stale,
            None => false,
        }
    }

    /// Drop in-flight marks that resolved: the row went live, went stale,
    /// or left the snapshot.
    fn prune_opening(&mut self)
        ensures
            final(self)@ == spec_prune_opening(old(self)@),
    {
        proof {
            reveal(pruned_opening);
        }
        let ghost v = self@;
        let mut kept: Vec<String> = Vec::new();
        let mut i: usize = 0;
        while i < self.opening.len()
            invariant
                self@ == v,
                i <= v.opening.len(),
                kept@ == v.opening.subrange(0, i as int).filter(still_opening(v)),
            decreases self.opening.len() - i,
        {
            proof {
                reveal_with_fuel(Seq::filter, 1);
                assert(v.opening.subrange(0, (i + 1) as int).drop_last() =~= v.opening.subrange(
                    0,
                    i as int,
                ));
                assert(v.opening.subrange(0, (i + 1) as int).last() == v.opening[i as int]);
            }
            if self.is_still_opening(&self.opening[i]) {
                kept.push(self.opening[i].clone());
            }
            i = i + 1;
        }
        assert(v.opening.subrange(0, v.opening.len() as int) =~= v.opening);
        self.opening = kept;
    }

    /// The `clave-register` broadcast: a hint binding a uuid to its pane
    /// until the next accepted snapshot.
    pub fn register(&mut self, uuid: String, pane_id: u32)
        ensures
            final(self)@ == spec_register(old(self)@, uuid, pane_id),
    {
        str_insert(&mut self.uuid_to_pane, uuid, pane_id);
        self.prune_opening();
    }

    /// Rebuild the uuid → pane association from the snapshot's rows.
    fn pane_map_of(agents: &Vec<Agent>) -> (r: Vec<(String, u32)>)
        ensures
            r@ == spec_pane_map(agents@),
    {
        let mut out: Vec<(String, u32)> = Vec::new();
        let mut i: usize = 0;
        while i < agents.len()
            invariant
                i <= agents@.len(),
                out@ == spec_pane_map(agents@.subrange(0, i as int)),
            decreases agents.len() - i,
        {
            proof {
                assert(agents@.subrange(0, (i + 1) as int).drop_last() =~= agents@.subrange(
                    0,
                    i as int,
                ));
                assert(agents@.subrange(0, (i + 1) as int).last() == agents@[i as int]);
            }
            match agents[i].pane_id {
                Some(p) => {
                    str_insert(&mut out, agents[i].uuid.clone(), p);
                },
                None => {},
            }
            i = i + 1;
        }
        assert(agents@.subrange(0, agents@.len() as int) =~= agents@);
        out
    }

    /// Is this tab id still referenced by the (new) store tables?
    fn is_referenced(agents: &Vec<Agent>, order: &Vec<(usize, u64)>, id: usize) -> (r: bool)
        ensures
            r == still_referenced(agents@, order@)(id),
    {
        let mut i: usize = 0;
        while i < agents.len()
            invariant
                i <= agents@.len(),
                forall|j: int| 0 <= j < i ==> !bound_to(id)(#[trigger] agents@[j]),
            decreases agents.len() - i,
        {
            if agents[i].tab_id == Some(id) {
                proof {
                    lemma_any_at(agents@, bound_to(id), i as int);
                }
                return true;
            }
            i = i + 1;
        }
        proof {
            lemma_find_none(agents@, bound_to(id));
        }
        get_usize(order, id).is_some()
    }

    /// Settle the death claims the store no longer references.
    fn settle_claims(&mut self)
        ensures
            final(self)@ == (ModelView {
                witnessed_dead: old(self)@.witnessed_dead.filter(
                    still_referenced(old(self)@.agents, old(self)@.tab_order),
                ),
                ..old(self)@
            }),
    {
        let ghost v = self@;
        let ghost p = still_referenced(v.agents, v.tab_order);
        let mut kept: Vec<usize> = Vec::new();
        let mut i: usize = 0;
        while i < self.witnessed_dead.len()
            invariant
                self@ == v,
                p == still_referenced(v.agents, v.tab_order),
                i <= v.witnessed_dead.len(),
                kept@ == v.witnessed_dead.subrange(0, i as int).filter(p),
            decreases self.witnessed_dead.len() - i,
        {
            proof {
                reveal_with_fuel(Seq::filter, 1);
                assert(v.witnessed_dead.subrange(0, (i + 1) as int).drop_last()
                    =~= v.witnessed_dead.subrange(0, i as int));
                assert(v.witnessed_dead.subrange(0, (i + 1) as int).last()
                    == v.witnessed_dead[i as int]);
            }
            let id = self.witnessed_dead[i];
            if Self::is_referenced(&self.agents, &self.tab_order, id) {
                kept.push(id);
            }
            i = i + 1;
        }
        assert(v.witnessed_dead.subrange(0, v.witnessed_dead.len() as int) =~= v.witnessed_dead);
        self.witnessed_dead = kept;
    }

    /// The collapse ledger's answer to an accepted snapshot's mode.
    fn collapse_ledger(&mut self, snap_collapsed: bool) -> (r: Vec<Effect>)
        ensures
            (final(self)@, fx_view(r@)) == spec_collapse_ledger(old(self)@, snap_collapsed),
    {
        let mut fx: Vec<Effect> = no_effects();
        match self.pending_collapse {
            Some(want) => {
                if snap_collapsed == want {
                    self.pending_collapse = None;
                } else if !self.collapse_reasserted {
                    self.collapse_reasserted = true;
                    fx.push(Effect::PersistCollapse { collapsed: want });
                    assert(fx_view(fx@) =~= seq![EffectView::PersistCollapse { collapsed: want }]);
                }
            },
            None => self.heal_collapse(snap_collapsed),
        }
        fx
    }

    /// Renames and unread clears for every row of the accepted snapshot.
    fn book_renames(
        agents: &Vec<Agent>,
        renamed: &mut Vec<(String, String)>,
        read: &mut Vec<String>,
        fx: &mut Vec<Effect>,
    )
        ensures
            (final(renamed)@, final(read)@, fx_view(final(fx)@)) == spec_renames(
                agents@,
                old(renamed)@,
                old(read)@,
                fx_view(old(fx)@),
            ),
    {
        let ghost r0 = renamed@;
        let ghost d0 = read@;
        let ghost f0 = fx_view(fx@);
        let mut i: usize = 0;
        while i < agents.len()
            invariant
                i <= agents@.len(),
                (renamed@, read@, fx_view(fx@)) == spec_renames(
                    agents@.subrange(0, i as int),
                    r0,
                    d0,
                    f0,
                ),
            decreases agents.len() - i,
        {
            proof {
                assert(agents@.subrange(0, (i + 1) as int).drop_last() =~= agents@.subrange(
                    0,
                    i as int,
                ));
                assert(agents@.subrange(0, (i + 1) as int).last() == agents@[i as int]);
            }
            let a = &agents[i];
            let uuid = a.uuid.clone();
            match a.tab_id {
                Some(tab_id) => {
                    let same = match str_index(renamed, &uuid) {
                        Some(k) => renamed[k].1 == a.label,
                        None => false,
                    };
                    if !same {
                        let label = a.label.clone();
                        str_insert(renamed, uuid.clone(), label.clone());
                        let e = Effect::RenameTab { tab_id, name: label };
                        proof {
                            lemma_fx_push(fx@, e);
                        }
                        fx.push(e);
                    }
                },
                None => {},
            }
            if a.status != Status::Done {
                remove_str(read, &uuid);
            }
            i = i + 1;
        }
        assert(agents@.subrange(0, agents@.len() as int) =~= agents@);
    }

    /// Replace the store's tables from an accepted snapshot and settle the
    /// death claims; returns the snapshot's collapse mode.
    fn replace_tables(&mut self, snap: AgentSnapshot) -> (r: bool)
        ensures
            final(self)@ == spec_replace_tables(old(self)@, snap),
            r == snap.collapsed,
    {
        let ghost v0 = self@;
        let ghost snap0 = snap;
        let AgentSnapshot {
            collapsed,
            seq,
            agents,
            tab_order,
            order,
            today,
            tab_frecency,
            tab_touched,
        } = snap;
        self.seq = seq;
        self.awaiting_hydration = false;
        self.uuid_to_pane = Self::pane_map_of(&agents);
        self.agents = agents;
        self.tab_order = tab_order;
        self.order = order;
        self.today = today;
        self.tab_frecency = tab_frecency;
        self.tab_touched = tab_touched;
        self.settle_claims();
        collapsed
    }

    /// Book the renames and unread clears of the current rows.
    fn renames(&mut self, fx: &mut Vec<Effect>)
        ensures
            ({
                let (renamed, read, f) = spec_renames(
                    old(self)@.agents,
                    old(self)@.renamed,
                    old(self)@.read_locally,
                    fx_view(old(fx)@),
                );
                &&& final(self)@ == (ModelView { renamed, read_locally: read, ..old(self)@ })
                &&& fx_view(final(fx)@) == f
            }),
    {
        Self::book_renames(&self.agents, &mut self.renamed, &mut self.read_locally, fx);
    }

    /// Apply a full-replace snapshot. A snapshot whose `seq` is not newer
    /// than the last accepted one is discarded whole.
    pub fn apply_snapshot(&mut self, snap: AgentSnapshot) -> (r: Vec<Effect>)
        ensures
            (final(self)@, fx_view(r@)) == spec_apply_snapshot(old(self)@, snap),
    {
        if snap.seq <= self.seq {
            return no_effects();
        }
        let collapsed = self.replace_tables(snap);
        let mut fx = self.collapse_ledger(collapsed);
        self.renames(&mut fx);
        self.prune_opening();
        fx
    }
}


/// The ids a tab frame holds.
pub open spec fn tab_ids(tabs: Seq<TabMeta>) -> Set<usize> {
    Set::new(|id: usize| any(tabs, tab_with_id(id)))
}

/// The death claims after a tab frame: ids seen in the outgoing frame and
/// not the incoming one join the claims, and ids alive again leave them. An
/// empty incoming frame witnesses nothing.
pub open spec fn spec_claims_after(
    claims: Seq<usize>,
    outgoing: Seq<TabMeta>,
    incoming: Seq<TabMeta>,
) -> Set<usize> {
    if incoming.len() == 0 {
        claims.to_set()
    } else {
        claims.to_set().union(tab_ids(outgoing)).difference(tab_ids(incoming))
    }
}

/// The beacon bookkeeping of a fresh tab frame: a newborn announces the
/// active tab once, ungated; an Alt+o or a stranded beacon re-anchors it
/// only on the presumed-elected instance; a beacon already naming the
/// active tab spends both triggers.
pub open spec fn spec_announce(v: ModelView, stranded: bool) -> (ModelView, Seq<EffectView>) {
    match spec_active_tab_id(v) {
        None => (v, Seq::empty()),
        Some(active) => if v.current_tab == Some(active) {
            (ModelView { birth_announced: true, organic_pending: false, ..v }, Seq::empty())
        } else if !v.birth_announced {
            (
                ModelView {
                    birth_announced: true,
                    organic_pending: false,
                    current_tab: Some(active),
                    ..v
                },
                seq![EffectView::AnnounceVisit { tab_id: active }],
            )
        } else if (v.organic_pending || stranded) && spec_elects_presumed(v) {
            (
                ModelView { organic_pending: false, current_tab: Some(active), ..v },
                seq![EffectView::ReanchorVisit { tab_id: active }],
            )
        } else {
            (v, Seq::empty())
        },
    }
}

/// The unread clear: a Done agent in the active tab is read, once.
pub open spec fn spec_mark_read(v: ModelView, fx: Seq<EffectView>) -> (ModelView, Seq<EffectView>) {
    match find(v.tabs, tab_is_active()) {
        Some(t) => match spec_agent_in_tab(v, t.tab_id) {
            Some(a) => if a.status == Status::Done && !has_str(v.read_locally, a.uuid@) {
                (
                    ModelView { read_locally: v.read_locally.push(a.uuid), ..v },
                    fx.push(EffectView::MarkRead { uuid: a.uuid@ }),
                )
            } else {
                (v, fx)
            },
            None => (v, fx),
        },
        None => (v, fx),
    }
}

/// Applying zellij's tab frame, given the death claims it leaves.
pub open spec fn spec_apply_tabs(v: ModelView, tabs: Seq<TabMeta>, claims: Seq<usize>) -> (
    ModelView,
    Seq<EffectView>,
) {
    let v1 = ModelView { tabs, witnessed_dead: claims, ..v };
    let (v4, fx2) = spec_after_frame(v1);
    (spec_prune_opening(v4), fx2)
}

/// The beacon and unread bookkeeping once a tab frame is stored.
pub open spec fn spec_after_frame(v1: ModelView) -> (ModelView, Seq<EffectView>) {
    let stranded = spec_beacon_stranded(v1);
    let (v2, fx) = spec_announce(v1, stranded);
    let v3 = ModelView { reanchor_owed: spec_beacon_stranded(v2), ..v2 };
    spec_mark_read(v3, fx)
}

/// The terminal pane ids a manifest holds.
pub open spec fn live_terminals(panes: Seq<PaneMeta>) -> Set<u32> {
    Set::new(|id: u32| any(panes, terminal_with_id(id)))
}

/// The facts entry's pane is still in the manifest.
pub open spec fn fact_live(panes: Seq<PaneMeta>) -> spec_fn((u32, TermFacts)) -> bool {
    |e: (u32, TermFacts)| live_terminals(panes).contains(e.0)
}

/// The stand-down survives one more manifest.
pub open spec fn backoff_survives(panes: Seq<PaneMeta>) -> spec_fn((u32, u8)) -> bool {
    |e: (u32, u8)| e.1 > 1 && live_terminals(panes).contains(e.0)
}

/// One manifest spent off a stand-down.
pub open spec fn backoff_decayed(e: (u32, u8)) -> (u32, u8) {
    (e.0, (e.1 - 1) as u8)
}

/// Applying zellij's pane manifest, and paying any re-anchor owed.
pub open spec fn spec_apply_panes(v: ModelView, panes: Seq<PaneMeta>) -> (ModelView, Seq<EffectView>) {
    let v1 = ModelView {
        panes,
        pane_facts: v.pane_facts.filter(fact_live(panes)),
        probe_backoff: v.probe_backoff.filter(backoff_survives(panes)).map_values(
            |e: (u32, u8)| backoff_decayed(e),
        ),
        shell_spawn_pending: false,
        ..v
    };
    let v2 = spec_prune_opening(v1);
    if v2.reanchor_owed && spec_elects_confirmed(v2) {
        let own = spec_own_tab(v2)->0;
        (
            ModelView {
                reanchor_owed: false,
                organic_pending: false,
                current_tab: Some(own),
                ..v2
            },
            seq![EffectView::ReanchorVisit { tab_id: own }],
        )
    } else {
        (v2, Seq::empty())
    }
}

/// The ids this instance saw die and the store still references.
pub open spec fn spec_observed_stale(v: ModelView) -> Set<usize> {
    Set::new(
        |id: usize|
            !tab_ids(v.tabs).contains(id) && v.witnessed_dead.contains(id) && (any(
                v.agents,
                bound_to(id),
            ) || lookup_usize(v.tab_order, id) is Some),
    )
}

/// The prune this instance may claim: the observed-stale ids, sorted, when
/// there are any and the tab frame is not empty.
#[verifier::opaque]
pub open spec fn spec_prune_effect(v: ModelView) -> Option<EffectView> {
    if v.tabs.len() == 0 || spec_observed_stale(v).is_empty() {
        None
    } else {
        Some(EffectView::PruneTabs { stale_ids: sorted_listing(spec_observed_stale(v)) })
    }
}

impl BarModel {
    /// Whether a tab frame holds this id.
    fn frame_has(tabs: &Vec<TabMeta>, id: usize) -> (r: bool)
        ensures
            r == tab_ids(tabs@).contains(id),
    {
        let mut i: usize = 0;
        while i < tabs.len()
            invariant
                i <= tabs@.len(),
                forall|j: int| 0 <= j < i ==> !tab_with_id(id)(#[trigger] tabs@[j]),
            decreases tabs.len() - i,
        {
            if tabs[i].tab_id == id {
                proof {
                    lemma_any_at(tabs@, tab_with_id(id), i as int);
                }
                return true;
            }
            i = i + 1;
        }
        proof {
            lemma_find_none(tabs@, tab_with_id(id));
        }
        false
    }

    /// The death claims after replacing the outgoing frame with `incoming`.
    fn claims_after(&self, incoming: &Vec<TabMeta>) -> (r: Vec<usize>)
        ensures
            r@.to_set() == spec_claims_after(self@.witnessed_dead, self@.tabs, incoming@),
    {
        if incoming.len() == 0 {
            let mut same: Vec<usize> = Vec::new();
            let mut i: usize = 0;
            while i < self.witnessed_dead.len()
                invariant
                    i <= self.witnessed_dead@.len(),
                    same@ == self.witnessed_dead@.subrange(0, i as int),
                decreases self.witnessed_dead.len() - i,
            {
                same.push(self.witnessed_dead[i]);
                assert(self.witnessed_dead@.subrange(0, (i + 1) as int)
                    =~= self.witnessed_dead@.subrange(0, i as int).push(
                    self.witnessed_dead@[i as int],
                ));
                i = i + 1;
            }
            assert(self.witnessed_dead@.subrange(0, self.witnessed_dead@.len() as int)
                =~= self.witnessed_dead@);
            return same;
        }
        let ghost want = spec_claims_after(self@.witnessed_dead, self@.tabs, incoming@);
        let mut out: Vec<usize> = Vec::new();
        let mut i: usize = 0;
        while i < self.witnessed_dead.len()
            invariant
                incoming@.len() > 0,
                i <= self.witnessed_dead@.len(),
                want == spec_claims_after(self@.witnessed_dead, self@.tabs, incoming@),
                out@.to_set().subset_of(want),
                forall|j: int|
                    0 <= j < i && !tab_ids(incoming@).contains(self.witnessed_dead@[j])
                        ==> out@.contains(#[trigger] self.witnessed_dead@[j]),
            decreases self.witnessed_dead.len() - i,
        {
            let id = self.witnessed_dead[i];
            if !Self::frame_has(incoming, id) {
                assert(self@.witnessed_dead.to_set().contains(id));
                proof {
                    lemma_push_contains(out@, id);
                }
                out.push(id);
            }
            i = i + 1;
        }
        let mut k: usize = 0;
        while k < self.tabs.len()
            invariant
                incoming@.len() > 0,
                k <= self.tabs@.len(),
                want == spec_claims_after(self@.witnessed_dead, self@.tabs, incoming@),
                out@.to_set().subset_of(want),
                forall|j: int|
                    0 <= j < self.witnessed_dead@.len() && !tab_ids(incoming@).contains(
                        self.witnessed_dead@[j],
                    ) ==> out@.contains(#[trigger] self.witnessed_dead@[j]),
                forall|j: int|
                    0 <= j < k && !tab_ids(incoming@).contains(self.tabs@[j].tab_id)
                        ==> out@.contains(#[trigger] self.tabs@[j].tab_id),
            decreases self.tabs.len() - k,
        {
            let id = self.tabs[k].tab_id;
            if !Self::frame_has(incoming, id) {
                proof {
                    lemma_any_at(self@.tabs, tab_with_id(id), k as int);
                }
                assert(tab_ids(self@.tabs).contains(id));
                proof {
                    lemma_push_contains(out@, id);
                }
                out.push(id);
            }
            k = k + 1;
        }
        assert forall|x: usize| want.contains(x) implies out@.to_set().contains(x) by {
            if self@.witnessed_dead.to_set().contains(x) {
                let j = choose|j: int|
                    0 <= j < self.witnessed_dead@.len() && self.witnessed_dead@[j] == x;
                assert(out@.contains(self.witnessed_dead@[j]));
            } else {
                assert(tab_ids(self@.tabs).contains(x));
                lemma_find_some(self@.tabs, tab_with_id(x));
                let j = crate::seqs::find_index(self@.tabs, tab_with_id(x));
                assert(out@.contains(self.tabs@[j].tab_id));
            }
        }
        assert(out@.to_set() =~= want);
        out
    }

    /// The beacon bookkeeping of a fresh tab frame.
    #[verifier::rlimit(50)]
    fn announce(&mut self, stranded: bool) -> (r: Vec<Effect>)
        ensures
            (final(self)@, fx_view(r@)) == spec_announce(old(self)@, stranded),
    {
        let mut fx = no_effects();
        if let Some(active) = self.active_tab_id() {
            if self.current_tab == Some(active) {
                self.birth_announced = true;
                self.organic_pending = false;
            } else if !self.birth_announced {
                self.birth_announced = true;
                self.organic_pending = false;
                self.current_tab = Some(active);
                let e = Effect::AnnounceVisit { tab_id: active };
                proof {
                    lemma_fx_push(fx@, e);
                }
                fx.push(e);
            } else if (self.organic_pending || stranded) && self.elects_presumed() {
                self.organic_pending = false;
                self.current_tab = Some(active);
                let e = Effect::ReanchorVisit { tab_id: active };
                proof {
                    lemma_fx_push(fx@, e);
                }
                fx.push(e);
            }
        }
        fx
    }

    /// The unread clear for the active tab's Done agent.
    fn mark_read(&mut self, fx: &mut Vec<Effect>)
        ensures
            (final(self)@, fx_view(final(fx)@)) == spec_mark_read(old(self)@, fx_view(old(fx)@)),
    {
        if let Some(t) = self.active_index() {
            let tab_id = self.tabs[t].tab_id;
            if let Some(ai) = self.agent_index_in_tab(tab_id) {
                if self.agents[ai].status == Status::Done {
                    let uuid = self.agents[ai].uuid.clone();
                    if !contains_str(&self.read_locally, &uuid) {
                        self.read_locally.push(uuid.clone());
                        let e = Effect::MarkRead { uuid };
                        proof {
                            lemma_fx_push(fx@, e);
                        }
                        fx.push(e);
                    }
                }
            }
        }
    }

    /// The beacon and unread bookkeeping once a tab frame is stored.
    fn after_frame(&mut self) -> (r: Vec<Effect>)
        ensures
            (final(self)@, fx_view(r@)) == spec_after_frame(old(self)@),
    {
        let ghost v1 = self@;
        let stranded = self.beacon_stranded();
        let mut fx = self.announce(stranded);
        let ghost v2 = self@;
        let ghost f2 = fx_view(fx@);
        self.reanchor_owed = self.beacon_stranded();
        let ghost v3 = self@;
        assert(v3 == ModelView { reanchor_owed: spec_beacon_stranded(v2), ..v2 });
        self.mark_read(&mut fx);
        fx
    }

    /// Apply zellij's tab frame (the row set): witness deaths, keep the
    /// beacon anchored, clear the active tab's unread mark.
    #[verifier::rlimit(50)]
    pub fn apply_tabs(&mut self, tabs: Vec<TabMeta>) -> (r: Vec<Effect>)
        ensures
            final(self)@.witnessed_dead.to_set() == spec_claims_after(
                old(self)@.witnessed_dead,
                old(self)@.tabs,
                tabs@,
            ),
            (final(self)@, fx_view(r@)) == spec_apply_tabs(
                old(self)@,
                tabs@,
                final(self)@.witnessed_dead,
            ),
    {
        let ghost v0 = self@;
        let ghost tabs0 = tabs@;
        let claims = self.claims_after(&tabs);
        self.witnessed_dead = claims;
        self.tabs = tabs;
        let ghost v1 = self@;
        assert(v1 == ModelView { tabs: tabs0, witnessed_dead: v1.witnessed_dead, ..v0 });
        let fx = self.after_frame();
        self.prune_opening();
        fx
    }

    /// Whether the manifest holds this terminal pane id.
    fn manifest_has(&self, id: u32) -> (r: bool)
        ensures
            r == live_terminals(self@.panes).contains(id),
    {
        let r = self.tab_position_of_pane(id).is_some();
        proof {
            lemma_find_iff(self@.panes, terminal_with_id(id));
        }
        r
    }

    /// Drop the facts and decay the stand-downs of panes the manifest no
    /// longer holds.
    fn prune_pane_state(&mut self)
        ensures
            final(self)@ == (ModelView {
                pane_facts: old(self)@.pane_facts.filter(fact_live(old(self)@.panes)),
                probe_backoff: old(self)@.probe_backoff.filter(
                    backoff_survives(old(self)@.panes),
                ).map_values(|e: (u32, u8)| backoff_decayed(e)),
                ..old(self)@
            }),
    {
        let ghost v = self@;
        let mut facts: Vec<(u32, TermFacts)> = Vec::new();
        let mut i: usize = 0;
        while i < self.pane_facts.len()
            invariant
                self@ == v,
                i <= v.pane_facts.len(),
                facts@ == v.pane_facts.subrange(0, i as int).filter(fact_live(v.panes)),
            decreases self.pane_facts.len() - i,
        {
            proof {
                reveal_with_fuel(Seq::filter, 1);
                assert(v.pane_facts.subrange(0, (i + 1) as int).drop_last()
                    =~= v.pane_facts.subrange(0, i as int));
                assert(v.pane_facts.subrange(0, (i + 1) as int).last() == v.pane_facts[i as int]);
            }
            if self.manifest_has(self.pane_facts[i].0) {
                facts.push((self.pane_facts[i].0, self.pane_facts[i].1.copy()));
            }
            i = i + 1;
        }
        assert(v.pane_facts.subrange(0, v.pane_facts.len() as int) =~= v.pane_facts);
        let mut backoff: Vec<(u32, u8)> = Vec::new();
        let ghost kept = Seq::<(u32, u8)>::empty();
        let mut k: usize = 0;
        while k < self.probe_backoff.len()
            invariant
                self@ == v,
                k <= v.probe_backoff.len(),
                backoff@ == v.probe_backoff.subrange(0, k as int).filter(
                    backoff_survives(v.panes),
                ).map_values(|e: (u32, u8)| backoff_decayed(e)),
            decreases self.probe_backoff.len() - k,
        {
            proof {
                reveal_with_fuel(Seq::filter, 1);
                assert(v.probe_backoff.subrange(0, (k + 1) as int).drop_last()
                    =~= v.probe_backoff.subrange(0, k as int));
                assert(v.probe_backoff.subrange(0, (k + 1) as int).last()
                    == v.probe_backoff[k as int]);
            }
            let (id, n) = self.probe_backoff[k];
            if n > 1 && self.manifest_has(id) {
                let ghost before = v.probe_backoff.subrange(0, k as int).filter(
                    backoff_survives(v.panes),
                );
                backoff.push((id, n - 1));
                proof {
                    assert(v.probe_backoff.subrange(0, (k + 1) as int).filter(
                        backoff_survives(v.panes),
                    ) == before.push((id, n)));
                    assert(before.push((id, n)).map_values(|e: (u32, u8)| backoff_decayed(e))
                        =~= before.map_values(|e: (u32, u8)| backoff_decayed(e)).push(
                        (id, (n - 1) as u8),
                    ));
                }
            }
            k = k + 1;
        }
        assert(v.probe_backoff.subrange(0, v.probe_backoff.len() as int) =~= v.probe_backoff);
        self.pane_facts = facts;
        self.probe_backoff = backoff;
    }

    /// Apply zellij's pane manifest, and pay any re-anchor this instance
    /// owes once the frames agree.
    pub fn apply_panes(&mut self, panes: Vec<PaneMeta>) -> (r: Vec<Effect>)
        ensures
            (final(self)@, fx_view(r@)) == spec_apply_panes(old(self)@, panes@),
    {
        let ghost v = self@;
        self.panes = panes;
        self.prune_pane_state();
        self.shell_spawn_pending = false;
        self.prune_opening();
        if self.reanchor_owed && self.elects_confirmed() {
            if let Some(own) = self.own_tab() {
                self.reanchor_owed = false;
                self.organic_pending = false;
                self.current_tab = Some(own);
                let mut fx = no_effects();
                let e = Effect::ReanchorVisit { tab_id: own };
                proof {
                    lemma_fx_push(fx@, e);
                }
                fx.push(e);
                return fx;
            }
        }
        no_effects()
    }

    /// The prune this instance may claim: only ids it saw leave a delivered
    /// tab frame and the store still references; never against an empty
    /// frame.
    fn prune_effect(&self) -> (r: Option<Effect>)
        ensures
            match r {
                Some(e) => spec_prune_effect(self@) == Some(e@),
                None => spec_prune_effect(self@) is None,
            },
    {
        proof {
            reveal(spec_prune_effect);
        }
        if self.tabs.len() == 0 {
            return None;
        }
        let ghost want = spec_observed_stale(self@);
        let mut stale: Vec<usize> = Vec::new();
        let mut i: usize = 0;
        while i < self.agents.len()
            invariant
                i <= self.agents@.len(),
                want == spec_observed_stale(self@),
                increasing(stale@),
                stale@.to_set().subset_of(want),
                forall|j: int|
                    0 <= j < i && (#[trigger] self.agents@[j]).tab_id is Some && want.contains(
                        self.agents@[j].tab_id->0,
                    ) ==> stale@.contains(self.agents@[j].tab_id->0),
            decreases self.agents.len() - i,
        {
            if let Some(id) = self.agents[i].tab_id {
                if !Self::frame_has(&self.tabs, id) && contains_usize(&self.witnessed_dead, id) {
                    proof {
                        lemma_any_at(self@.agents, bound_to(id), i as int);
                        assert(want.contains(id));
                    }
                    let ghost before = stale@;
                    insert_sorted(&mut stale, id);
                    proof {
                        assert(stale@.to_set().contains(id));
                        assert forall|x: usize| before.contains(x) implies stale@.contains(x) by {
                            assert(before.to_set().contains(x));
                            assert(stale@.to_set().contains(x));
                        }
                    }
                }
            }
            i = i + 1;
        }
        let mut k: usize = 0;
        while k < self.tab_order.len()
            invariant
                k <= self.tab_order@.len(),
                want == spec_observed_stale(self@),
                increasing(stale@),
                stale@.to_set().subset_of(want),
                forall|j: int|
                    0 <= j < self.agents@.len() && (#[trigger] self.agents@[j]).tab_id is Some
                        && want.contains(self.agents@[j].tab_id->0) ==> stale@.contains(
                        self.agents@[j].tab_id->0,
                    ),
                forall|j: int|
                    0 <= j < k && want.contains((#[trigger] self.tab_order@[j]).0)
                        ==> stale@.contains(self.tab_order@[j].0),
            decreases self.tab_order.len() - k,
        {
            let id = self.tab_order[k].0;
            if !Self::frame_has(&self.tabs, id) && contains_usize(&self.witnessed_dead, id) {
                proof {
                    lemma_any_at(self@.tab_order, crate::seqs::key_usize::<u64>(id), k as int);
                    lemma_find_some(self@.tab_order, crate::seqs::key_usize::<u64>(id));
                    assert(want.contains(id));
                }
                let ghost before = stale@;
                insert_sorted(&mut stale, id);
                proof {
                    assert(stale@.to_set().contains(id));
                    assert forall|x: usize| before.contains(x) implies stale@.contains(x) by {
                        assert(before.to_set().contains(x));
                        assert(stale@.to_set().contains(x));
                    }
                }
            }
            k = k + 1;
        }
        proof {
            assert forall|x: usize| want.contains(x) implies stale@.to_set().contains(x) by {
                if any(self@.agents, bound_to(x)) {
                    lemma_find_some(self@.agents, bound_to(x));
                    let j = crate::seqs::find_index(self@.agents, bound_to(x));
                    assert(self.agents@[j].tab_id == Some(x));
                    assert(stale@.contains(self.agents@[j].tab_id->0));
                } else {
                    assert(lookup_usize(self@.tab_order, x) is Some);
                    lemma_find_iff(self@.tab_order, crate::seqs::key_usize::<u64>(x));
                    lemma_find_some(self@.tab_order, crate::seqs::key_usize::<u64>(x));
                    let j = crate::seqs::find_index(
                        self@.tab_order,
                        crate::seqs::key_usize::<u64>(x),
                    );
                    assert(self.tab_order@[j].0 == x);
                    assert(stale@.contains(self.tab_order@[j].0));
                }
            }
            assert(stale@.to_set() =~= want);
            lemma_is_sorted_listing(stale@);
        }
        if stale.len() == 0 {
            proof {
                assert forall|x: usize| !want.contains(x) by {
                    if want.contains(x) {
                        assert(stale@.to_set().contains(x));
                    }
                }
                assert(want =~= Set::<usize>::empty());
            }
            return None;
        }
        proof {
            assert(want.contains(stale@[0]));
        }
        Some(Effect::PruneTabs { stale_ids: stale })
    }
}


/// What one pass of the bind leg decided, row by row.
pub ghost struct BindScan {
    pub clear: Seq<String>,
    pub confirmed: Seq<String>,
    pub diverged: Seq<String>,
    pub sent: Seq<(String, BindSent)>,
    pub out: Seq<EffectView>,
}

/// The row's registered pane sits in our own tab position.
pub open spec fn spec_joined_here(v: ModelView, a: Agent, own_position: Option<usize>) -> bool {
    match spec_pane_of(v, a.uuid@) {
        Some(p) => match spec_tab_position_of_pane(v, p) {
            Some(pos) => own_position == Some(pos),
            None => false,
        },
        None => false,
    }
}

/// Whether a bind may be (re)sent given the last one we sent for the uuid,
/// and the attempts already spent on this target: a new episode (no record,
/// or another target) has a full budget; the same target may retry only
/// once the store has advanced past our send, and at most
/// `BIND_MAX_TRIES` times.
pub open spec fn spec_may_send(prev: Option<BindSent>, own_tab: usize, seq: u64) -> (bool, u32) {
    match prev {
        None => (true, 0),
        Some(s) => if s.tab_id != own_tab {
            (true, 0)
        } else {
            (seq > s.at_seq && s.tries < BIND_MAX_TRIES, s.tries)
        },
    }
}

/// One row's decision in the bind pass.
pub open spec fn spec_bind_step(
    v: ModelView,
    own_tab: usize,
    own_position: Option<usize>,
    a: Agent,
    sc: BindScan,
) -> BindScan {
    if !spec_joined_here(v, a, own_position) {
        BindScan { clear: sc.clear.push(a.uuid), ..sc }
    } else if a.tab_id == Some(own_tab) {
        BindScan { confirmed: sc.confirmed.push(a.uuid), ..sc }
    } else {
        let (may, tries) = spec_may_send(lookup_str(v.bind_sent, a.uuid@), own_tab, v.seq);
        let sc1 = BindScan { diverged: sc.diverged.push(a.uuid), ..sc };
        if may {
            BindScan {
                sent: sc1.sent.push(
                    (
                        a.uuid,
                        BindSent {
                            tab_id: own_tab,
                            at_seq: v.seq,
                            tries: (tries + 1) as u32,
                            confirms: 0,
                        },
                    ),
                ),
                out: sc1.out.push(EffectView::Bind { uuid: a.uuid@, tab_id: own_tab }),
                ..sc1
            }
        } else {
            sc1
        }
    }
}

/// The bind pass's decisions over a run of rows.
pub open spec fn spec_bind_scan(
    v: ModelView,
    own_tab: usize,
    own_position: Option<usize>,
    agents: Seq<Agent>,
) -> BindScan
    decreases agents.len(),
{
    if agents.len() == 0 {
        BindScan {
            clear: Seq::empty(),
            confirmed: Seq::empty(),
            diverged: Seq::empty(),
            sent: Seq::empty(),
            out: Seq::empty(),
        }
    } else {
        spec_bind_step(
            v,
            own_tab,
            own_position,
            agents.last(),
            spec_bind_scan(v, own_tab, own_position, agents.drop_last()),
        )
    }
}

/// The ledger entry is not keyed by `k`.
pub open spec fn entry_not(k: Seq<char>) -> spec_fn((String, BindSent)) -> bool {
    |e: (String, BindSent)| e.0@ != k
}

/// The ledger without the entries of these uuids.
pub open spec fn ledger_remove_all(l: Seq<(String, BindSent)>, keys: Seq<String>) -> Seq<
    (String, BindSent),
>
    decreases keys.len(),
{
    if keys.len() == 0 {
        l
    } else {
        ledger_remove_all(l, keys.drop_last()).filter(entry_not(keys.last()@))
    }
}

/// A divergence resets the run of confirmations of the uuid's entry.
pub open spec fn ledger_reset_one(l: Seq<(String, BindSent)>, k: Seq<char>) -> Seq<
    (String, BindSent),
> {
    let i = find_index(l, key_str::<BindSent>(k));
    if i >= 0 {
        l.update(i, (l[i].0, BindSent { confirms: 0, ..l[i].1 }))
    } else {
        l
    }
}

/// Divergences over a run of uuids.
pub open spec fn ledger_reset_all(l: Seq<(String, BindSent)>, keys: Seq<String>) -> Seq<
    (String, BindSent),
>
    decreases keys.len(),
{
    if keys.len() == 0 {
        l
    } else {
        ledger_reset_one(ledger_reset_all(l, keys.drop_last()), keys.last()@)
    }
}

/// A confirmation counts only when the store advanced since we last
/// looked; two in a row end the episode.
pub open spec fn ledger_confirm_one(l: Seq<(String, BindSent)>, k: Seq<char>, seq: u64) -> Seq<
    (String, BindSent),
> {
    let i = find_index(l, key_str::<BindSent>(k));
    if i < 0 {
        l
    } else {
        let r = l[i].1;
        let r1 = if seq > r.at_seq {
            BindSent {
                at_seq: seq,
                confirms: if r.confirms < u32::MAX {
                    (r.confirms + 1) as u32
                } else {
                    r.confirms
                },
                ..r
            }
        } else {
            r
        };
        if r1.confirms >= BIND_CONFIRMS_TO_RESET {
            l.remove(i)
        } else {
            l.update(i, (l[i].0, r1))
        }
    }
}

/// Confirmations over a run of uuids.
pub open spec fn ledger_confirm_all(l: Seq<(String, BindSent)>, keys: Seq<String>, seq: u64) -> Seq<
    (String, BindSent),
>
    decreases keys.len(),
{
    if keys.len() == 0 {
        l
    } else {
        ledger_confirm_one(ledger_confirm_all(l, keys.drop_last(), seq), keys.last()@, seq)
    }
}

/// Record the binds just sent.
pub open spec fn ledger_insert_all(l: Seq<(String, BindSent)>, sent: Seq<(String, BindSent)>) -> Seq<
    (String, BindSent),
>
    decreases sent.len(),
{
    if sent.len() == 0 {
        l
    } else {
        let m = ledger_insert_all(l, sent.drop_last());
        assoc_insert(m, sent.last().0, sent.last().1)
    }
}

/// The entry's uuid still has a row in the snapshot.
pub open spec fn entry_known(agents: Seq<Agent>) -> spec_fn((String, BindSent)) -> bool {
    |e: (String, BindSent)| any(agents, agent_with_uuid(e.0@))
}

/// The bind ledger after a pass.
pub open spec fn spec_ledger_after(v: ModelView, sc: BindScan) -> Seq<(String, BindSent)> {
    ledger_insert_all(
        ledger_confirm_all(
            ledger_reset_all(ledger_remove_all(v.bind_sent, sc.clear), sc.diverged),
            sc.confirmed,
            v.seq,
        ),
        sc.sent,
    ).filter(entry_known(v.agents))
}

/// Our own tab's position in the tab frame.
pub open spec fn spec_position_of(v: ModelView, own_tab: usize) -> Option<usize> {
    match find(v.tabs, tab_with_id(own_tab)) {
        Some(t) => Some(t.position),
        None => None,
    }
}

/// The bind leg: binds for rows whose registered pane sits in our tab but
/// whose store bind disagrees, progress-gated and capped per episode.
#[verifier::opaque]
pub open spec fn spec_bind_effects(v: ModelView, own_tab: usize) -> (ModelView, Seq<EffectView>) {
    if !spec_frames_coherent(v) {
        (v, Seq::empty())
    } else {
        let sc = spec_bind_scan(v, own_tab, spec_position_of(v, own_tab), v.agents);
        (ModelView { bind_sent: spec_ledger_after(v, sc), ..v }, sc.out)
    }
}

impl BarModel {
    /// Does the row's registered pane sit at `own_position`?
    fn joined_here(&self, a: &Agent, own_position: Option<usize>) -> (r: bool)
        ensures
            r == spec_joined_here(self@, *a, own_position),
    {
        match self.pane_of(&a.uuid) {
            Some(p) => match self.tab_position_of_pane(p) {
                Some(pos) => own_position == Some(pos),
                None => false,
            },
            None => false,
        }
    }

    /// The bind pass's row-by-row decisions.
    fn bind_scan(
        &self,
        own_tab: usize,
        own_position: Option<usize>,
        clear: &mut Vec<String>,
        confirmed: &mut Vec<String>,
        diverged: &mut Vec<String>,
        sent: &mut Vec<(String, BindSent)>,
        out: &mut Vec<Effect>,
    )
        requires
            old(clear)@.len() == 0,
            old(confirmed)@.len() == 0,
            old(diverged)@.len() == 0,
            old(sent)@.len() == 0,
            old(out)@.len() == 0,
        ensures
            ({
                let sc = spec_bind_scan(self@, own_tab, own_position, self@.agents);
                &&& final(clear)@ == sc.clear
                &&& final(confirmed)@ == sc.confirmed
                &&& final(diverged)@ == sc.diverged
                &&& final(sent)@ == sc.sent
                &&& fx_view(final(out)@) == sc.out
            }),
    {
        let seq = self.seq;
        let mut i: usize = 0;
        assert(fx_view(out@) =~= Seq::<EffectView>::empty());
        while i < self.agents.len()
            invariant
                i <= self.agents@.len(),
                seq == self@.seq,
                ({
                    let sc = spec_bind_scan(
                        self@,
                        own_tab,
                        own_position,
                        self@.agents.subrange(0, i as int),
                    );
                    &&& clear@ == sc.clear
                    &&& confirmed@ == sc.confirmed
                    &&& diverged@ == sc.diverged
                    &&& sent@ == sc.sent
                    &&& fx_view(out@) == sc.out
                }),
            decreases self.agents.len() - i,
        {
            proof {
                assert(self@.agents.subrange(0, (i + 1) as int).drop_last()
                    =~= self@.agents.subrange(0, i as int));
                assert(self@.agents.subrange(0, (i + 1) as int).last() == self@.agents[i as int]);
            }
            let a = &self.agents[i];
            if !self.joined_here(a, own_position) {
                clear.push(a.uuid.clone());
            } else if a.tab_id == Some(own_tab) {
                confirmed.push(a.uuid.clone());
            } else {
                diverged.push(a.uuid.clone());
                let (may, tries): (bool, u32) = match str_get(&self.bind_sent, &a.uuid) {
                    None => (true, 0),
                    Some(s) => if s.tab_id != own_tab {
                        (true, 0)
                    } else {
                        (seq > s.at_seq && s.tries < BIND_MAX_TRIES, s.tries)
                    },
                };
                if may {
                    sent.push(
                        (
                            a.uuid.clone(),
                            BindSent { tab_id: own_tab, at_seq: seq, tries: tries + 1, confirms: 0 },
                        ),
                    );
                    let e = Effect::Bind { uuid: a.uuid.clone(), tab_id: own_tab };
                    proof {
                        lemma_fx_push(out@, e);
                    }
                    out.push(e);
                }
            }
            i = i + 1;
        }
        assert(self@.agents.subrange(0, self@.agents.len() as int) =~= self@.agents);
    }

    /// Drop every ledger entry of `k`.
    fn ledger_remove(l: &mut Vec<(String, BindSent)>, k: &String)
        ensures
            final(l)@ == old(l)@.filter(entry_not(k@)),
    {
        let ghost src = l@;
        let mut out: Vec<(String, BindSent)> = Vec::new();
        let mut i: usize = 0;
        while i < l.len()
            invariant
                l@ == src,
                i <= src.len(),
                out@ == src.subrange(0, i as int).filter(entry_not(k@)),
            decreases src.len() - i,
        {
            proof {
                reveal_with_fuel(Seq::filter, 1);
                assert(src.subrange(0, (i + 1) as int).drop_last() =~= src.subrange(0, i as int));
                assert(src.subrange(0, (i + 1) as int).last() == src[i as int]);
            }
            if l[i].0 != *k {
                out.push((l[i].0.clone(), l[i].1));
            }
            i = i + 1;
        }
        assert(src.subrange(0, src.len() as int) =~= src);
        *l = out;
    }

    /// Reset the confirmation run of `k`'s entry.
    fn ledger_reset(l: &mut Vec<(String, BindSent)>, k: &String)
        ensures
            final(l)@ == ledger_reset_one(old(l)@, k@),
    {
        match str_index(l, k) {
            Some(i) => {
                let key = l[i].0.clone();
                let rec = l[i].1;
                l.set(i, (key, BindSent { confirms: 0, ..rec }));
            },
            None => {},
        }
    }

    /// Count a confirmation of `k`'s entry at store `seq`.
    fn ledger_confirm(l: &mut Vec<(String, BindSent)>, k: &String, seq: u64)
        ensures
            final(l)@ == ledger_confirm_one(old(l)@, k@, seq),
    {
        match str_index(l, k) {
            Some(i) => {
                let r = l[i].1;
                let r1 = if seq > r.at_seq {
                    BindSent {
                        at_seq: seq,
                        confirms: if r.confirms < u32::MAX {
                            r.confirms + 1
                        } else {
                            r.confirms
                        },
                        ..r
                    }
                } else {
                    r
                };
                if r1.confirms >= BIND_CONFIRMS_TO_RESET {
                    l.remove(i);
                } else {
                    let key = l[i].0.clone();
                    l.set(i, (key, r1));
                }
            },
            None => {},
        }
    }

    /// Is the uuid still a row of the snapshot?
    fn is_known(&self, uuid: &String) -> (r: bool)
        ensures
            r == any(self@.agents, agent_with_uuid(uuid@)),
    {
        let r = self.agent_index_of(uuid).is_some();
        proof {
            lemma_find_iff(self@.agents, agent_with_uuid(uuid@));
        }
        r
    }

    /// The ledger bookkeeping after a bind pass.
    fn ledger_update(
        &mut self,
        clear: &Vec<String>,
        confirmed: &Vec<String>,
        diverged: &Vec<String>,
        sent: Vec<(String, BindSent)>,
    )
        ensures
            final(self)@ == (ModelView {
                bind_sent: spec_ledger_after(
                    old(self)@,
                    BindScan {
                        clear: clear@,
                        confirmed: confirmed@,
                        diverged: diverged@,
                        sent: sent@,
                        out: Seq::empty(),
                    },
                ),
                ..old(self)@
            }),
    {
        let ghost v = self@;
        let mut l = Vec::new();
        std::mem::swap(&mut l, &mut self.bind_sent);
        let mut i: usize = 0;
        while i < clear.len()
            invariant
                i <= clear@.len(),
                l@ == ledger_remove_all(v.bind_sent, clear@.subrange(0, i as int)),
            decreases clear.len() - i,
        {
            proof {
                assert(clear@.subrange(0, (i + 1) as int).drop_last() =~= clear@.subrange(
                    0,
                    i as int,
                ));
            }
            Self::ledger_remove(&mut l, &clear[i]);
            i = i + 1;
        }
        assert(clear@.subrange(0, clear@.len() as int) =~= clear@);
        let ghost l1 = l@;
        let mut i: usize = 0;
        while i < diverged.len()
            invariant
                i <= diverged@.len(),
                l@ == ledger_reset_all(l1, diverged@.subrange(0, i as int)),
            decreases diverged.len() - i,
        {
            proof {
                assert(diverged@.subrange(0, (i + 1) as int).drop_last() =~= diverged@.subrange(
                    0,
                    i as int,
                ));
            }
            Self::ledger_reset(&mut l, &diverged[i]);
            i = i + 1;
        }
        assert(diverged@.subrange(0, diverged@.len() as int) =~= diverged@);
        let ghost l2 = l@;
        let seq = self.seq;
        let mut i: usize = 0;
        while i < confirmed.len()
            invariant
                i <= confirmed@.len(),
                l@ == ledger_confirm_all(l2, confirmed@.subrange(0, i as int), seq),
            decreases confirmed.len() - i,
        {
            proof {
                assert(confirmed@.subrange(0, (i + 1) as int).drop_last() =~= confirmed@.subrange(
                    0,
                    i as int,
                ));
            }
            Self::ledger_confirm(&mut l, &confirmed[i], seq);
            i = i + 1;
        }
        assert(confirmed@.subrange(0, confirmed@.len() as int) =~= confirmed@);
        let ghost l3 = l@;
        let mut i: usize = 0;
        while i < sent.len()
            invariant
                i <= sent@.len(),
                l@ == ledger_insert_all(l3, sent@.subrange(0, i as int)),
            decreases sent.len() - i,
        {
            proof {
                assert(sent@.subrange(0, (i + 1) as int).drop_last() =~= sent@.subrange(
                    0,
                    i as int,
                ));
            }
            str_insert(&mut l, sent[i].0.clone(), sent[i].1);
            i = i + 1;
        }
        assert(sent@.subrange(0, sent@.len() as int) =~= sent@);
        let ghost l4 = l@;
        let mut kept: Vec<(String, BindSent)> = Vec::new();
        let mut i: usize = 0;
        while i < l.len()
            invariant
                l@ == l4,
                self@ == (ModelView { bind_sent: self@.bind_sent, ..v }),
                i <= l4.len(),
                kept@ == l4.subrange(0, i as int).filter(entry_known(v.agents)),
            decreases l4.len() - i,
        {
            proof {
                reveal_with_fuel(Seq::filter, 1);
                assert(l4.subrange(0, (i + 1) as int).drop_last() =~= l4.subrange(0, i as int));
                assert(l4.subrange(0, (i + 1) as int).last() == l4[i as int]);
            }
            if self.is_known(&l[i].0) {
                kept.push((l[i].0.clone(), l[i].1));
            }
            i = i + 1;
        }
        assert(l4.subrange(0, l4.len() as int) =~= l4);
        self.bind_sent = kept;
    }

    /// The bind leg: for each row whose registered pane sits in our own tab
    /// but whose store bind disagrees, send a bind, progress-gated on the
    /// store's `seq` and capped at `BIND_MAX_TRIES` per (uuid, tab) episode.
    /// Refuses the whole pass while the frames disagree.
    pub fn bind_effects(&mut self, own_tab: usize) -> (r: Vec<Effect>)
        ensures
            (final(self)@, fx_view(r@)) == spec_bind_effects(old(self)@, own_tab),
    {
        proof {
            reveal(spec_bind_effects);
        }
        if !self.frames_coherent() {
            return no_effects();
        }
        let own_position = match self.tab_index_of(own_tab) {
            Some(i) => Some(self.tabs[i].position),
            None => None,
        };
        let mut clear: Vec<String> = Vec::new();
        let mut confirmed: Vec<String> = Vec::new();
        let mut diverged: Vec<String> = Vec::new();
        let mut sent: Vec<(String, BindSent)> = Vec::new();
        let mut out: Vec<Effect> = Vec::new();
        self.bind_scan(
            own_tab,
            own_position,
            &mut clear,
            &mut confirmed,
            &mut diverged,
            &mut sent,
            &mut out,
        );
        self.ledger_update(&clear, &confirmed, &diverged, sent);
        out
    }
}


/// The birth touch is owed: our own tab is the active one, the store has
/// never ordered it, and this instance has not touched it yet.
pub open spec fn spec_touch_owed(v: ModelView, own: usize) -> bool {
    spec_active_tab_id(v) == Some(own) && lookup_usize(v.tab_order, own) is None
        && !v.birth_touched.contains(own)
}

/// The prune as a run of at most one effect.
pub open spec fn prune_run(v: ModelView) -> Seq<EffectView> {
    match spec_prune_effect(v) {
        Some(e) => seq![e],
        None => Seq::empty(),
    }
}

/// Every effect keyed on this instance's tab identity: birth touch, binds,
/// prune, in that order; nothing unless the strong election holds.
pub open spec fn spec_identity_effects(v: ModelView) -> (ModelView, Seq<EffectView>) {
    if !spec_elects_confirmed(v) {
        (v, Seq::empty())
    } else {
        let own = spec_own_tab(v)->0;
        let touch = spec_touch_owed(v, own);
        let v1 = if touch {
            ModelView { birth_touched: v.birth_touched.push(own), ..v }
        } else {
            v
        };
        let fx1 = if touch {
            seq![EffectView::Touch { tab_id: own }]
        } else {
            Seq::empty()
        };
        let (v2, fx2) = spec_bind_effects(v1, own);
        (v2, fx1 + fx2 + prune_run(v2))
    }
}

/// A row whose pane we know but cannot place in any tab: unbound in the
/// store, pane id known, that pane absent from our manifest.
pub open spec fn stranded_row(v: ModelView) -> spec_fn(Agent) -> bool {
    |a: Agent|
        a.tab_id is None && match spec_pane_of(v, a.uuid@) {
            Some(p) => spec_tab_position_of_pane(v, p) is None,
            None => false,
        }
}

/// The bind leg's state, as the frames show it.
pub open spec fn spec_stall_state(v: ModelView) -> BindStallState {
    if !spec_frames_coherent(v) {
        BindStallState::FramesIncoherent
    } else if spec_own_tab(v) is None {
        BindStallState::OwnPositionUnknown
    } else if v.agents.filter(stranded_row(v)).len() > 0 {
        BindStallState::PaneKnownButAbsent
    } else {
        BindStallState::Cleared
    }
}

/// The bind-stall breadcrumb: reported only on a change of state, and a
/// first `Cleared` is not worth a line.
pub open spec fn spec_bind_stall_report(v: ModelView) -> (ModelView, Option<EffectView>) {
    let state = spec_stall_state(v);
    let v1 = ModelView { bind_stall: Some(state), ..v };
    if v.bind_stall == Some(state) || (v.bind_stall is None && state
        == BindStallState::Cleared) {
        (v1, None)
    } else {
        (
            v1,
            Some(
                EffectView::BindStall {
                    state,
                    stranded: v.agents.filter(stranded_row(v)).len() as usize,
                    own_tab: spec_own_tab(v),
                },
            ),
        )
    }
}

impl BarModel {
    /// Every effect keyed on this instance's tab identity: the birth touch,
    /// the binds and the prune. Fail-closed: nothing unless the frames agree
    /// and resolve us into the active tab.
    #[verifier::rlimit(100)]
    pub fn identity_effects(&mut self) -> (r: Vec<Effect>)
        ensures
            (final(self)@, fx_view(r@)) == spec_identity_effects(old(self)@),
    {
        if !self.elects_confirmed() {
            return no_effects();
        }
        let own = match self.own_tab() {
            Some(o) => o,
            None => return no_effects(),
        };
        let ghost v = self@;
        let mut fx = no_effects();
        let touch = match self.active_tab_id() {
            Some(active) => active == own && self.needs_birth_touch(active),
            None => false,
        };
        if touch {
            let e = Effect::Touch { tab_id: own };
            proof {
                lemma_fx_push(fx@, e);
            }
            fx.push(e);
        }
        let ghost v1 = self@;
        let ghost fx1 = fx_view(fx@);
        assert(v1 == (if spec_touch_owed(v, own) {
            ModelView { birth_touched: v.birth_touched.push(own), ..v }
        } else {
            v
        }));
        assert(fx1 =~= (if spec_touch_owed(v, own) {
            seq![EffectView::Touch { tab_id: own }]
        } else {
            Seq::empty()
        }));
        let mut binds = self.bind_effects(own);
        let ghost fx2 = fx_view(binds@);
        let ghost v2 = self@;
        assert((v2, fx2) == spec_bind_effects(v1, own));
        proof {
            lemma_fx_concat(fx@, binds@);
        }
        fx.append(&mut binds);
        match self.prune_effect() {
            Some(e) => {
                proof {
                    lemma_fx_push(fx@, e);
                }
                fx.push(e);
            },
            None => {},
        }
        assert(fx_view(fx@) =~= fx1 + fx2 + prune_run(self@));
        fx
    }

    /// The count of rows stranded by a missing pane frame.
    fn stranded_count(&self) -> (r: usize)
        ensures
            r == self@.agents.filter(stranded_row(self@)).len(),
    {
        let ghost v = self@;
        let mut n: usize = 0;
        let mut i: usize = 0;
        while i < self.agents.len()
            invariant
                self@ == v,
                i <= v.agents.len(),
                n == v.agents.subrange(0, i as int).filter(stranded_row(v)).len(),
                n <= i,
            decreases v.agents.len() - i,
        {
            proof {
                reveal_with_fuel(Seq::filter, 1);
                assert(v.agents.subrange(0, (i + 1) as int).drop_last() =~= v.agents.subrange(
                    0,
                    i as int,
                ));
                assert(v.agents.subrange(0, (i + 1) as int).last() == v.agents[i as int]);
            }
            let a = &self.agents[i];
            let stranded = a.tab_id.is_none() && match self.pane_of(&a.uuid) {
                Some(p) => self.tab_position_of_pane(p).is_none(),
                None => false,
            };
            if stranded {
                n = n + 1;
            }
            i = i + 1;
        }
        assert(v.agents.subrange(0, v.agents.len() as int) =~= v.agents);
        n
    }

    /// The bind leg's state, reported only when it changes. Runs before
    /// every gate, so it can describe the states the gates swallow.
    pub fn bind_stall_report(&mut self) -> (r: Option<Effect>)
        ensures
            ({
                let (v1, e) = spec_bind_stall_report(old(self)@);
                &&& final(self)@ == v1
                &&& match r {
                    Some(x) => e == Some(x@),
                    None => e is None,
                }
            }),
    {
        let stranded = self.stranded_count();
        let own_tab = self.own_tab();
        let state = if !self.frames_coherent() {
            BindStallState::FramesIncoherent
        } else if own_tab.is_none() {
            BindStallState::OwnPositionUnknown
        } else if stranded > 0 {
            BindStallState::PaneKnownButAbsent
        } else {
            BindStallState::Cleared
        };
        let quiet = match self.bind_stall {
            Some(prev) => prev == state,
            None => state == BindStallState::Cleared,
        };
        self.bind_stall = Some(state);
        if quiet {
            return None;
        }
        Some(Effect::BindStall { state, stranded, own_tab })
    }
}


/// What the bar knows about a terminal pane, as plain values.
pub ghost struct FactsView {
    pub cwd: Option<Seq<char>>,
    pub last_cmd: Option<Seq<char>>,
    pub running: bool,
}

impl View for TermFacts {
    type V = FactsView;

    open spec fn view(&self) -> FactsView {
        FactsView {
            cwd: match self.cwd {
                Some(c) => Some(c@),
                None => None,
            },
            last_cmd: match self.last_cmd {
                Some(c) => Some(c@),
                None => None,
            },
            running: self.running,
        }
    }
}

/// The facts table as plain values.
pub open spec fn fviews(s: Seq<(u32, TermFacts)>) -> Seq<(u32, FactsView)> {
    s.map_values(|e: (u32, TermFacts)| (e.0, e.1@))
}

/// A pane nothing is known about yet.
pub open spec fn no_facts() -> FactsView {
    FactsView { cwd: None, last_cmd: None, running: false }
}

/// One answered probe folded into what was known: an answered cwd replaces
/// the old one; an answered foreground that is a command becomes the last
/// command and runs; the shell at its prompt goes idle and the last command
/// lingers. An unanswered field keeps what was known.
pub open spec fn spec_fold_probe(before: FactsView, p: PaneProbe) -> FactsView {
    let cwd = match p.cwd {
        Some(c) => Some(c@),
        None => before.cwd,
    };
    match p.foreground {
        Some(argv) => match spec_command_display(views(argv@)) {
            Some(cmd) => FactsView { cwd, last_cmd: Some(cmd), running: true },
            None => FactsView { cwd, last_cmd: before.last_cmd, running: false },
        },
        None => FactsView { cwd, ..before },
    }
}

/// One probe applied to the facts table, the stand-downs, and the
/// changed flag. A probe neither query answered mints nothing and stands
/// the pane down; any answer clears the stand-down.
pub open spec fn spec_probe_step(
    facts: Seq<(u32, FactsView)>,
    backoff: Seq<(u32, u8)>,
    changed: bool,
    p: PaneProbe,
) -> (Seq<(u32, FactsView)>, Seq<(u32, u8)>, bool) {
    if p.cwd is None && p.foreground is None {
        (facts, assoc_insert_u32(backoff, p.pane_id, PROBE_FAILURE_STANDDOWN), changed)
    } else {
        let before = match lookup_u32(facts, p.pane_id) {
            Some(f) => f,
            None => no_facts(),
        };
        let after = spec_fold_probe(before, p);
        (
            assoc_insert_u32(facts, p.pane_id, after),
            backoff.filter(key_u32_ne::<u8>(p.pane_id)),
            changed || after != before,
        )
    }
}

/// A run of probes, in order.
pub open spec fn spec_probes(
    facts: Seq<(u32, FactsView)>,
    backoff: Seq<(u32, u8)>,
    probes: Seq<PaneProbe>,
) -> (Seq<(u32, FactsView)>, Seq<(u32, u8)>, bool)
    decreases probes.len(),
{
    if probes.len() == 0 {
        (facts, backoff, false)
    } else {
        let (f, b, c) = spec_probes(facts, backoff, probes.drop_last());
        spec_probe_step(f, b, c, probes.last())
    }
}

/// Viewing the table keeps its keys, so a key is found at the same index.
pub proof fn lemma_fviews_index(s: Seq<(u32, TermFacts)>, k: u32)
    ensures
        find_index(fviews(s), key_u32::<FactsView>(k)) == find_index(s, key_u32::<TermFacts>(k)),
        lookup_u32(fviews(s), k) == match lookup_u32(s, k) {
            Some(f) => Some(f@),
            None => None,
        },
{
    let t = fviews(s);
    if any(s, key_u32::<TermFacts>(k)) {
        lemma_find_some(s, key_u32::<TermFacts>(k));
        let i = find_index(s, key_u32::<TermFacts>(k));
        assert(forall|j: int| 0 <= j < i ==> t[j].0 == s[j].0);
        lemma_find_at(t, key_u32::<FactsView>(k), i);
    } else {
        lemma_find_iff(s, key_u32::<TermFacts>(k));
        lemma_not_any(s, key_u32::<TermFacts>(k));
        lemma_find_none(s, key_u32::<TermFacts>(k));
        assert forall|j: int| 0 <= j < t.len() implies !key_u32::<FactsView>(k)(#[trigger] t[j]) by {
            assert(!key_u32::<TermFacts>(k)(s[j]));
        }
        lemma_find_none(t, key_u32::<FactsView>(k));
    }
}

impl BarModel {
    /// Fold one answered probe into a pane's facts.
    fn fold_probe(f: &mut TermFacts, p: &PaneProbe)
        ensures
            final(f)@ == spec_fold_probe(old(f)@, *p),
    {
        if let Some(c) = &p.cwd {
            f.cwd = Some(c.clone());
        }
        if let Some(argv) = &p.foreground {
            match command_display(argv.as_slice()) {
                Some(cmd) => {
                    f.last_cmd = Some(cmd);
                    f.running = true;
                },
                None => {
                    f.running = false;
                },
            }
        }
    }

    /// Fold a run of probes into a facts table and its stand-downs.
    fn fold_probes(
        facts: &mut Vec<(u32, TermFacts)>,
        backoff: &mut Vec<(u32, u8)>,
        probes: &Vec<PaneProbe>,
    ) -> (r: bool)
        ensures
            (fviews(final(facts)@), final(backoff)@, r) == spec_probes(
                fviews(old(facts)@),
                old(backoff)@,
                probes@,
            ),
    {
        let ghost f0 = fviews(facts@);
        let ghost b0 = backoff@;
        let mut changed = false;
        let mut i: usize = 0;
        while i < probes.len()
            invariant
                i <= probes@.len(),
                (fviews(facts@), backoff@, changed) == spec_probes(
                    f0,
                    b0,
                    probes@.subrange(0, i as int),
                ),
            decreases probes.len() - i,
        {
            proof {
                assert(probes@.subrange(0, (i + 1) as int).drop_last() =~= probes@.subrange(
                    0,
                    i as int,
                ));
                assert(probes@.subrange(0, (i + 1) as int).last() == probes@[i as int]);
            }
            let p = &probes[i];
            let id = p.pane_id;
            if p.cwd.is_none() && p.foreground.is_none() {
                u32_insert(backoff, id, PROBE_FAILURE_STANDDOWN);
            } else {
                u32_remove(backoff, id);
                let ghost old_facts = facts@;
                proof {
                    lemma_fviews_index(old_facts, id);
                }
                let (before, k) = match u32_index(facts, id) {
                    Some(k) => (facts[k].1.copy(), Some(k)),
                    None => (TermFacts { cwd: None, last_cmd: None, running: false }, None),
                };
                let mut after = before.copy();
                Self::fold_probe(&mut after, p);
                let ch = !(after.running == before.running && opt_str_eq(&after.cwd, &before.cwd)
                    && opt_str_eq(&after.last_cmd, &before.last_cmd));
                changed = changed || ch;
                match k {
                    Some(k) => {
                        facts.set(k, (id, after));
                        proof {
                            assert(fviews(facts@) =~= fviews(old_facts).update(
                                k as int,
                                (id, facts@[k as int].1@),
                            ));
                        }
                    },
                    None => {
                        facts.push((id, after));
                        proof {
                            assert(fviews(facts@) =~= fviews(old_facts).push(
                                (id, facts@.last().1@),
                            ));
                        }
                    },
                }
            }
            i = i + 1;
        }
        assert(probes@.subrange(0, probes@.len() as int) =~= probes@);
        changed
    }

    /// One OS answer per probe, folded into the facts table. `None` in a
    /// field means "not asked", never "forget". Returns whether any pane's
    /// facts changed.
    pub fn apply_pane_facts(&mut self, probes: Vec<PaneProbe>) -> (r: bool)
        ensures
            ({
                let (f, b, c) = spec_probes(
                    fviews(old(self)@.pane_facts),
                    old(self)@.probe_backoff,
                    probes@,
                );
                &&& fviews(final(self)@.pane_facts) == f
                &&& final(self)@.probe_backoff == b
                &&& r == c
                &&& final(self)@ == (ModelView {
                    pane_facts: final(self)@.pane_facts,
                    probe_backoff: b,
                    ..old(self)@
                })
            }),
    {
        let ghost v = self@;
        let mut facts: Vec<(u32, TermFacts)> = Vec::new();
        let mut backoff: Vec<(u32, u8)> = Vec::new();
        std::mem::swap(&mut facts, &mut self.pane_facts);
        std::mem::swap(&mut backoff, &mut self.probe_backoff);
        let changed = Self::fold_probes(&mut facts, &mut backoff, &probes);
        std::mem::swap(&mut facts, &mut self.pane_facts);
        std::mem::swap(&mut backoff, &mut self.probe_backoff);

        changed
    }
}


/// A row's identity as plain values.
pub ghost enum RowKeyView {
    Tab(usize),
    Dormant(Seq<char>),
}

impl View for RowKey {
    type V = RowKeyView;

    open spec fn view(&self) -> RowKeyView {
        match self {
            RowKey::Tab(id) => RowKeyView::Tab(*id),
            RowKey::Dormant(u) => RowKeyView::Dormant(u@),
        }
    }
}

/// The pane resides in the tab at `pos`: a tiled terminal.
pub open spec fn resident(pos: usize) -> spec_fn(PaneMeta) -> bool {
    |p: PaneMeta| p.tab_position == pos && !p.is_plugin && !p.is_floating
}

/// The pane resides in the tab at `pos` and is focused.
pub open spec fn resident_focused(pos: usize) -> spec_fn(PaneMeta) -> bool {
    |p: PaneMeta| p.tab_position == pos && !p.is_plugin && !p.is_floating && p.is_focused
}

/// The pane that speaks for a terminal tab's row: its focused tiled
/// terminal, else its first.
pub open spec fn spec_speaker(v: ModelView, pos: usize) -> Option<PaneMeta> {
    match find(v.panes, resident_focused(pos)) {
        Some(p) => Some(p),
        None => find(v.panes, resident(pos)),
    }
}

/// The checkout an agent occupies: its worktree, else its repo root.
pub open spec fn checkout_root(a: Agent) -> Seq<char> {
    match a.worktree {
        Some(w) => w@,
        None => a.repo_root@,
    }
}

/// The agent's checkout contains `cwd`.
pub open spec fn checkout_holds(a: Agent, cwd: Seq<char>) -> bool {
    checkout_root(a).len() > 0 && spec_within(cwd, checkout_root(a))
}

/// The agent whose checkout contains `cwd` with the longest root (in
/// bytes); the later row wins a tie.
pub open spec fn spec_checkout_in(agents: Seq<Agent>, cwd: Seq<char>) -> Option<Agent>
    decreases agents.len(),
{
    if agents.len() == 0 {
        None
    } else {
        let best = spec_checkout_in(agents.drop_last(), cwd);
        let a = agents.last();
        if checkout_holds(a, cwd) {
            match best {
                Some(b) => if utf8_len(checkout_root(a)) >= utf8_len(checkout_root(b)) {
                    Some(a)
                } else {
                    Some(b)
                },
                None => Some(a),
            }
        } else {
            best
        }
    }
}

/// An agent row's status cell: stale outranks opening, opening outranks the
/// dormant marks, and a Done row already read shows Idle.
pub open spec fn spec_agent_status(v: ModelView, a: Agent, dormant: bool, selected: bool) -> RowStatus {
    if a.stale {
        RowStatus::Stale
    } else if has_str(v.opening, a.uuid@) {
        RowStatus::Opening
    } else if dormant && selected {
        RowStatus::DormantSelected
    } else if dormant {
        RowStatus::Dormant
    } else if a.status == Status::Done && has_str(v.read_locally, a.uuid@) {
        RowStatus::Idle
    } else {
        match a.status {
            Status::Idle => RowStatus::Idle,
            Status::Working => RowStatus::Working,
            Status::NeedsYou => RowStatus::NeedsYou,
            Status::Done => RowStatus::Done,
            Status::Failed => RowStatus::Failed,
        }
    }
}

/// An agent row's content.
pub open spec fn spec_agent_content(v: ModelView, a: Agent, dormant: bool, selected: bool) -> ContentView {
    ContentView::Agent {
        status: spec_agent_status(v, a, dormant, selected),
        battery: a.context_level,
        tokens: a.context_tokens,
        provenance: spec_provenance(a),
        title: opt_view(a.title),
        title_ink: match a.title {
            Some(t) => spec_title_ink(v.agents, a.repo_root@, t@),
            None => None,
        },
        repo: spec_basename(a.repo_root@),
        repo_ink: spec_repo_ink(v.agents, a.repo_root@),
        summary: a.summary@,
        model: opt_view(a.model),
        provider: opt_view(a.provider),
        pr: a.pr_number,
        branch: spec_branch_cell(a),
        elapsed: spec_elapsed_label(v.now, a.last_interacted),
        effort: None,
        wants: None,
        subagents: false,
    }
}

/// A terminal speaker's facts, if the bar has any.
pub open spec fn spec_speaker_facts(v: ModelView, speaker: Option<PaneMeta>) -> Option<FactsView> {
    match speaker {
        Some(p) => lookup_u32(fviews(v.pane_facts), p.pane_id),
        None => None,
    }
}

/// A terminal row's status: a command pane runs until it exits, then is
/// Done or Failed by exit code; a shell runs while its foreground does.
pub open spec fn spec_term_status(speaker: Option<PaneMeta>, facts: Option<FactsView>) -> TermStatus {
    match speaker {
        Some(p) => if p.terminal_command is Some {
            if !p.exited {
                TermStatus::Running
            } else if (match p.exit_status {
                Some(c) => c,
                None => 0,
            }) == 0 {
                TermStatus::Done
            } else {
                TermStatus::Failed
            }
        } else if facts matches Some(f) && f.running {
            TermStatus::Running
        } else {
            TermStatus::Idle
        },
        None => if facts matches Some(f) && f.running {
            TermStatus::Running
        } else {
            TermStatus::Idle
        },
    }
}

/// A terminal row's content: the tab name as its chip, everything else read
/// off the speaker pane, its location through the fleet's checkouts.
pub open spec fn spec_terminal_content(v: ModelView, t: TabMeta) -> ContentView {
    let speaker = spec_speaker(v, t.position);
    let facts = spec_speaker_facts(v, speaker);
    let cwd = match facts {
        Some(f) => f.cwd,
        None => None,
    };
    let command = match facts {
        Some(f) => match f.last_cmd {
            Some(c) => c,
            None => match speaker {
                Some(p) => match p.terminal_command {
                    Some(c) => c@,
                    None => Seq::empty(),
                },
                None => Seq::empty(),
            },
        },
        None => match speaker {
            Some(p) => match p.terminal_command {
                Some(c) => c@,
                None => Seq::empty(),
            },
            None => Seq::empty(),
        },
    };
    let elapsed = spec_elapsed_label(
        v.now,
        match lookup_usize(v.tab_touched, t.tab_id) {
            Some(x) => x,
            None => 0,
        },
    );
    let status = spec_term_status(speaker, facts);
    match cwd {
        Some(c) => match spec_checkout_in(v.agents, c) {
            Some(a) => ContentView::Terminal {
                name: t.name@,
                status,
                provenance: spec_provenance(a),
                repo: Some(spec_basename(a.repo_root@)),
                repo_ink: spec_repo_ink(v.agents, a.repo_root@),
                command,
                pr: a.pr_number,
                branch: spec_branch_cell(a),
                elapsed,
            },
            None => ContentView::Terminal {
                name: t.name@,
                status,
                provenance: Provenance::Main,
                repo: Some(spec_basename(c)),
                repo_ink: None,
                command,
                pr: None,
                branch: Seq::empty(),
                elapsed,
            },
        },
        None => ContentView::Terminal {
            name: t.name@,
            status,
            provenance: Provenance::Main,
            repo: None,
            repo_ink: None,
            command,
            pr: None,
            branch: Seq::empty(),
            elapsed,
        },
    }
}

/// The larger of two ordinals.
pub open spec fn max_u64(a: u64, b: u64) -> u64 {
    if a >= b {
        a
    } else {
        b
    }
}

/// A value from a tab-keyed table, 0 when absent.
pub open spec fn tab_value(s: Seq<(usize, u64)>, id: usize) -> u64 {
    match lookup_usize(s, id) {
        Some(x) => x,
        None => 0,
    }
}

/// A live tab's commitment ordinal: the tab's own, raised by its agent's.
pub open spec fn spec_live_ord(v: ModelView, t: TabMeta) -> u64 {
    let tab = tab_value(v.tab_order, t.tab_id);
    match spec_agent_in_tab(v, t.tab_id) {
        Some(a) => max_u64(tab, a.commit_ord),
        None => tab,
    }
}

/// A dormant row's commitment ordinal: the agent's own, raised by the
/// ordinal of the tab it was last bound to while the store still has it.
pub open spec fn spec_dormant_ord(v: ModelView, a: Agent) -> u64 {
    let carried = match a.tab_id {
        Some(id) => tab_value(v.tab_order, id),
        None => 0,
    };
    max_u64(a.commit_ord, carried)
}

/// A live row's ranking key: the ordinal under recency; under frecency the
/// score, falling back to the ordinal for an unscored row.
pub open spec fn spec_live_key(v: ModelView, t: TabMeta) -> (u64, u64) {
    match v.order {
        OrderMode::Recency => (spec_live_ord(v, t), 0),
        OrderMode::Frecency { .. } => {
            let tab = tab_value(v.tab_frecency, t.tab_id);
            let agent = match spec_agent_in_tab(v, t.tab_id) {
                Some(a) => a.frecency,
                None => 0,
            };
            let millis = max_u64(tab, agent);
            if millis > 0 {
                (millis, 0)
            } else {
                (0, spec_live_ord(v, t))
            }
        },
    }
}

/// A dormant row's ranking key: the same rule read from the agent's side.
pub open spec fn spec_dormant_key(v: ModelView, a: Agent) -> (u64, u64) {
    match v.order {
        OrderMode::Recency => (spec_dormant_ord(v, a), 0),
        OrderMode::Frecency { .. } => {
            let carried = match a.tab_id {
                Some(id) => tab_value(v.tab_frecency, id),
                None => 0,
            };
            let millis = max_u64(a.frecency, carried);
            if millis > 0 {
                (millis, 0)
            } else {
                (0, spec_dormant_ord(v, a))
            }
        },
    }
}

impl BarModel {
    /// The first pane satisfying the resident test at `pos`, focused or not.
    fn speaker_index(&self, pos: usize) -> (r: Option<usize>)
        ensures
            match r {
                Some(i) => i < self@.panes.len() && spec_speaker(self@, pos) == Some(
                    self@.panes[i as int],
                ),
                None => spec_speaker(self@, pos) is None,
            },
    {
        let mut i: usize = 0;
        while i < self.panes.len()
            invariant
                i <= self@.panes.len(),
                forall|j: int| 0 <= j < i ==> !resident_focused(pos)(#[trigger] self@.panes[j]),
            decreases self.panes.len() - i,
        {
            let p = &self.panes[i];
            if p.tab_position == pos && !p.is_plugin && !p.is_floating && p.is_focused {
                proof {
                    lemma_find_at(self@.panes, resident_focused(pos), i as int);
                }
                return Some(i);
            }
            i = i + 1;
        }
        proof {
            lemma_find_none(self@.panes, resident_focused(pos));
        }
        let mut k: usize = 0;
        while k < self.panes.len()
            invariant
                k <= self@.panes.len(),
                find(self@.panes, resident_focused(pos)) is None,
                forall|j: int| 0 <= j < k ==> !resident(pos)(#[trigger] self@.panes[j]),
            decreases self.panes.len() - k,
        {
            let p = &self.panes[k];
            if p.tab_position == pos && !p.is_plugin && !p.is_floating {
                proof {
                    lemma_find_at(self@.panes, resident(pos), k as int);
                }
                return Some(k);
            }
            k = k + 1;
        }
        proof {
            lemma_find_none(self@.panes, resident(pos));
        }
        None
    }

    /// The agent whose checkout contains `cwd`, longest root first.
    fn checkout_of(&self, cwd: &String) -> (r: Option<usize>)
        ensures
            match r {
                Some(i) => i < self@.agents.len() && spec_checkout_in(self@.agents, cwd@) == Some(
                    self@.agents[i as int],
                ),
                None => spec_checkout_in(self@.agents, cwd@) is None,
            },
    {
        let c = chars_of(cwd.as_str());
        let mut best: Option<usize> = None;
        let mut best_len: u128 = 0;
        let mut i: usize = 0;
        while i < self.agents.len()
            invariant
                i <= self@.agents.len(),
                c@ == cwd@,
                match best {
                    Some(b) => b < i && spec_checkout_in(self@.agents.subrange(0, i as int), cwd@)
                        == Some(self@.agents[b as int]) && best_len == utf8_len(
                        checkout_root(self@.agents[b as int]),
                    ),
                    None => spec_checkout_in(self@.agents.subrange(0, i as int), cwd@) is None,
                },
            decreases self.agents.len() - i,
        {
            proof {
                assert(self@.agents.subrange(0, (i + 1) as int).drop_last()
                    =~= self@.agents.subrange(0, i as int));
                assert(self@.agents.subrange(0, (i + 1) as int).last() == self@.agents[i as int]);
            }
            let a = &self.agents[i];
            let root = match &a.worktree {
                Some(w) => w,
                None => &a.repo_root,
            };
            let rc = chars_of(root.as_str());
            if rc.len() > 0 && within(&c, &rc) {
                let len = byte_len(root);
                match best {
                    Some(_) => {
                        if len >= best_len {
                            best = Some(i);
                            best_len = len;
                        }
                    },
                    None => {
                        best = Some(i);
                        best_len = len;
                    },
                }
            }
            i = i + 1;
        }
        assert(self@.agents.subrange(0, self@.agents.len() as int) =~= self@.agents);
        best
    }

    /// An agent row's content.
    fn agent_content(&self, a: &Agent, dormant: bool, selected: bool, inks: &ProvisionalInks) -> (r:
        RowContent)
        requires
            inks@ == self@.agents,
        ensures
            r@ == spec_agent_content(self@, *a, dormant, selected),
    {
        let status = if a.stale {
            RowStatus::Stale
        } else if contains_str(&self.opening, &a.uuid) {
            RowStatus::Opening
        } else if dormant && selected {
            RowStatus::DormantSelected
        } else if dormant {
            RowStatus::Dormant
        } else if a.status == Status::Done && contains_str(&self.read_locally, &a.uuid) {
            RowStatus::Idle
        } else {
            match a.status {
                Status::Idle => RowStatus::Idle,
                Status::Working => RowStatus::Working,
                Status::NeedsYou => RowStatus::NeedsYou,
                Status::Done => RowStatus::Done,
                Status::Failed => RowStatus::Failed,
            }
        };
        let title_ink = match &a.title {
            Some(t) => inks.title_ink(&a.repo_root, t),
            None => None,
        };
        let repo = basename(a.repo_root.as_str());
        RowContent::Agent {
            status,
            battery: a.context_level,
            tokens: a.context_tokens,
            provenance: provenance_of(a),
            title: copy_opt_string(&a.title),
            title_ink,
            repo: string_of(repo.as_slice()),
            repo_ink: inks.repo_ink(&a.repo_root),
            summary: a.summary.clone(),
            model: copy_opt_string(&a.model),
            provider: copy_opt_string(&a.provider),
            pr: a.pr_number,
            branch: branch_cell(a),
            elapsed: elapsed_label(self.now, a.last_interacted),
            effort: None,
            wants: None,
            subagents: false,
        }
    }

    /// A terminal row's content.
    fn terminal_content(&self, t: &TabMeta, inks: &ProvisionalInks) -> (r: RowContent)
        requires
            inks@ == self@.agents,
        ensures
            r@ == spec_terminal_content(self@, *t),
    {
        let speaker = self.speaker_index(t.position);
        let fi: Option<usize> = match speaker {
            Some(si) => {
                proof {
                    lemma_fviews_index(self@.pane_facts, self@.panes[si as int].pane_id);
                }
                u32_index(&self.pane_facts, self.panes[si].pane_id)
            },
            None => None,
        };
        proof {
            if let Some(k) = fi {
                let id = self@.panes[speaker->0 as int].pane_id;
                lemma_fviews_index(self@.pane_facts, id);
            }
        }
        let running = match fi {
            Some(k) => self.pane_facts[k].1.running,
            None => false,
        };
        let status = match speaker {
            Some(si) => {
                let p = &self.panes[si];
                if p.terminal_command.is_some() {
                    if !p.exited {
                        TermStatus::Running
                    } else if (match p.exit_status {
                        Some(c) => c,
                        None => 0,
                    }) == 0 {
                        TermStatus::Done
                    } else {
                        TermStatus::Failed
                    }
                } else if running {
                    TermStatus::Running
                } else {
                    TermStatus::Idle
                }
            },
            None => if running {
                TermStatus::Running
            } else {
                TermStatus::Idle
            },
        };
        let command = match fi {
            Some(k) => match &self.pane_facts[k].1.last_cmd {
                Some(c) => c.clone(),
                None => match speaker {
                    Some(si) => match &self.panes[si].terminal_command {
                        Some(c) => c.clone(),
                        None => String::new(),
                    },
                    None => String::new(),
                },
            },
            None => match speaker {
                Some(si) => match &self.panes[si].terminal_command {
                    Some(c) => c.clone(),
                    None => String::new(),
                },
                None => String::new(),
            },
        };
        let touched = match get_usize(&self.tab_touched, t.tab_id) {
            Some(x) => x,
            None => 0,
        };
        let elapsed = elapsed_label(self.now, touched);
        let cwd: Option<&String> = match fi {
            Some(k) => match &self.pane_facts[k].1.cwd {
                Some(c) => Some(c),
                None => None,
            },
            None => None,
        };
        match cwd {
            Some(c) => match self.checkout_of(c) {
                Some(ai) => {
                    let a = &self.agents[ai];
                    let repo = basename(a.repo_root.as_str());
                    RowContent::Terminal {
                        name: t.name.clone(),
                        status,
                        provenance: provenance_of(a),
                        repo: Some(string_of(repo.as_slice())),
                        repo_ink: inks.repo_ink(&a.repo_root),
                        command,
                        pr: a.pr_number,
                        branch: branch_cell(a),
                        elapsed,
                    }
                },
                None => {
                    let repo = basename(c.as_str());
                    RowContent::Terminal {
                        name: t.name.clone(),
                        status,
                        provenance: Provenance::Main,
                        repo: Some(string_of(repo.as_slice())),
                        repo_ink: None,
                        command,
                        pr: None,
                        branch: String::new(),
                        elapsed,
                    }
                },
            },
            None => RowContent::Terminal {
                name: t.name.clone(),
                status,
                provenance: Provenance::Main,
                repo: None,
                repo_ink: None,
                command,
                pr: None,
                branch: String::new(),
                elapsed,
            },
        }
    }

    /// A live tab's commitment ordinal.
    pub fn live_ord(&self, t: &TabMeta) -> (r: u64)
        ensures
            r == spec_live_ord(self@, *t),
    {
        let tab = match get_usize(&self.tab_order, t.tab_id) {
            Some(x) => x,
            None => 0,
        };
        match self.agent_index_in_tab(t.tab_id) {
            Some(i) => if tab >= self.agents[i].commit_ord {
                tab
            } else {
                self.agents[i].commit_ord
            },
            None => tab,
        }
    }

    /// A dormant row's commitment ordinal.
    pub fn dormant_ord(&self, a: &Agent) -> (r: u64)
        ensures
            r == spec_dormant_ord(self@, *a),
    {
        let carried = match a.tab_id {
            Some(id) => match get_usize(&self.tab_order, id) {
                Some(x) => x,
                None => 0,
            },
            None => 0,
        };
        if a.commit_ord >= carried {
            a.commit_ord
        } else {
            carried
        }
    }

    /// A live row's ranking key.
    fn live_key(&self, t: &TabMeta) -> (r: (u64, u64))
        ensures
            r == spec_live_key(self@, *t),
    {
        match self.order {
            OrderMode::Recency => (self.live_ord(t), 0),
            OrderMode::Frecency { .. } => {
                let tab = match get_usize(&self.tab_frecency, t.tab_id) {
                    Some(x) => x,
                    None => 0,
                };
                let agent = match self.agent_index_in_tab(t.tab_id) {
                    Some(i) => self.agents[i].frecency,
                    None => 0,
                };
                let millis = if tab >= agent {
                    tab
                } else {
                    agent
                };
                if millis > 0 {
                    (millis, 0)
                } else {
                    (0, self.live_ord(t))
                }
            },
        }
    }

    /// A dormant row's ranking key.
    fn dormant_key(&self, a: &Agent) -> (r: (u64, u64))
        ensures
            r == spec_dormant_key(self@, *a),
    {
        match self.order {
            OrderMode::Recency => (self.dormant_ord(a), 0),
            OrderMode::Frecency { .. } => {
                let carried = match a.tab_id {
                    Some(id) => match get_usize(&self.tab_frecency, id) {
                        Some(x) => x,
                        None => 0,
                    },
                    None => 0,
                };
                let millis = if a.frecency >= carried {
                    a.frecency
                } else {
                    carried
                };
                if millis > 0 {
                    (millis, 0)
                } else {
                    (0, self.dormant_ord(a))
                }
            },
        }
    }
}


/// One ranked row before sorting: its key, its determinism tiebreak, and
/// the row itself.
pub type Ranked = ((u64, u64), usize, RowKey, Row);

/// A ranked row as plain values.
pub type RankedView = ((u64, u64), usize, RowKeyView, RowView);

/// A ranked row's view.
pub open spec fn ranked_view(e: Ranked) -> RankedView {
    (e.0, e.1, e.2@, e.3@)
}

/// The comparator: key descending, then tiebreak ascending. `a` sorts
/// strictly before `b`.
pub open spec fn ranks_before(a: RankedView, b: RankedView) -> bool {
    a.0.0 > b.0.0 || (a.0.0 == b.0.0 && (a.0.1 > b.0.1 || (a.0.1 == b.0.1 && a.1 < b.1)))
}

/// Where `e` goes in a sorted run: before the first element it strictly
/// precedes, after every element it ties with.
pub open spec fn rank_pos(s: Seq<RankedView>, e: RankedView) -> nat
    decreases s.len(),
{
    if s.len() == 0 {
        0
    } else if ranks_before(e, s[0]) {
        0
    } else {
        1 + rank_pos(s.drop_first(), e)
    }
}

/// The stable sort by the comparator.
pub open spec fn rank_sort(s: Seq<RankedView>) -> Seq<RankedView>
    decreases s.len(),
{
    if s.len() == 0 {
        s
    } else {
        let t = rank_sort(s.drop_last());
        t.insert(rank_pos(t, s.last()) as int, s.last())
    }
}

/// Where an agent goes in a run sorted by uuid, stably.
pub open spec fn uuid_pos(s: Seq<Agent>, a: Agent) -> nat
    decreases s.len(),
{
    if s.len() == 0 {
        0
    } else if lex_lt(a.uuid@, s[0].uuid@) {
        0
    } else {
        1 + uuid_pos(s.drop_first(), a)
    }
}

/// The stable sort of agents by uuid.
pub open spec fn uuid_sort(s: Seq<Agent>) -> Seq<Agent>
    decreases s.len(),
{
    if s.len() == 0 {
        s
    } else {
        let t = uuid_sort(s.drop_last());
        t.insert(uuid_pos(t, s.last()) as int, s.last())
    }
}

/// The agent is dormant in this state.
pub open spec fn is_dormant_in(v: ModelView) -> spec_fn(Agent) -> bool {
    |a: Agent| spec_is_dormant(v, a)
}

/// The dormant selection: the cursor, while some row with its uuid is
/// dormant.
pub open spec fn spec_selected_dormant(v: ModelView) -> Option<Seq<char>> {
    match v.cursor {
        Some(u) => if exists|i: int|
            0 <= i < v.agents.len() && (#[trigger] v.agents[i]).uuid@ == u && spec_is_dormant(
                v,
                v.agents[i],
            ) {
            Some(u)
        } else {
            None
        },
        None => None,
    }
}

/// A live tab's ranked row.
pub open spec fn spec_live_entry(v: ModelView, sel: Option<Seq<char>>, t: TabMeta) -> RankedView {
    (
        spec_live_key(v, t),
        t.position,
        RowKeyView::Tab(t.tab_id),
        RowView {
            content: match spec_agent_in_tab(v, t.tab_id) {
                Some(a) => spec_agent_content(v, a, false, false),
                None => spec_terminal_content(v, t),
            },
            selected: sel is None && t.active,
            dormant: false,
        },
    )
}

/// The dormant rows, sorted by uuid.
pub open spec fn spec_dormant_agents(v: ModelView) -> Seq<Agent> {
    uuid_sort(v.agents.filter(is_dormant_in(v)))
}

/// A dormant row's ranked entry, `i` its place in uuid order.
pub open spec fn spec_dormant_entry(v: ModelView, sel: Option<Seq<char>>, a: Agent, i: int) -> RankedView {
    let selected = sel == Some(a.uuid@);
    (
        spec_dormant_key(v, a),
        (usize::MAX - i) as usize,
        RowKeyView::Dormant(a.uuid@),
        RowView { content: spec_agent_content(v, a, true, selected), selected, dormant: true },
    )
}

/// The live block before sorting, in tab-frame order.
pub open spec fn spec_live_entries(v: ModelView) -> Seq<RankedView> {
    v.tabs.map_values(|t: TabMeta| spec_live_entry(v, spec_selected_dormant(v), t))
}

/// The dormant block before sorting, in uuid order.
pub open spec fn spec_dormant_entries(v: ModelView) -> Seq<RankedView> {
    let d = spec_dormant_agents(v);
    Seq::new(d.len(), |i: int| spec_dormant_entry(v, spec_selected_dormant(v), d[i], i))
}

/// The rows in display order: every live row, then every dormant row, each
/// block sorted by the same comparator.
pub open spec fn spec_rows(v: ModelView) -> Seq<(RowKeyView, RowView)> {
    (rank_sort(spec_live_entries(v)) + rank_sort(spec_dormant_entries(v))).map_values(
        |e: RankedView| (e.2, e.3),
    )
}

/// The rows a list shows, as plain values.
pub open spec fn rows_view(r: Seq<(RowKey, Row)>) -> Seq<(RowKeyView, RowView)> {
    r.map_values(|x: (RowKey, Row)| (x.0@, x.1@))
}

impl BarModel {
    /// The comparator on executable rows.
    fn precedes(a: &Ranked, b: &Ranked) -> (r: bool)
        ensures
            r == ranks_before(ranked_view(*a), ranked_view(*b)),
    {
        a.0.0 > b.0.0 || (a.0.0 == b.0.0 && (a.0.1 > b.0.1 || (a.0.1 == b.0.1 && a.1 < b.1)))
    }

    /// Insert a ranked row into a sorted block.
    fn rank_insert(block: &mut Vec<Ranked>, e: Ranked)
        ensures
            final(block)@.map_values(|x: Ranked| ranked_view(x)) == old(block)@.map_values(
                |x: Ranked| ranked_view(x),
            ).insert(
                rank_pos(old(block)@.map_values(|x: Ranked| ranked_view(x)), ranked_view(e)) as int,
                ranked_view(e),
            ),
    {
        let ghost s = block@.map_values(|x: Ranked| ranked_view(x));
        let ghost ev = ranked_view(e);
        let mut j: usize = 0;
        assert(s.subrange(0, s.len() as int) =~= s);
        while j < block.len() && !Self::precedes(&e, &block[j])
            invariant
                s == block@.map_values(|x: Ranked| ranked_view(x)),
                ev == ranked_view(e),
                j <= s.len(),
                rank_pos(s, ev) == j + rank_pos(s.subrange(j as int, s.len() as int), ev),
            decreases block.len() - j,
        {
            proof {
                assert(s.subrange(j as int, s.len() as int).drop_first() =~= s.subrange(
                    j + 1,
                    s.len() as int,
                ));
                assert(s.subrange(j as int, s.len() as int)[0] == s[j as int]);
            }
            j = j + 1;
        }
        proof {
            if j < s.len() {
                assert(s.subrange(j as int, s.len() as int)[0] == s[j as int]);
            }
            assert(s.subrange(0, s.len() as int) =~= s);
        }
        block.insert(j, e);
        proof {
            assert(block@.map_values(|x: Ranked| ranked_view(x)) =~= s.insert(j as int, ev));
        }
    }

    /// Insert an agent into a run sorted by uuid.
    fn uuid_insert(run: &mut Vec<Agent>, a: Agent)
        ensures
            final(run)@ == old(run)@.insert(uuid_pos(old(run)@, a) as int, a),
    {
        let ghost s = run@;
        let mut j: usize = 0;
        assert(s.subrange(0, s.len() as int) =~= s);
        while j < run.len() && !str_lt(&a.uuid, &run[j].uuid)
            invariant
                s == run@,
                j <= s.len(),
                uuid_pos(s, a) == j + uuid_pos(s.subrange(j as int, s.len() as int), a),
            decreases run.len() - j,
        {
            proof {
                assert(s.subrange(j as int, s.len() as int).drop_first() =~= s.subrange(
                    j + 1,
                    s.len() as int,
                ));
                assert(s.subrange(j as int, s.len() as int)[0] == s[j as int]);
            }
            j = j + 1;
        }
        proof {
            if j < s.len() {
                assert(s.subrange(j as int, s.len() as int)[0] == s[j as int]);
            }
            assert(s.subrange(0, s.len() as int) =~= s);
        }
        run.insert(j, a);
    }

    /// The dormant rows, sorted by uuid.
    fn dormant_agents(&self) -> (r: Vec<Agent>)
        ensures
            r@ == spec_dormant_agents(self@),
    {
        let ghost v = self@;
        let mut run: Vec<Agent> = Vec::new();
        let mut i: usize = 0;
        while i < self.agents.len()
            invariant
                v == self@,
                i <= v.agents.len(),
                run@ == uuid_sort(v.agents.subrange(0, i as int).filter(is_dormant_in(v))),
            decreases self.agents.len() - i,
        {
            proof {
                reveal_with_fuel(Seq::filter, 1);
                assert(v.agents.subrange(0, (i + 1) as int).drop_last() =~= v.agents.subrange(
                    0,
                    i as int,
                ));
                assert(v.agents.subrange(0, (i + 1) as int).last() == v.agents[i as int]);
            }
            if self.is_dormant(&self.agents[i]) {
                let ghost f = v.agents.subrange(0, i as int).filter(is_dormant_in(v));
                proof {
                    assert(v.agents.subrange(0, (i + 1) as int).filter(is_dormant_in(v)) == f.push(
                        v.agents[i as int],
                    ));
                    assert(f.push(v.agents[i as int]).drop_last() =~= f);
                }
                Self::uuid_insert(&mut run, self.agents[i].copy());
            }
            i = i + 1;
        }
        assert(v.agents.subrange(0, v.agents.len() as int) =~= v.agents);
        run
    }

    /// The dormant selection, if the cursor sits on a dormant row.
    fn selected_dormant(&self) -> (r: Option<String>)
        ensures
            match r {
                Some(u) => spec_selected_dormant(self@) == Some(u@),
                None => spec_selected_dormant(self@) is None,
            },
    {
        match &self.cursor {
            Some(u) => {
                let mut i: usize = 0;
                while i < self.agents.len()
                    invariant
                        i <= self@.agents.len(),
                        self@.cursor == Some(u@),
                        forall|j: int|
                            0 <= j < i ==> !((#[trigger] self@.agents[j]).uuid@ == u@
                                && spec_is_dormant(self@, self@.agents[j])),
                    decreases self.agents.len() - i,
                {
                    if self.agents[i].uuid == *u && self.is_dormant(&self.agents[i]) {
                        assert(self@.agents[i as int].uuid@ == u@);
                        return Some(u.clone());
                    }
                    i = i + 1;
                }
                None
            },
            None => None,
        }
    }

    /// Rows in display order: two contiguous blocks, every live row first,
    /// then every dormant row, each ordered by its commitment key
    /// descending (a frecency score under that mode), ties broken by tab
    /// position for live rows and by uuid (descending) for dormant ones.
    pub fn rows(&self) -> (r: Vec<(RowKey, Row)>)
        ensures
            rows_view(r@) == spec_rows(self@),
    {
        let ghost v = self@;
        let sel = self.selected_dormant();
        let ghost gsel = spec_selected_dormant(v);
        let inks = ProvisionalInks::allocate(&self.agents);
        let mut live: Vec<Ranked> = Vec::new();
        let mut i: usize = 0;
        while i < self.tabs.len()
            invariant
                v == self@,
                inks@ == v.agents,
                gsel == spec_selected_dormant(v),
                match sel {
                    Some(u) => gsel == Some(u@),
                    None => gsel is None,
                },
                i <= v.tabs.len(),
                live@.map_values(|x: Ranked| ranked_view(x)) == rank_sort(
                    spec_live_entries(v).subrange(0, i as int),
                ),
            decreases self.tabs.len() - i,
        {
            proof {
                let le = spec_live_entries(v);
                assert(le.subrange(0, (i + 1) as int).drop_last() =~= le.subrange(0, i as int));
                assert(le.subrange(0, (i + 1) as int).last() == le[i as int]);
            }
            let t = &self.tabs[i];
            let content = match self.agent_index_in_tab(t.tab_id) {
                Some(ai) => self.agent_content(&self.agents[ai], false, false, &inks),
                None => self.terminal_content(t, &inks),
            };
            let e: Ranked = (
                self.live_key(t),
                t.position,
                RowKey::Tab(t.tab_id),
                Row { content, selected: sel.is_none() && t.active, dormant: false },
            );
            assert(ranked_view(e) == spec_live_entries(v)[i as int]);
            Self::rank_insert(&mut live, e);
            i = i + 1;
        }
        assert(spec_live_entries(v).subrange(0, v.tabs.len() as int) =~= spec_live_entries(v));
        let d = self.dormant_agents();
        let mut dormant: Vec<Ranked> = Vec::new();
        let mut k: usize = 0;
        while k < d.len()
            invariant
                v == self@,
                inks@ == v.agents,
                d@ == spec_dormant_agents(v),
                gsel == spec_selected_dormant(v),
                match sel {
                    Some(u) => gsel == Some(u@),
                    None => gsel is None,
                },
                k <= d@.len(),
                dormant@.map_values(|x: Ranked| ranked_view(x)) == rank_sort(
                    spec_dormant_entries(v).subrange(0, k as int),
                ),
            decreases d.len() - k,
        {
            proof {
                let de = spec_dormant_entries(v);
                assert(de.subrange(0, (k + 1) as int).drop_last() =~= de.subrange(0, k as int));
                assert(de.subrange(0, (k + 1) as int).last() == de[k as int]);
            }
            let a = &d[k];
            let selected = match &sel {
                Some(u) => *u == a.uuid,
                None => false,
            };
            let e: Ranked = (
                self.dormant_key(a),
                usize::MAX - k,
                RowKey::Dormant(a.uuid.clone()),
                Row { content: self.agent_content(a, true, selected, &inks), selected, dormant: true },
            );
            assert(ranked_view(e) == spec_dormant_entries(v)[k as int]);
            Self::rank_insert(&mut dormant, e);
            k = k + 1;
        }
        assert(spec_dormant_entries(v).subrange(0, d@.len() as int) =~= spec_dormant_entries(v));
        let ghost total = live@ + dormant@;
        live.append(&mut dormant);
        assert(live@ == total);
        let mut out: Vec<(RowKey, Row)> = Vec::new();
        let ghost n = total.len();
        while live.len() > 0
            invariant
                total.len() == n,
                out@.len() + live@.len() == n,
                live@ == total.subrange(out@.len() as int, n as int),
                rows_view(out@) == total.subrange(0, out@.len() as int).map_values(
                    |e: Ranked| (e.2@, e.3@),
                ),
            decreases live.len(),
        {
            let ghost m = out@.len();
            let e = live.remove(0);
            proof {
                assert(e == total[m as int]);
                assert(live@ =~= total.subrange((m + 1) as int, n as int));
            }
            let ghost old_out = out@;
            out.push((e.2, e.3));
            proof {
                assert(rows_view(out@) =~= rows_view(old_out).push((e.2@, e.3@)));
                assert(total.subrange(0, (m + 1) as int).map_values(|e: Ranked| (e.2@, e.3@))
                    =~= total.subrange(0, m as int).map_values(|e: Ranked| (e.2@, e.3@)).push(
                    (e.2@, e.3@),
                ));
            }
        }
        proof {
            assert(total.subrange(0, n as int) =~= total);
            let lv = live@;
            assert(total.map_values(|e: Ranked| (e.2@, e.3@)) =~= (total.map_values(
                |x: Ranked| ranked_view(x),
            )).map_values(|e: RankedView| (e.2, e.3)));
        }
        out
    }
}


/// The commit path: a uuid already being opened launches nothing; else it
/// is marked in flight and launched.
pub open spec fn spec_open_effects(v: ModelView, uuid: String) -> (ModelView, Seq<EffectView>) {
    if has_str(v.opening, uuid@) {
        (v, Seq::empty())
    } else {
        (
            ModelView { opening: v.opening.push(uuid), ..v },
            seq![EffectView::OpenAgent { uuid: uuid@ }],
        )
    }
}

/// The pane a terminal tab's row asks the OS about, if any: the speaker of
/// a tab no agent is bound to, not exited, not known idle, not standing
/// down.
pub open spec fn spec_probe_target(v: ModelView, t: TabMeta) -> Option<u32> {
    if spec_agent_in_tab(v, t.tab_id) is Some {
        None
    } else {
        match spec_speaker(v, t.position) {
            Some(p) => if !p.exited && match lookup_u32(v.pane_facts, p.pane_id) {
                Some(f) => f.running,
                None => true,
            } && lookup_u32(v.probe_backoff, p.pane_id) is None {
                Some(p.pane_id)
            } else {
                None
            },
            None => None,
        }
    }
}

/// The probe targets of a run of tabs, in frame order.
pub open spec fn probe_listing(v: ModelView, tabs: Seq<TabMeta>) -> Seq<u32>
    decreases tabs.len(),
{
    if tabs.len() == 0 {
        Seq::empty()
    } else {
        let rest = probe_listing(v, tabs.drop_last());
        match spec_probe_target(v, tabs.last()) {
            Some(id) => rest.push(id),
            None => rest,
        }
    }
}

/// The panes to ask the OS about: none before hydration, else each listed
/// terminal tab's speaker.
pub open spec fn spec_probe_targets(v: ModelView) -> Seq<u32> {
    if v.awaiting_hydration {
        Seq::empty()
    } else {
        probe_listing(v, v.tabs)
    }
}

/// Some listed target is known to be running a command.
pub open spec fn spec_term_poll_wanted(v: ModelView) -> bool {
    let targets = spec_probe_targets(v);
    exists|i: int|
        0 <= i < targets.len() && match lookup_u32(v.pane_facts, #[trigger] targets[i]) {
            Some(f) => f.running,
            None => false,
        }
}

impl BarModel {
    /// Mark a dormant row in flight and launch it, once.
    fn open_effects(&mut self, uuid: &String) -> (r: Vec<Effect>)
        ensures
            (final(self)@, fx_view(r@)) == spec_open_effects(old(self)@, *uuid),
    {
        if contains_str(&self.opening, uuid) {
            return no_effects();
        }
        self.opening.push(uuid.clone());
        let r = vec![Effect::OpenAgent { uuid: uuid.clone() }];
        assert(fx_view(r@) =~= seq![EffectView::OpenAgent { uuid: uuid@ }]);
        r
    }

    /// One tab's probe target.
    fn probe_target(&self, t: &TabMeta) -> (r: Option<u32>)
        ensures
            r == spec_probe_target(self@, *t),
    {
        if self.agent_index_in_tab(t.tab_id).is_some() {
            return None;
        }
        let si = match self.speaker_index(t.position) {
            Some(si) => si,
            None => return None,
        };
        let p = &self.panes[si];
        if p.exited {
            return None;
        }
        let idle = match u32_index(&self.pane_facts, p.pane_id) {
            Some(k) => !self.pane_facts[k].1.running,
            None => false,
        };
        if idle {
            return None;
        }
        if u32_index(&self.probe_backoff, p.pane_id).is_some() {
            return None;
        }
        Some(p.pane_id)
    }

    /// The panes to ask the OS about after this manifest: each terminal
    /// tab's speaker, unless it is exited, known idle or standing down.
    /// Nothing before hydration, when agents cannot yet be told apart from
    /// terminals.
    pub fn probe_targets(&self) -> (r: Vec<u32>)
        ensures
            r@ == spec_probe_targets(self@),
    {
        let mut out: Vec<u32> = Vec::new();
        if self.awaiting_hydration {
            return out;
        }
        let ghost v = self@;
        let mut i: usize = 0;
        while i < self.tabs.len()
            invariant
                v == self@,
                !v.awaiting_hydration,
                i <= v.tabs.len(),
                out@ == probe_listing(v, v.tabs.subrange(0, i as int)),
            decreases self.tabs.len() - i,
        {
            proof {
                assert(v.tabs.subrange(0, (i + 1) as int).drop_last() =~= v.tabs.subrange(0, i as int));
                assert(v.tabs.subrange(0, (i + 1) as int).last() == v.tabs[i as int]);
            }
            match self.probe_target(&self.tabs[i]) {
                Some(id) => out.push(id),
                None => {},
            }
            i = i + 1;
        }
        assert(v.tabs.subrange(0, v.tabs.len() as int) =~= v.tabs);
        out
    }

    /// Whether a listed target is running a command, so the shell should
    /// keep polling until it exits.
    pub fn term_poll_wanted(&self) -> (r: bool)
        ensures
            r == spec_term_poll_wanted(self@),
    {
        let targets = self.probe_targets();
        let mut i: usize = 0;
        while i < targets.len()
            invariant
                targets@ == spec_probe_targets(self@),
                i <= targets@.len(),
                forall|j: int|
                    0 <= j < i ==> !match lookup_u32(self@.pane_facts, #[trigger] targets@[j]) {
                        Some(f) => f.running,
                        None => false,
                    },
            decreases targets.len() - i,
        {
            match u32_index(&self.pane_facts, targets[i]) {
                Some(k) => {
                    if self.pane_facts[k].1.running {
                        return true;
                    }
                },
                None => {},
            }
            i = i + 1;
        }
        false
    }
}


/// A row that carries the selection highlight.
pub open spec fn row_is_selected() -> spec_fn((RowKeyView, RowView)) -> bool {
    |e: (RowKeyView, RowView)| e.1.selected
}

/// The first highlighted row, if any.
pub open spec fn spec_selected_line(rows: Seq<(RowKeyView, RowView)>) -> Option<nat> {
    let i = find_index(rows, row_is_selected());
    if i >= 0 {
        Some(i as nat)
    } else {
        None
    }
}

/// A landing counter's next value.
pub open spec fn bump(g: u64) -> u64 {
    if g == u64::MAX {
        0
    } else {
        (g + 1) as u64
    }
}

/// The list row a click on screen line `line` of a pane `pane_height`
/// lines tall lands on: both convert from terminal lines to rows, and the
/// line counts from the viewport's first row.
pub open spec fn spec_click_line(v: ModelView, line: usize, pane_height: usize) -> int {
    let lpr = spec_lines_per_row(v.row_height);
    let rows = spec_rows(v);
    spec_viewport_top(rows.len(), spec_selected_line(rows), (pane_height / lpr) as nat) + line
        / lpr
}

/// A click: nothing off the list; a live row switches to its tab and
/// broadcasts the beacon; a dormant row is selected, never launched.
pub open spec fn spec_click(v: ModelView, line: usize, pane_height: usize) -> (
    ModelView,
    Seq<EffectView>,
) {
    let rows = spec_rows(v);
    let i = spec_click_line(v, line, pane_height);
    if i >= rows.len() {
        (v, Seq::empty())
    } else {
        let v1 = ModelView { cursor_gen: bump(v.cursor_gen), ..v };
        match rows[i].0 {
            RowKeyView::Tab(id) => match find(v.tabs, tab_with_id(id)) {
                Some(t) => (
                    spec_beacon(v1, id),
                    seq![
                        EffectView::SwitchTab { position: t.position },
                        EffectView::AnnounceVisit { tab_id: id },
                    ],
                ),
                None => (v1, Seq::empty()),
            },
            RowKeyView::Dormant(u) => (ModelView { cursor: Some(u), ..v1 }, Seq::empty()),
        }
    }
}

/// Whether the bar's own tab holds any floating pane.
pub open spec fn spec_own_tab_has_floating(v: ModelView) -> bool {
    match spec_own_tab_position(v) {
        Some(pos) => exists|i: int|
            0 <= i < v.panes.len() && (#[trigger] v.panes[i]).tab_position == pos
                && v.panes[i].is_floating,
        None => false,
    }
}

/// A non-empty location, or none.
pub open spec fn nonempty(c: Seq<char>) -> Option<Seq<char>> {
    if c.len() > 0 {
        Some(c)
    } else {
        None
    }
}

/// Where the scratch shell opens: an agent tab's cwd, else the speaker's
/// OS-reported cwd; an empty location counts as unknown.
pub open spec fn spec_shell_spawn_cwd(v: ModelView) -> Option<Seq<char>> {
    match spec_own_tab(v) {
        None => None,
        Some(own) => match spec_agent_in_tab(v, own) {
            Some(a) => nonempty(a.cwd@),
            None => match spec_own_tab_position(v) {
                None => None,
                Some(pos) => match spec_speaker(v, pos) {
                    None => None,
                    Some(p) => match lookup_u32(v.pane_facts, p.pane_id) {
                        Some(f) => match f.cwd {
                            Some(c) => nonempty(c@),
                            None => None,
                        },
                        None => None,
                    },
                },
            },
        },
    }
}

/// The scratch-shell key, decided on the focused instance alone: hide a
/// shown floating set, show a hidden one, else spawn, once at a time.
pub open spec fn spec_shell_toggle(v: ModelView) -> (ModelView, Seq<EffectView>) {
    if !spec_own_tab_focused(v) || v.shell_spawn_pending {
        (v, Seq::empty())
    } else if spec_own_tab_floating_visible(v) {
        (v, seq![EffectView::ShellHide])
    } else if spec_own_tab_has_floating(v) {
        (v, seq![EffectView::ShellShow])
    } else {
        (
            ModelView { shell_spawn_pending: true, ..v },
            seq![EffectView::ShellSpawn { cwd: spec_shell_spawn_cwd(v) }],
        )
    }
}

impl BarModel {
    /// The first highlighted row of a rendered list.
    fn selected_line(rows: &Vec<(RowKey, Row)>) -> (r: Option<usize>)
        ensures
            match r {
                Some(i) => spec_selected_line(rows_view(rows@)) == Some(i as nat),
                None => spec_selected_line(rows_view(rows@)) is None,
            },
    {
        let ghost rv = rows_view(rows@);
        let mut i: usize = 0;
        while i < rows.len()
            invariant
                rv == rows_view(rows@),
                i <= rows@.len(),
                forall|j: int| 0 <= j < i ==> !row_is_selected()(#[trigger] rv[j]),
            decreases rows.len() - i,
        {
            if rows[i].1.selected {
                proof {
                    lemma_find_at(rv, row_is_selected(), i as int);
                }
                return Some(i);
            }
            i = i + 1;
        }
        proof {
            lemma_find_none(rv, row_is_selected());
        }
        None
    }

    /// A mouse click on screen line `line` of a pane `pane_height` lines
    /// tall, both in terminal lines: jump to a live row's tab, or select a
    /// dormant row.
    pub fn click(&mut self, line: usize, pane_height: usize) -> (r: Vec<Effect>)
        ensures
            (final(self)@, fx_view(r@)) == spec_click(old(self)@, line, pane_height),
    {
        let ghost v = self@;
        let lpr = self.row_height.lines_per_row();
        let row_line = line / lpr;
        let rows = self.rows();
        let sel = Self::selected_line(&rows);
        let top = viewport_top(rows.len(), sel, pane_height / lpr);
        if top > usize::MAX - row_line {
            return no_effects();
        }
        let i = top + row_line;
        if i >= rows.len() {
            return no_effects();
        }
        assert(rows_view(rows@)[i as int].0 == rows@[i as int].0@);
        self.cursor_gen = self.cursor_gen.wrapping_add(1);
        match &rows[i].0 {
            RowKey::Tab(id) => {
                let id = *id;
                match self.tab_index_of(id) {
                    Some(ti) => {
                        let position = self.tabs[ti].position;
                        self.beacon(id);
                        let r = vec![Effect::SwitchTab { position }, Effect::AnnounceVisit { tab_id: id }];
                        assert(fx_view(r@) =~= seq![
                            EffectView::SwitchTab { position },
                            EffectView::AnnounceVisit { tab_id: id },
                        ]);
                        r
                    },
                    None => no_effects(),
                }
            },
            RowKey::Dormant(u) => {
                self.cursor = Some(u.clone());
                no_effects()
            },
        }
    }

    /// Whether the bar's own tab holds any floating pane.
    fn own_tab_has_floating(&self) -> (r: bool)
        ensures
            r == spec_own_tab_has_floating(self@),
    {
        match self.own_tab_position() {
            Some(pos) => {
                let mut i: usize = 0;
                while i < self.panes.len()
                    invariant
                        i <= self@.panes.len(),
                        spec_own_tab_position(self@) == Some(pos),
                        forall|j: int|
                            0 <= j < i ==> !((#[trigger] self@.panes[j]).tab_position == pos
                                && self@.panes[j].is_floating),
                    decreases self.panes.len() - i,
                {
                    if self.panes[i].tab_position == pos && self.panes[i].is_floating {
                        assert(self@.panes[i as int].tab_position == pos);
                        return true;
                    }
                    i = i + 1;
                }
                false
            },
            None => false,
        }
    }

    /// Where the scratch shell should open, when the bar knows.
    fn shell_spawn_cwd(&self) -> (r: Option<String>)
        ensures
            opt_view(r) == spec_shell_spawn_cwd(self@),
    {
        let own = match self.own_tab() {
            Some(o) => o,
            None => return None,
        };
        match self.agent_index_in_tab(own) {
            Some(ai) => {
                let c = &self.agents[ai].cwd;
                return if c.as_str().is_empty() {
                    None
                } else {
                    Some(c.clone())
                };
            },
            None => {},
        }
        let pos = match self.own_tab_position() {
            Some(p) => p,
            None => return None,
        };
        let si = match self.speaker_index(pos) {
            Some(si) => si,
            None => return None,
        };
        match u32_index(&self.pane_facts, self.panes[si].pane_id) {
            Some(k) => match &self.pane_facts[k].1.cwd {
                Some(c) => if c.as_str().is_empty() {
                    None
                } else {
                    Some(c.clone())
                },
                None => None,
            },
            None => None,
        }
    }

    /// The scratch-shell key: hide, show or spawn the active tab's floating
    /// shell, decided only on the instance the beacon names.
    pub fn shell_toggle(&mut self) -> (r: Vec<Effect>)
        ensures
            (final(self)@, fx_view(r@)) == spec_shell_toggle(old(self)@),
    {
        if !self.own_tab_focused() || self.shell_spawn_pending {
            return no_effects();
        }
        if self.own_tab_floating_visible() {
            let r = vec![Effect::ShellHide];
            assert(fx_view(r@) =~= seq![EffectView::ShellHide]);
            return r;
        }
        if self.own_tab_has_floating() {
            let r = vec![Effect::ShellShow];
            assert(fx_view(r@) =~= seq![EffectView::ShellShow]);
            return r;
        }
        let cwd = self.shell_spawn_cwd();
        self.shell_spawn_pending = true;
        let r = vec![Effect::ShellSpawn { cwd }];
        assert(fx_view(r@) =~= seq![EffectView::ShellSpawn { cwd: spec_shell_spawn_cwd(old(self)@) }]);
        r
    }
}


/// A dormant row.
pub open spec fn row_is_dormant() -> spec_fn((RowKeyView, RowView)) -> bool {
    |e: (RowKeyView, RowView)| e.0 is Dormant
}

/// A row with this identity.
pub open spec fn row_keyed(k: RowKeyView) -> spec_fn((RowKeyView, RowView)) -> bool {
    |e: (RowKeyView, RowView)| e.0 == k
}

/// The length of the leading run of live rows.
pub open spec fn spec_live_block_len(rows: Seq<(RowKeyView, RowView)>) -> nat {
    let i = find_index(rows, row_is_dormant());
    if i >= 0 {
        i as nat
    } else {
        rows.len()
    }
}

/// A walk step: within the dormant block while a dormant row is selected,
/// else within the live block from the executor's own row (from the head
/// of the list when there is no live row), wrapping at the block's ends.
pub open spec fn spec_walk(
    v: ModelView,
    rows: Seq<(RowKeyView, RowView)>,
    own: usize,
    dir: Seq<char>,
) -> Option<int> {
    let live_len = spec_live_block_len(rows) as int;
    let sel: int = match v.cursor {
        Some(u) => find_index(rows, row_keyed(RowKeyView::Dormant(u))),
        None => -1,
    };
    let own_at = find_index(rows, row_keyed(RowKeyView::Tab(own)));
    let base: int = if sel >= 0 {
        live_len
    } else {
        0
    };
    let len: int = if sel >= 0 {
        rows.len() - live_len
    } else if live_len == 0 {
        rows.len() as int
    } else {
        live_len
    };
    let cur: int = if sel >= 0 {
        sel
    } else if live_len == 0 || own_at < 0 {
        0
    } else {
        own_at
    };
    let offset = cur - base;
    if dir == "next"@ {
        Some(base + (offset + 1) % len)
    } else if dir == "prev"@ {
        Some(base + (offset + len - 1) % len)
    } else {
        None
    }
}

/// The display line a pick or a walk names: a 1-based row number, or a
/// walk step; none for an empty list or an unknown direction.
pub open spec fn spec_nav_line(
    v: ModelView,
    rows: Seq<(RowKeyView, RowView)>,
    f: NavFieldsView,
    own: usize,
) -> Option<int> {
    match f.row {
        Some(n) => {
            let l = n as usize;
            if l >= 1 {
                Some(l - 1)
            } else {
                None
            }
        },
        None => match f.dir {
            Some(d) => if rows.len() == 0 {
                None
            } else {
                spec_walk(v, rows, own, d)
            },
            None => None,
        },
    }
}

/// Landing on a row: a live row clears the selection and jumps, by the
/// bound agent's registered pane where there is one, else by tab
/// position; a dormant row is selected, and a collapsed bar peeks.
pub open spec fn spec_land(v: ModelView, key: RowKeyView) -> (ModelView, Seq<EffectView>) {
    let v1 = ModelView { cursor_gen: bump(v.cursor_gen), ..v };
    match key {
        RowKeyView::Tab(id) => {
            let v2 = ModelView { cursor: None, ..v1 };
            let pane = match spec_agent_in_tab(v, id) {
                Some(a) => spec_pane_of(v, a.uuid@),
                None => None,
            };
            match pane {
                Some(p) => (
                    spec_beacon(v2, id),
                    seq![
                        EffectView::FocusPane { pane_id: p },
                        EffectView::AnnounceVisit { tab_id: id },
                    ],
                ),
                None => match find(v.tabs, tab_with_id(id)) {
                    Some(t) => (
                        spec_beacon(v2, id),
                        seq![
                            EffectView::SwitchTab { position: t.position },
                            EffectView::AnnounceVisit { tab_id: id },
                        ],
                    ),
                    None => (v2, Seq::empty()),
                },
            }
        },
        RowKeyView::Dormant(u) => {
            let v2 = ModelView { cursor: Some(u), ..v1 };
            if v.collapsed {
                (ModelView { peeking: true, ..v2 }, seq![EffectView::ArmPeek])
            } else {
                (v2, Seq::empty())
            }
        },
    }
}

/// Committing the dormant selection: only a dormant, non-stale selected
/// row launches.
pub open spec fn spec_commit(v: ModelView) -> (ModelView, Seq<EffectView>) {
    match v.cursor {
        None => (v, Seq::empty()),
        Some(u) => match find(v.agents, agent_with_uuid(u)) {
            Some(a) => if spec_is_dormant(v, a) && !a.stale {
                spec_open_effects(v, a.uuid)
            } else {
                (v, Seq::empty())
            },
            None => (v, Seq::empty()),
        },
    }
}

/// A navigation press, given what the payload parsed to: a uuid focuses
/// its registered pane on every instance; everything else runs on the
/// executor only: a commit launches the selection, a row or a walk lands.
pub open spec fn spec_nav_parsed(
    v: ModelView,
    fields: Option<NavFieldsView>,
    executor_own_tab: Option<usize>,
) -> (ModelView, Seq<EffectView>) {
    match fields {
        None => (v, Seq::empty()),
        Some(f) => match f.uuid {
            Some(u) => match spec_pane_of(v, u) {
                Some(p) => (v, seq![EffectView::FocusPane { pane_id: p }]),
                None => (v, Seq::empty()),
            },
            None => match executor_own_tab {
                None => (v, Seq::empty()),
                Some(own) => if f.commit == Some(true) {
                    spec_commit(v)
                } else {
                    let rows = spec_rows(v);
                    match spec_nav_line(v, rows, f, own) {
                        Some(l) => if 0 <= l < rows.len() {
                            spec_land(v, rows[l].0)
                        } else {
                            (v, Seq::empty())
                        },
                        None => (v, Seq::empty()),
                    }
                },
            },
        },
    }
}

impl BarModel {
    /// The length of the leading run of live rows of a rendered list.
    fn live_block_len(rows: &Vec<(RowKey, Row)>) -> (r: usize)
        ensures
            r == spec_live_block_len(rows_view(rows@)),
            r <= rows@.len(),
    {
        let ghost rv = rows_view(rows@);
        let mut i: usize = 0;
        while i < rows.len()
            invariant
                rv == rows_view(rows@),
                i <= rows@.len(),
                forall|j: int| 0 <= j < i ==> !row_is_dormant()(#[trigger] rv[j]),
            decreases rows.len() - i,
        {
            if let RowKey::Dormant(_) = &rows[i].0 {
                proof {
                    lemma_find_at(rv, row_is_dormant(), i as int);
                }
                return i;
            }
            i = i + 1;
        }
        proof {
            lemma_find_none(rv, row_is_dormant());
        }
        i
    }

    /// Where a row with this identity stands in a rendered list.
    fn row_position(rows: &Vec<(RowKey, Row)>, key: &RowKey) -> (r: Option<usize>)
        ensures
            match r {
                Some(i) => find_index(rows_view(rows@), row_keyed(key@)) == i,
                None => find_index(rows_view(rows@), row_keyed(key@)) == -1,
            },
    {
        let ghost rv = rows_view(rows@);
        let mut i: usize = 0;
        while i < rows.len()
            invariant
                rv == rows_view(rows@),
                i <= rows@.len(),
                forall|j: int| 0 <= j < i ==> !row_keyed(key@)(#[trigger] rv[j]),
            decreases rows.len() - i,
        {
            let hit = match (&rows[i].0, key) {
                (RowKey::Tab(a), RowKey::Tab(b)) => *a == *b,
                (RowKey::Dormant(a), RowKey::Dormant(b)) => *a == *b,
                _ => false,
            };
            if hit {
                proof {
                    lemma_find_at(rv, row_keyed(key@), i as int);
                }
                return Some(i);
            }
            i = i + 1;
        }
        proof {
            lemma_find_none(rv, row_keyed(key@));
        }
        None
    }

    /// A walk step over a rendered list.
    fn walk(&self, rows: &Vec<(RowKey, Row)>, own: usize, dir: &String) -> (r: Option<usize>)
        requires
            rows@.len() > 0,
        ensures
            match r {
                Some(l) => spec_walk(self@, rows_view(rows@), own, dir@) == Some(l as int),
                None => spec_walk(self@, rows_view(rows@), own, dir@) is None,
            },
    {
        let ghost rv = rows_view(rows@);
        let live_len = Self::live_block_len(rows);
        let sel = match &self.cursor {
            Some(u) => Self::row_position(rows, &RowKey::Dormant(u.clone())),
            None => None,
        };
        let (base, len, cur) = match sel {
            Some(p) => {
                proof {
                    let c = self@.cursor->0;
                    lemma_find_iff(rv, row_is_dormant());
                    lemma_find_iff(rv, row_keyed(RowKeyView::Dormant(c)));
                    lemma_find_some(rv, row_keyed(RowKeyView::Dormant(c)));
                    if find_index(rv, row_is_dormant()) >= 0 {
                        lemma_find_some(rv, row_is_dormant());
                    } else {
                        lemma_not_any(rv, row_is_dormant());
                    }
                    assert(row_is_dormant()(rv[p as int]));
                    assert(p >= live_len);
                }
                (live_len, rows.len() - live_len, p)
            },
            None => if live_len == 0 {
                (0, rows.len(), 0)
            } else {
                let at = match Self::row_position(rows, &RowKey::Tab(own)) {
                    Some(i) => i,
                    None => 0,
                };
                (0, live_len, at)
            },
        };
        proof {
            if sel is Some {
                lemma_find_iff(rv, row_keyed(RowKeyView::Dormant(self@.cursor->0)));
                lemma_find_some(rv, row_keyed(RowKeyView::Dormant(self@.cursor->0)));
            } else if live_len > 0 {
                if find_index(rv, row_keyed(RowKeyView::Tab(own))) >= 0 {
                    lemma_find_iff(rv, row_keyed(RowKeyView::Tab(own)));
                    lemma_find_some(rv, row_keyed(RowKeyView::Tab(own)));
                }
            }
        }
        assert(cur >= base && len > 0 && base + len <= rows@.len());
        let offset = cur - base;
        let o = offset % len;
        if str_eq(dir.as_str(), "next") {
            proof {
                lemma_add_mod_noop_right(1, offset as int, len as int);
                lemma_mod_bound((1 + o) as int, len as int);
            }
            Some(base + (o + 1) % len)
        } else if str_eq(dir.as_str(), "prev") {
            proof {
                lemma_add_mod_noop_right((len - 1) as int, offset as int, len as int);
                lemma_mod_bound(offset as int, len as int);
                if o == 0 {
                    lemma_small_mod((len - 1) as nat, len as nat);
                } else {
                    lemma_mod_add_multiples_vanish((o - 1) as int, len as int);
                    lemma_small_mod((o - 1) as nat, len as nat);
                }
            }
            let step = if o == 0 {
                len - 1
            } else {
                o - 1
            };
            Some(base + step)
        } else {
            None
        }
    }

    /// The display line a press names.
    fn nav_line(&self, rows: &Vec<(RowKey, Row)>, f: &NavFields, own: usize) -> (r: Option<usize>)
        ensures
            match r {
                Some(l) => spec_nav_line(self@, rows_view(rows@), f@, own) == Some(l as int),
                None => spec_nav_line(self@, rows_view(rows@), f@, own) is None,
            },
    {
        match f.row {
            Some(n) => {
                let l = n as usize;
                if l >= 1 {
                    Some(l - 1)
                } else {
                    None
                }
            },
            None => match &f.dir {
                Some(d) => if rows.len() == 0 {
                    None
                } else {
                    self.walk(rows, own, d)
                },
                None => None,
            },
        }
    }

    /// Land on a row.
    fn land(&mut self, key: RowKey) -> (r: Vec<Effect>)
        ensures
            (final(self)@, fx_view(r@)) == spec_land(old(self)@, key@),
    {
        self.cursor_gen = self.cursor_gen.wrapping_add(1);
        match key {
            RowKey::Tab(id) => {
                self.cursor = None;
                let pane = match self.agent_index_in_tab(id) {
                    Some(ai) => self.pane_of(&self.agents[ai].uuid),
                    None => None,
                };
                let jump = match pane {
                    Some(pane_id) => Effect::FocusPane { pane_id },
                    None => match self.tab_index_of(id) {
                        Some(ti) => Effect::SwitchTab { position: self.tabs[ti].position },
                        None => return no_effects(),
                    },
                };
                self.beacon(id);
                let r = vec![jump, Effect::AnnounceVisit { tab_id: id }];
                assert(fx_view(r@) =~= seq![jump@, EffectView::AnnounceVisit { tab_id: id }]);
                r
            },
            RowKey::Dormant(u) => {
                self.cursor = Some(u);
                if self.collapsed {
                    self.peeking = true;
                    let r = vec![Effect::ArmPeek];
                    assert(fx_view(r@) =~= seq![EffectView::ArmPeek]);
                    r
                } else {
                    no_effects()
                }
            },
        }
    }

    /// Launch the dormant selection, if it may launch.
    fn commit(&mut self) -> (r: Vec<Effect>)
        ensures
            (final(self)@, fx_view(r@)) == spec_commit(old(self)@),
    {
        let u = match &self.cursor {
            Some(u) => u.clone(),
            None => return no_effects(),
        };
        match self.agent_index_of(&u) {
            Some(ai) => {
                if self.is_dormant(&self.agents[ai]) && !self.agents[ai].stale {
                    let uuid = self.agents[ai].uuid.clone();
                    self.open_effects(&uuid)
                } else {
                    no_effects()
                }
            },
            None => no_effects(),
        }
    }

    /// A navigation press, given what its payload parsed to.
    pub fn nav_parsed(&mut self, fields: Option<NavFields>, executor_own_tab: Option<usize>) -> (r:
        Vec<Effect>)
        ensures
            (final(self)@, fx_view(r@)) == spec_nav_parsed(
                old(self)@,
                fields_view(fields),
                executor_own_tab,
            ),
    {
        let f = match fields {
            Some(f) => f,
            None => return no_effects(),
        };
        match &f.uuid {
            Some(u) => {
                return match self.pane_of(u) {
                    Some(pane_id) => {
                        let r = vec![Effect::FocusPane { pane_id }];
                        assert(fx_view(r@) =~= seq![EffectView::FocusPane { pane_id }]);
                        r
                    },
                    None => no_effects(),
                };
            },
            None => {},
        }
        let own = match executor_own_tab {
            Some(o) => o,
            None => return no_effects(),
        };
        if f.commit == Some(true) {
            return self.commit();
        }
        let mut rows = self.rows();
        let l = match self.nav_line(&rows, &f, own) {
            Some(l) => l,
            None => return no_effects(),
        };
        if l >= rows.len() {
            return no_effects();
        }
        let (key, _) = rows.remove(l);
        assert(key@ == spec_rows(old(self)@)[l as int].0);
        self.land(key)
    }

    /// The navigation pipe: `{"uuid":…}` focuses that agent's registered
    /// pane on every instance; `{"commit":true}`, `{"row":N}` and
    /// `{"dir":"next"|"prev"}` act on the executor alone
    /// (`executor_own_tab` is its own tab there and `None` elsewhere).
    /// A payload that is not JSON does nothing.
    pub fn nav(&mut self, payload: &str, executor_own_tab: Option<usize>) -> (r: Vec<Effect>)
        ensures
            (final(self)@, fx_view(r@)) == spec_nav_parsed(
                old(self)@,
                json_nav_fields(payload@),
                executor_own_tab,
            ),
    {
        let fields = parse_nav_fields(payload);
        self.nav_parsed(fields, executor_own_tab)
    }
}


impl BarModel {
    /// The dormant selection, if any.
    pub fn cursor(&self) -> (r: Option<String>)
        ensures
            opt_view(r) == self@.cursor,
    {
        match &self.cursor {
            Some(u) => Some(u.clone()),
            None => None,
        }
    }

    /// How many landings this bar has seen (wrapping).
    pub fn cursor_gen(&self) -> (r: u64)
        ensures
            r == self@.cursor_gen,
    {
        self.cursor_gen
    }

    /// The fleet as the last accepted snapshot carried it.
    pub fn agents(&self) -> (r: &Vec<Agent>)
        ensures
            r@ == self@.agents,
    {
        &self.agents
    }

    /// The store's tab commitment ordinals, as last accepted.
    pub fn tab_order(&self) -> (r: &Vec<(usize, u64)>)
        ensures
            r@ == self@.tab_order,
    {
        &self.tab_order
    }

    /// The ranking mode, as last accepted.
    pub fn order(&self) -> (r: OrderMode)
        ensures
            r == self@.order,
    {
        self.order
    }

    /// The store's day number, as last accepted.
    pub fn today(&self) -> (r: u32)
        ensures
            r == self@.today,
    {
        self.today
    }

    /// The terminal tabs' frecency scores, as last accepted.
    pub fn tab_frecency(&self) -> (r: &Vec<(usize, u64)>)
        ensures
            r@ == self@.tab_frecency,
    {
        &self.tab_frecency
    }

    /// The rows whose open is in flight.
    pub fn opening(&self) -> (r: &Vec<String>)
        ensures
            r@ == self@.opening,
    {
        &self.opening
    }

    /// Replace the set of rows whose open is in flight.
    pub fn set_opening(&mut self, opening: Vec<String>)
        ensures
            final(self)@ == (ModelView { opening: opening@, ..old(self)@ }),
    {
        self.opening = opening;
    }
}


/// Claim the fast timer: granted only when none is in flight, stamped with
/// the model's clock.
pub open spec fn spec_arm_fast_tick(v: ModelView) -> (ModelView, bool) {
    if v.fast_armed_at is None {
        (ModelView { fast_armed_at: Some(v.now), ..v }, true)
    } else {
        (v, false)
    }
}

/// The fast timer fired: the claim ends, the spinner advances a frame, and
/// one owed tick of a width cooldown is spent; the last one judges the
/// latest paint.
pub open spec fn spec_fast_tick_elapsed(v: ModelView) -> (ModelView, Seq<EffectView>) {
    let v1 = ModelView { fast_armed_at: None, spin_frame: bump(v.spin_frame), ..v };
    if v.swap_owed == 0 {
        (v1, Seq::empty())
    } else if v.swap_owed == 1 {
        spec_width_cooldown_elapsed(ModelView { swap_owed: 0, ..v1 })
    } else {
        (ModelView { swap_owed: (v.swap_owed - 1) as u8, ..v1 }, Seq::empty())
    }
}

/// A timer fired that the shell did not read as the fast one: the fast
/// claim is nevertheless spent when no other kind of timer is outstanding
/// (it can only have been the fast one), or when it is older than the
/// strand window (the host never honoured it).
pub open spec fn spec_expire_stale_fast_tick(v: ModelView, others_outstanding: bool) -> (
    ModelView,
    Seq<EffectView>,
) {
    match v.fast_armed_at {
        Some(t) => if !others_outstanding || (t <= v.now && v.now - t >= FAST_STRAND_SECS) {
            spec_fast_tick_elapsed(v)
        } else {
            (v, Seq::empty())
        },
        None => (v, Seq::empty()),
    }
}

impl BarModel {
    /// Claim the fast timer. True when the shell must arm it: at most one is
    /// ever in flight, whoever asks (the width cooldown or the spinner).
    pub fn arm_fast_tick(&mut self) -> (r: bool)
        ensures
            (final(self)@, r) == spec_arm_fast_tick(old(self)@),
    {
        if self.fast_armed_at.is_some() {
            return false;
        }
        self.fast_armed_at = Some(self.now);
        true
    }

    /// Whether a fast tick is in flight.
    pub fn fast_tick_in_flight(&self) -> (r: bool)
        ensures
            r == self@.fast_armed_at is Some,
    {
        self.fast_armed_at.is_some()
    }

    /// The spinner's animation frame.
    pub fn spin_frame(&self) -> (r: u64)
        ensures
            r == self@.spin_frame,
    {
        self.spin_frame
    }

    /// The fast timer fired.
    pub fn fast_tick_elapsed(&mut self) -> (r: Vec<Effect>)
        ensures
            (final(self)@, fx_view(r@)) == spec_fast_tick_elapsed(old(self)@),
    {
        self.fast_armed_at = None;
        self.spin_frame = self.spin_frame.wrapping_add(1);
        if self.swap_owed == 0 {
            return no_effects();
        }
        if self.swap_owed == 1 {
            self.swap_owed = 0;
            return self.width_cooldown_elapsed();
        }
        self.swap_owed = self.swap_owed - 1;
        no_effects()
    }

    /// Some other timer fired: drop a fast claim that can only have been
    /// the one that fired, or that the host never honoured.
    pub fn expire_stale_fast_tick(&mut self, others_outstanding: bool) -> (r: Vec<Effect>)
        ensures
            (final(self)@, fx_view(r@)) == spec_expire_stale_fast_tick(
                old(self)@,
                others_outstanding,
            ),
    {
        match self.fast_armed_at {
            Some(t) => {
                if !others_outstanding || (t <= self.now && self.now - t >= FAST_STRAND_SECS) {
                    self.fast_tick_elapsed()
                } else {
                    no_effects()
                }
            },
            None => no_effects(),
        }
    }
}

} // verus!
