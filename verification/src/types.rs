//! The store's data as the bar receives it: agents, the seq-gated snapshot,
//! the ordering mode and the row geometry. Plain values only; the JSON that
//! carries them is decoded by the plugin shell.
use vstd::prelude::*;

verus! {

/// An agent's turn state, as the store's status hooks report it.
#[derive(Debug, Clone, Copy, PartialEq, Eq, Structural)]
pub enum Status {
    Idle,
    Working,
    NeedsYou,
    Done,
    Failed,
}

/// How rows rank: by the commitment ordinal, or by a frecency score whose
/// half-life the user dials.
#[derive(Debug, Clone, Copy, PartialEq, Eq, Structural)]
pub enum OrderMode {
    Recency,
    Frecency { half_life_hours: u32 },
}

/// The half-life the store dials frecency to unless told otherwise.
pub const DEFAULT_HALF_LIFE_HOURS: u32 = 24;

impl Default for OrderMode {
    /// The store's default: frecency at a one-day half-life.
    fn default() -> (r: OrderMode)
        ensures
            r == (OrderMode::Frecency { half_life_hours: DEFAULT_HALF_LIFE_HOURS }),
    {
        OrderMode::Frecency { half_life_hours: DEFAULT_HALF_LIFE_HOURS }
    }
}

/// Which row geometry the bar renders: one line per row, the two-line card,
/// or the four-line card.
#[derive(Debug, Clone, Copy, PartialEq, Eq, Structural)]
pub enum RowHeight {
    Single,
    Double,
    Card,
}

/// The declared pane width of each geometry, expanded and collapsed.
pub open spec fn spec_target_cols(h: RowHeight, collapsed: bool) -> usize {
    match h {
        RowHeight::Single => if collapsed { 30 } else { 44 },
        RowHeight::Double => if collapsed { 38 } else { 48 },
        RowHeight::Card => if collapsed { 16 } else { 48 },
    }
}

/// Terminal lines one row occupies in each geometry.
pub open spec fn spec_lines_per_row(h: RowHeight) -> usize {
    match h {
        RowHeight::Single => 1,
        RowHeight::Double => 2,
        RowHeight::Card => 4,
    }
}

/// The geometry a plugin-configuration value names; anything else, absence
/// included, fails closed to `Double`.
pub open spec fn spec_row_height_from(value: Option<Seq<char>>) -> RowHeight {
    match value {
        Some(v) => if v == "single"@ {
            RowHeight::Single
        } else if v == "card"@ {
            RowHeight::Card
        } else {
            RowHeight::Double
        },
        None => RowHeight::Double,
    }
}

impl Default for RowHeight {
    /// The shipping default geometry: the two-line card.
    fn default() -> (r: RowHeight)
        ensures
            r == RowHeight::Double,
    {
        RowHeight::Double
    }
}

impl RowHeight {
    /// The pane width this geometry declares for the given collapse mode.
    pub fn target_cols(self, collapsed: bool) -> (r: usize)
        ensures
            r == spec_target_cols(self, collapsed),
    {
        match self {
            RowHeight::Single => if collapsed { 30 } else { 44 },
            RowHeight::Double => if collapsed { 38 } else { 48 },
            RowHeight::Card => if collapsed { 16 } else { 48 },
        }
    }

    /// Terminal lines per row.
    pub fn lines_per_row(self) -> (r: usize)
        ensures
            r == spec_lines_per_row(self),
            r >= 1,
    {
        match self {
            RowHeight::Single => 1,
            RowHeight::Double => 2,
            RowHeight::Card => 4,
        }
    }

    /// Parses the `row_height` configuration value.
    pub fn from_config_value(value: Option<&str>) -> (r: RowHeight)
        ensures
            r == spec_row_height_from(
                match value {
                    Some(v) => Some(v@),
                    None => None,
                },
            ),
    {
        match value {
            Some(v) => {
                if crate::text::str_eq(v, "single") {
                    RowHeight::Single
                } else if crate::text::str_eq(v, "card") {
                    RowHeight::Card
                } else {
                    RowHeight::Double
                }
            },
            None => RowHeight::Double,
        }
    }
}

/// The plugin-configuration key naming the CLI binary the bar invokes.
pub const CLAVE_BINARY_KEY: &'static str = "clave_binary";

/// The plugin-configuration key naming the row geometry.
pub const ROW_HEIGHT_KEY: &'static str = "row_height";

/// Days of interaction buckets the store retains; older buckets score zero.
pub const BUCKET_RETAIN_DAYS: u32 = 7;

/// One conversation as the store knows it.
#[derive(Debug, Clone, PartialEq, Eq)]
pub struct Agent {
    pub uuid: String,
    pub cwd: String,
    pub repo_root: String,
    pub branch: String,
    pub label: String,
    pub status: Status,
    pub last_interacted: u64,
    pub commit_ord: u64,
    /// The agent's frecency score in millipoints under the snapshot's dial
    /// and day, computed from its interaction buckets as it is decoded.
    pub frecency: u64,
    pub last_visited: u64,
    pub tab_id: Option<usize>,
    pub pane_id: Option<u32>,
    pub stale: bool,
    pub title: Option<String>,
    pub summary: String,
    pub worktree: Option<String>,
    pub default_branch: Option<String>,
    pub context_tokens: Option<u64>,
    pub context_level: Option<u8>,
    pub model: Option<String>,
    pub provider: Option<String>,
    pub pr_number: Option<u32>,
}

impl Agent {
    /// An equal copy.
    pub fn copy(&self) -> (r: Agent)
        ensures
            r == *self,
    {
        Agent {
            uuid: self.uuid.clone(),
            cwd: self.cwd.clone(),
            repo_root: self.repo_root.clone(),
            branch: self.branch.clone(),
            label: self.label.clone(),
            status: self.status,
            last_interacted: self.last_interacted,
            commit_ord: self.commit_ord,
            frecency: self.frecency,
            last_visited: self.last_visited,
            tab_id: self.tab_id,
            pane_id: self.pane_id,
            stale: self.stale,
            title: crate::text::copy_opt_string(&self.title),
            summary: self.summary.clone(),
            worktree: crate::text::copy_opt_string(&self.worktree),
            default_branch: crate::text::copy_opt_string(&self.default_branch),
            context_tokens: self.context_tokens,
            context_level: self.context_level,
            model: crate::text::copy_opt_string(&self.model),
            provider: crate::text::copy_opt_string(&self.provider),
            pr_number: self.pr_number,
        }
    }
}

/// A full-replace store snapshot. The tab-keyed tables are association
/// lists keyed by tab id; a lookup reads the first entry for a key.
#[derive(Debug, Clone, PartialEq, Eq)]
pub struct AgentSnapshot {
    pub collapsed: bool,
    pub seq: u64,
    pub agents: Vec<Agent>,
    /// tab id → commitment ordinal of the last user commitment.
    pub tab_order: Vec<(usize, u64)>,
    pub order: OrderMode,
    pub today: u32,
    /// tab id → frecency score in millipoints of the tab's own buckets.
    pub tab_frecency: Vec<(usize, u64)>,
    /// tab id → unix seconds of the last interaction with a terminal tab.
    pub tab_touched: Vec<(usize, u64)>,
}

} // verus!
