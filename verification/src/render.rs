//! The row presentation the model hands the renderer: one `Row` per line of
//! the list, its content, and the viewport arithmetic the renderer and the
//! click map share.
use vstd::prelude::*;

verus! {

/// Where an agent's checkout sits relative to its repo: the ordinary
/// checkout of the default branch renders nothing.
#[derive(Debug, Clone, Copy, PartialEq, Eq, Structural)]
pub enum Provenance {
    Main,
    Branch,
    Worktree,
}

/// An agent row's status cell. `Stale`, `Opening` and the two dormant
/// states are model states that outrank the store's status.
#[derive(Debug, Clone, Copy, PartialEq, Eq, Structural)]
pub enum RowStatus {
    Idle,
    Working,
    NeedsYou,
    Done,
    Failed,
    Stale,
    Opening,
    Dormant,
    DormantSelected,
}

/// A terminal row's status cell.
#[derive(Debug, Clone, Copy, PartialEq, Eq, Structural)]
pub enum TermStatus {
    Running,
    Idle,
    Done,
    Failed,
}

/// Everything one row shows.
#[derive(Debug, Clone, PartialEq, Eq)]
pub enum RowContent {
    Agent {
        status: RowStatus,
        battery: Option<u8>,
        tokens: Option<u64>,
        provenance: Provenance,
        title: Option<String>,
        title_ink: Option<u8>,
        repo: String,
        repo_ink: Option<u8>,
        summary: String,
        model: Option<String>,
        provider: Option<String>,
        pr: Option<u32>,
        branch: String,
        elapsed: Option<String>,
        /// The reasoning-effort tag, when the host reports one.
        effort: Option<String>,
        /// What the row is blocked on, in its own words.
        wants: Option<String>,
        /// Whether any subagent of the row is in flight.
        subagents: bool,
    },
    Terminal {
        name: String,
        status: TermStatus,
        provenance: Provenance,
        repo: Option<String>,
        repo_ink: Option<u8>,
        command: String,
        pr: Option<u32>,
        branch: String,
        elapsed: Option<String>,
    },
}

/// One row of the list: its content, whether it is the highlighted one, and
/// whether it belongs to the dormant block.
#[derive(Debug, Clone, PartialEq, Eq)]
pub struct Row {
    pub content: RowContent,
    pub selected: bool,
    pub dormant: bool,
}

/// An optional string as plain values.
pub open spec fn opt_view(o: Option<String>) -> Option<Seq<char>> {
    match o {
        Some(s) => Some(s@),
        None => None,
    }
}

/// A row's content as plain values.
pub ghost enum ContentView {
    Agent {
        status: RowStatus,
        battery: Option<u8>,
        tokens: Option<u64>,
        provenance: Provenance,
        title: Option<Seq<char>>,
        title_ink: Option<u8>,
        repo: Seq<char>,
        repo_ink: Option<u8>,
        summary: Seq<char>,
        model: Option<Seq<char>>,
        provider: Option<Seq<char>>,
        pr: Option<u32>,
        branch: Seq<char>,
        elapsed: Option<Seq<char>>,
        effort: Option<Seq<char>>,
        wants: Option<Seq<char>>,
        subagents: bool,
    },
    Terminal {
        name: Seq<char>,
        status: TermStatus,
        provenance: Provenance,
        repo: Option<Seq<char>>,
        repo_ink: Option<u8>,
        command: Seq<char>,
        pr: Option<u32>,
        branch: Seq<char>,
        elapsed: Option<Seq<char>>,
    },
}

impl View for RowContent {
    type V = ContentView;

    open spec fn view(&self) -> ContentView {
        match self {
            RowContent::Agent {
                status,
                battery,
                tokens,
                provenance,
                title,
                title_ink,
                repo,
                repo_ink,
                summary,
                model,
                provider,
                pr,
                branch,
                elapsed,
                effort,
                wants,
                subagents,
            } => ContentView::Agent {
                status: *status,
                battery: *battery,
                tokens: *tokens,
                provenance: *provenance,
                title: opt_view(*title),
                title_ink: *title_ink,
                repo: repo@,
                repo_ink: *repo_ink,
                summary: summary@,
                model: opt_view(*model),
                provider: opt_view(*provider),
                pr: *pr,
                branch: branch@,
                elapsed: opt_view(*elapsed),
                effort: opt_view(*effort),
                wants: opt_view(*wants),
                subagents: *subagents,
            },
            RowContent::Terminal {
                name,
                status,
                provenance,
                repo,
                repo_ink,
                command,
                pr,
                branch,
                elapsed,
            } => ContentView::Terminal {
                name: name@,
                status: *status,
                provenance: *provenance,
                repo: opt_view(*repo),
                repo_ink: *repo_ink,
                command: command@,
                pr: *pr,
                branch: branch@,
                elapsed: opt_view(*elapsed),
            },
        }
    }
}

impl RowContent {
    /// A terminal row that knows nothing beyond its tab's name: idle, in
    /// no checkout, with no command.
    pub fn terminal(name: &str) -> (r: RowContent)
        ensures
            r@ == (ContentView::Terminal {
                name: name@,
                status: TermStatus::Idle,
                provenance: Provenance::Main,
                repo: None,
                repo_ink: None,
                command: Seq::empty(),
                pr: None,
                branch: Seq::empty(),
                elapsed: None,
            }),
    {
        let cs = crate::text::chars_of(name);
        RowContent::Terminal {
            name: crate::text::string_of(cs.as_slice()),
            status: TermStatus::Idle,
            provenance: Provenance::Main,
            repo: None,
            repo_ink: None,
            command: String::new(),
            pr: None,
            branch: String::new(),
            elapsed: None,
        }
    }
}

/// A row as plain values.
pub ghost struct RowView {
    pub content: ContentView,
    pub selected: bool,
    pub dormant: bool,
}

impl View for Row {
    type V = RowView;

    open spec fn view(&self) -> RowView {
        RowView { content: self.content@, selected: self.selected, dormant: self.dormant }
    }
}

/// The width profile a bar renders at.
#[allow(non_camel_case_types)]
#[derive(Debug, Clone, Copy, PartialEq, Eq, Structural)]
pub enum Widths {
    EXPANDED,
    COLLAPSED,
}

/// How many distinct inks the palette holds; allocation wraps at it.
pub const PALETTE_LEN: usize = 8;

/// Rows of lookahead the viewport keeps below the selected row, limited so
/// the selected row itself always fits.
pub open spec fn spec_lookahead(height: nat) -> nat {
    if height >= 3 {
        2
    } else if height >= 1 {
        (height - 1) as nat
    } else {
        0
    }
}

/// The first row the viewport shows: 0 when everything fits or nothing is
/// selected; otherwise low enough that the selection keeps its lookahead
/// below it, never past the end of the list.
pub open spec fn spec_viewport_top(n: nat, selected: Option<nat>, height: nat) -> nat {
    if height == 0 || n <= height {
        0
    } else {
        match selected {
            None => 0,
            Some(s) => {
                let want: int = s + spec_lookahead(height) + 1 - height;
                let max: int = n - height;
                if want <= 0 {
                    0
                } else if want >= max {
                    max as nat
                } else {
                    want as nat
                }
            },
        }
    }
}

/// The viewport's first row for a list of `n` rows, the selected one, and a
/// pane `height` rows tall.
pub fn viewport_top(n: usize, selected: Option<usize>, height: usize) -> (r: usize)
    ensures
        r == spec_viewport_top(
            n as nat,
            match selected {
                Some(s) => Some(s as nat),
                None => None,
            },
            height as nat,
        ),
{
    if height == 0 || n <= height {
        return 0;
    }
    match selected {
        None => 0,
        Some(s) => {
            let look: usize = if height >= 3 {
                2
            } else {
                height - 1
            };
            let max = n - height;
            if s >= n {
                return max;
            }
            let d = height - 1 - look;
            if s <= d {
                0
            } else if s - d >= max {
                max
            } else {
                s - d
            }
        },
    }
}

/// The selected row is always on screen: whenever the pane has room for a
/// row and the selection is a row of the list, it lies inside the window the
/// viewport shows.
pub proof fn law_the_selection_is_always_on_screen(n: nat, s: nat, height: nat)
    requires
        height > 0,
        s < n,
    ensures
        spec_viewport_top(n, Some(s), height) <= s < spec_viewport_top(n, Some(s), height)
            + height,
{
}


/// The spinner's glyphs, from a dot through progressively heavier stars.
pub open spec fn think_glyph(i: int) -> char {
    if i == 0 {
        '\u{00b7}'
    } else if i == 1 {
        '\u{2722}'
    } else if i == 2 {
        '\u{2733}'
    } else if i == 3 {
        '\u{2736}'
    } else if i == 4 {
        '\u{273b}'
    } else {
        '\u{273d}'
    }
}

/// The spinner cycle's length: six frames out, the four inner ones back.
pub const THINK_CYCLE: u64 = 10;

/// The spinner's glyph at animation frame `t`: the cycle ping-pongs so it
/// turns over without a jump.
pub open spec fn spec_think_frame(t: u64) -> char {
    let i = t % THINK_CYCLE;
    if i < 6 {
        think_glyph(i as int)
    } else {
        think_glyph(THINK_CYCLE - i)
    }
}

/// The spinner's glyph at animation frame `t`.
pub fn think_frame(t: u64) -> (r: char)
    ensures
        r == spec_think_frame(t),
{
    let i = t % THINK_CYCLE;
    let k = if i < 6 {
        i
    } else {
        THINK_CYCLE - i
    };
    if k == 0 {
        '\u{00b7}'
    } else if k == 1 {
        '\u{2722}'
    } else if k == 2 {
        '\u{2733}'
    } else if k == 3 {
        '\u{2736}'
    } else if k == 4 {
        '\u{273b}'
    } else {
        '\u{273d}'
    }
}

/// A row whose status mark animates: an agent mid-turn.
pub open spec fn row_thinks(r: RowView) -> bool {
    match r.content {
        ContentView::Agent { status, .. } => status == RowStatus::Working,
        ContentView::Terminal { .. } => false,
    }
}

/// The rows as plain values.
pub open spec fn row_views(rows: Seq<Row>) -> Seq<RowView> {
    rows.map_values(|r: Row| r@)
}

/// The first highlighted row of a list, if any.
pub open spec fn first_selected(rows: Seq<RowView>) -> Option<nat> {
    if exists|i: int| 0 <= i < rows.len() && (#[trigger] rows[i]).selected {
        Some(
            (choose|i: int|
                0 <= i < rows.len() && rows[i].selected && forall|j: int|
                    0 <= j < i ==> !(#[trigger] rows[j]).selected) as nat,
        )
    } else {
        None
    }
}

/// The rows a pane `height` rows tall shows: from the viewport's first row,
/// as many as fit.
pub open spec fn spec_visible_span(rows: Seq<RowView>, height: nat) -> (nat, nat) {
    let top = spec_viewport_top(rows.len(), first_selected(rows), height);
    let end: nat = if top + height <= rows.len() {
        top + height
    } else {
        rows.len()
    };
    (top, end)
}

/// Whether the spinner has anything to animate: some row on screen is
/// mid-turn. A working row scrolled out of view wants nothing.
pub open spec fn spec_spinner_wanted(rows: Seq<RowView>, height: nat) -> bool {
    let (top, end) = spec_visible_span(rows, height);
    exists|i: int| top <= i < end && row_thinks(#[trigger] rows[i])
}

/// The first highlighted row of a list.
fn first_selected_index(rows: &Vec<Row>) -> (r: Option<usize>)
    ensures
        match r {
            Some(i) => first_selected(row_views(rows@)) == Some(i as nat),
            None => first_selected(row_views(rows@)) is None,
        },
{
    let ghost rv = row_views(rows@);
    let mut i: usize = 0;
    while i < rows.len()
        invariant
            rv == row_views(rows@),
            i <= rows@.len(),
            forall|j: int| 0 <= j < i ==> !(#[trigger] rv[j]).selected,
        decreases rows.len() - i,
    {
        if rows[i].selected {
            assert(rv[i as int].selected);
            let ghost k = choose|k: int|
                0 <= k < rv.len() && rv[k].selected && forall|j: int|
                    0 <= j < k ==> !(#[trigger] rv[j]).selected;
            assert(k == i as int) by {
                if k < i as int {
                    assert(!rv[k].selected);
                }
                if k > i as int {
                    assert(!rv[i as int].selected);
                }
            }
            return Some(i);
        }
        i = i + 1;
    }
    None
}

/// The on-screen rows of a pane `height` rows tall: the first and one past
/// the last, the same window the paint draws and the click map reads.
pub fn visible_span(rows: &Vec<Row>, height: usize) -> (r: (usize, usize))
    ensures
        r.0 == spec_visible_span(row_views(rows@), height as nat).0,
        r.1 == spec_visible_span(row_views(rows@), height as nat).1,
{
    let sel = first_selected_index(rows);
    let top = viewport_top(rows.len(), sel, height);
    let end = if top <= rows.len() && height <= rows.len() - top {
        top + height
    } else {
        rows.len()
    };
    (top, end)
}

/// Whether any on-screen row is mid-turn, so the shell should keep the
/// spinner's fast tick armed.
pub fn spinner_wanted(rows: &Vec<Row>, height: usize) -> (r: bool)
    ensures
        r == spec_spinner_wanted(row_views(rows@), height as nat),
{
    let ghost rv = row_views(rows@);
    let (top, end) = visible_span(rows, height);
    let mut i = top;
    while i < end
        invariant
            rv == row_views(rows@),
            top <= i,
            end <= rows@.len(),
            top == spec_visible_span(rv, height as nat).0,
            end == spec_visible_span(rv, height as nat).1,
            forall|j: int| top <= j < i ==> !row_thinks(#[trigger] rv[j]),
        decreases end - i,
    {
        let thinks = match &rows[i].content {
            RowContent::Agent { status, .. } => *status == RowStatus::Working,
            RowContent::Terminal { .. } => false,
        };
        if thinks {
            assert(row_thinks(rv[i as int]));
            return true;
        }
        i = i + 1;
    }
    false
}

} // verus!
