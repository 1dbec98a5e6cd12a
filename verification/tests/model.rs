//! The bar's state machine, driven through its public entry points: tab
//! and pane frames, snapshots, probes, navigation, clicks and the width
//! machine.
use clave_bar::model::{
    BarModel, BindStallState, Effect, PaneMeta, PaneProbe, RowKey, TabMeta, BIND_CONFIRMS_TO_RESET, BIND_MAX_TRIES,
    PROBE_FAILURE_STANDDOWN, WALK_ASK_CAP,
};
use clave_bar::render::{Provenance, Row, RowContent, RowStatus, TermStatus, Widths};
use clave_bar::rows::ProvisionalInks;
use clave_bar::text::{basename, elapsed_label};
use clave_bar::types::{Agent, AgentSnapshot, OrderMode, RowHeight, Status, BUCKET_RETAIN_DAYS};


// --- tiny builders (Step 1) --------------------------------------------

/// An agent whose label == uuid, bound to `tab_id` (§6.6 Design B: the
/// snapshot bind is the decoration join key).
fn agent(uuid: &str, status: Status, tab_id: Option<usize>) -> Agent {
    Agent {
        uuid: uuid.into(),
        cwd: String::new(),
        repo_root: String::new(),
        branch: String::new(),
        label: uuid.into(),
        status,
        last_interacted: 0,
        commit_ord: 0,
        frecency: 0,
        last_visited: 0,
        tab_id,
        pane_id: None,
        stale: false,
        title: None,
        summary: String::new(),
        worktree: None,
        default_branch: None,
        context_tokens: None,
        context_level: None,
        model: None,
        provider: None,
        pr_number: None,
    }
}

/// The same row carrying its terminal pane — the production shape since
/// #178, and since #187 the ONLY lasting source of the uuid→pane mapping:
/// the bar replaces its map from every snapshot it accepts, so a row that
/// omits the pane retires it. A test that wants the mapping to survive a
/// snapshot puts it on the row here, exactly as the store does.
fn agent_at(uuid: &str, status: Status, tab_id: Option<usize>, pane_id: u32) -> Agent {
    Agent {
        pane_id: Some(pane_id),
        ..agent(uuid, status, tab_id)
    }
}

/// An agent with an explicit label (Idle, never interacted).
fn agent_labelled(uuid: &str, label: &str, tab_id: Option<usize>) -> Agent {
    Agent {
        uuid: uuid.into(),
        cwd: String::new(),
        repo_root: String::new(),
        branch: String::new(),
        label: label.into(),
        status: Status::Idle,
        last_interacted: 0,
        commit_ord: 0,
        frecency: 0,
        last_visited: 0,
        tab_id,
        pane_id: None,
        stale: false,
        title: None,
        summary: String::new(),
        worktree: None,
        default_branch: None,
        context_tokens: None,
        context_level: None,
        model: None,
        provider: None,
        pr_number: None,
    }
}

fn snap(seq: u64, agents: Vec<Agent>) -> AgentSnapshot {
    AgentSnapshot {
        order: OrderMode::default(),
        today: 0,
        tab_frecency: Default::default(),
        tab_touched: Default::default(),
        collapsed: false,
        seq,
        agents,
        tab_order: Default::default(),
    }
}

/// Snapshot carrying only a tab order (the §6.6 store tab order): pairs of
/// (tab_id, commitment ordinal).
fn snap_t(seq: u64, ords: &[(usize, u64)]) -> AgentSnapshot {
    AgentSnapshot {
        order: OrderMode::default(),
        today: 0,
        tab_frecency: Default::default(),
        tab_touched: Default::default(),
        collapsed: false,
        seq,
        agents: vec![],
        tab_order: ords.iter().copied().collect(),
    }
}

fn tab(id: usize, pos: usize, name: &str, active: bool) -> TabMeta {
    TabMeta {
        tab_id: id,
        position: pos,
        name: name.into(),
        active,
        floating_visible: false,
    }
}

/// The three-tab fleet's next `TabUpdate`, with `active` naming the
/// focused tab.
fn frame(m: &mut BarModel, active: usize) {
    m.apply_tabs(vec![
        tab(10, 0, "a", active == 10),
        tab(11, 1, "b", active == 11),
        tab(12, 2, "c", active == 12),
    ]);
}

fn pane(tab_pos: usize, id: u32, plugin: bool, focused: bool) -> PaneMeta {
    PaneMeta {
        tab_position: tab_pos,
        pane_id: id,
        is_plugin: plugin,
        is_focused: focused,
        is_floating: false,
        terminal_command: None,
        exited: false,
        exit_status: None,
    }
}

// --- #206 terminal rows: speakers, facts, borrowed provenance ----------

/// The first terminal row's content — terminal-row tests care about THE
/// terminal row, wherever recency sorted it.
fn terminal_row(m: &BarModel) -> RowContent {
    m.rows()
        .into_iter()
        .map(|(_, r)| r.content)
        .find(|c| matches!(c, RowContent::Terminal { .. }))
        .expect("no terminal row")
}

fn probe(pane_id: u32, cwd: Option<&str>, foreground: Option<&[&str]>) -> PaneProbe {
    PaneProbe {
        pane_id,
        cwd: cwd.map(String::from),
        foreground: foreground.map(|a| a.iter().map(|s| s.to_string()).collect()),
    }
}

/// A foreground command runs; the shell coming back to its prompt goes
/// idle but the command LINGERS — that is what "most recently run" means.
#[test]
fn a_shell_at_its_prompt_keeps_its_last_command() {
    let mut m = BarModel::default();
    m.apply_tabs(vec![tab(10, 0, "Tab #1", true)]);
    m.apply_panes(vec![pane(0, 5, false, true)]);
    assert!(m.apply_pane_facts(vec![probe(5, None, Some(&["cargo", "test"]))]));
    assert!(matches!(
        terminal_row(&m),
        RowContent::Terminal { status: TermStatus::Running, command, .. } if command == "cargo test"
    ));
    // A running speaker is exactly what the exit-side poll exists for.
    assert!(m.term_poll_wanted());
    // Login shells report a dashed argv0; that is the prompt, not a command.
    assert!(m.apply_pane_facts(vec![probe(5, None, Some(&["-zsh"]))]));
    assert!(!m.term_poll_wanted());
    assert!(matches!(
        terminal_row(&m),
        RowContent::Terminal { status: TermStatus::Idle, command, .. } if command == "cargo test"
    ));
    // A full-path argv0 is a command like any other, shown by basename.
    assert!(m.apply_pane_facts(vec![probe(5, None, Some(&["/usr/bin/git", "status"]))]));
    assert!(matches!(
        terminal_row(&m),
        RowContent::Terminal { status: TermStatus::Running, command, .. } if command == "git status"
    ));
}

/// The newborn probe storm (live capture 2026-08-26 09:44): before
/// hydration the agent list is empty, so every tab reads as a terminal
/// and a freshly loaded visible bar serially interrogated the whole
/// session — blocking round-trips that queue ahead of the very snapshot
/// result that would have shrunk the list. A bar that cannot yet tell
/// agents from terminals asks the OS about no one.
#[test]
fn a_hydrating_bar_probes_no_one() {
    let mut m = BarModel::default();
    m.await_hydration();
    m.apply_tabs(vec![
        tab(10, 0, "Tab #1", true),
        tab(11, 1, "Tab #2", false),
    ]);
    m.apply_panes(vec![pane(0, 5, false, true), pane(1, 6, false, true)]);
    assert_eq!(
        m.probe_targets(),
        Vec::<u32>::new(),
        "an unhydrated bar must not probe"
    );
    // Either snapshot path — the hydrate result or a live push — ends
    // the wait; a bar whose `clave snapshot` failed is healed by the
    // next store write like every other starved instance.
    m.apply_snapshot(snap(1, vec![]));
    assert_eq!(m.probe_targets(), vec![5, 6], "hydration re-opens probing");
}

/// The unanswerable-pane loop (live capture 2026-08-25: one pane, four
/// hours of 100ms query timeouts): a pane whose running flag was latched
/// by an event delta while both sync queries fail re-qualified on every
/// manifest — the all-None guard deliberately mints no entry, so "retry
/// until known" had no can-this-ever-succeed test. A failed probe now
/// stands the pane down for the next few manifests; any real answer
/// clears the stand-down at once.
#[test]
fn a_failed_probe_stands_its_pane_down() {
    let mut m = BarModel::default();
    m.apply_tabs(vec![tab(10, 0, "Tab #1", true)]);
    let manifest = vec![pane(0, 5, false, true)];
    m.apply_panes(manifest.clone());
    // The delta latches running; both sync queries then fail (all-None).
    m.apply_pane_facts(vec![probe(5, None, Some(&["cargo", "build"]))]);
    m.apply_pane_facts(vec![probe(5, None, None)]);
    assert_eq!(
        m.probe_targets(),
        Vec::<u32>::new(),
        "a just-failed pane is not re-listed"
    );
    assert!(
        !m.term_poll_wanted(),
        "the exit poll must not re-arm on a stood-down pane"
    );
    // Each manifest decays the stand-down; the pane re-qualifies after
    // three — a delay, never a blacklist.
    m.apply_panes(manifest.clone());
    m.apply_panes(manifest.clone());
    assert_eq!(m.probe_targets(), Vec::<u32>::new());
    m.apply_panes(manifest.clone());
    assert_eq!(m.probe_targets(), vec![5]);
    // A real answer clears the stand-down immediately.
    m.apply_pane_facts(vec![probe(5, None, None)]);
    assert_eq!(m.probe_targets(), Vec::<u32>::new());
    m.apply_pane_facts(vec![probe(5, None, Some(&["cargo", "build"]))]);
    assert_eq!(m.probe_targets(), vec![5]);
}

/// The cwd through the fleet's checkouts: inside an agent's worktree the
/// terminal borrows that row's repo name, ink, provenance and branch
/// verbatim (#232 for the branch: shared from the same matched row `pr`
/// is borrowed from); outside the fleet it shows its directory name,
/// untinted, unmarked, with no branch to borrow.
#[test]
fn a_terminal_cwd_borrows_a_matching_agents_repo_ink_and_provenance() {
    let mut m = BarModel::default();
    m.apply_tabs(vec![tab(10, 0, "Tab #1", true), tab(11, 1, "agent", false)]);
    m.apply_panes(vec![pane(0, 5, false, true), pane(1, 6, false, true)]);
    let a = Agent {
        repo_root: "/r/clave".into(),
        worktree: Some("/w/clave-wt".into()),
        branch: "feat".into(),
        ..agent_at("u1", Status::Idle, Some(11), 6)
    };
    m.apply_snapshot(snap(1, vec![a]));
    m.apply_pane_facts(vec![probe(5, Some("/w/clave-wt/crates"), None)]);
    let agent_ink = m
        .rows()
        .into_iter()
        .find_map(|(_, r)| match r.content {
            RowContent::Agent { repo_ink, .. } => Some(repo_ink),
            _ => None,
        })
        .expect("no agent row");
    match terminal_row(&m) {
        RowContent::Terminal {
            repo,
            repo_ink,
            provenance,
            branch,
            ..
        } => {
            assert_eq!(repo.as_deref(), Some("clave"));
            assert_eq!(repo_ink, agent_ink);
            assert_eq!(provenance, Provenance::Worktree);
            assert_eq!(branch, "feat");
        }
        c => panic!("not a terminal row: {c:?}"),
    }
    // Outside every checkout: directory name, no ink, no provenance, no
    // branch. A sibling path sharing the checkout's PREFIX must not
    // match — the boundary is a path component, not a byte prefix.
    m.apply_pane_facts(vec![probe(5, Some("/w/clave-wt-other"), None)]);
    assert!(matches!(
        terminal_row(&m),
        RowContent::Terminal { repo: Some(r), repo_ink: None, provenance: Provenance::Main, branch, .. }
            if r == "clave-wt-other" && branch.is_empty()
    ));
}

/// A terminal in a DEFAULT checkout borrows no branch — the same
/// predicate `agent_content` blanks its own branch cell on (#232),
/// shared rather than re-derived, applied here through
/// `terminal_content`'s borrow.
#[test]
fn a_terminal_in_a_default_checkout_borrows_no_branch() {
    let mut m = BarModel::default();
    m.apply_tabs(vec![tab(10, 0, "Tab #1", true), tab(11, 1, "agent", false)]);
    m.apply_panes(vec![pane(0, 5, false, true), pane(1, 6, false, true)]);
    let a = Agent {
        repo_root: "/r/clave".into(),
        branch: "main".into(),
        ..agent_at("u1", Status::Idle, Some(11), 6)
    };
    m.apply_snapshot(snap(1, vec![a]));
    m.apply_pane_facts(vec![probe(5, Some("/r/clave/crates"), None)]);
    assert!(matches!(
        terminal_row(&m),
        RowContent::Terminal { branch, .. } if branch.is_empty()
    ));
}

/// A command pane is the one terminal with a visible lifecycle: running
/// until it exits, then Done or Failed by exit code, its launch command
/// standing in for the summary until any foreground fact arrives.
#[test]
fn a_command_pane_reports_done_or_failed_by_exit_code() {
    let mut m = BarModel::default();
    m.apply_tabs(vec![tab(10, 0, "Tab #1", true)]);
    let cmd_pane = |exited: bool, code: Option<i32>| PaneMeta {
        terminal_command: Some("cargo test --workspace".into()),
        exited,
        exit_status: code,
        ..pane(0, 5, false, true)
    };
    m.apply_panes(vec![cmd_pane(false, None)]);
    assert!(matches!(
        terminal_row(&m),
        RowContent::Terminal { status: TermStatus::Running, command, .. }
            if command == "cargo test --workspace"
    ));
    m.apply_panes(vec![cmd_pane(true, Some(0))]);
    assert!(matches!(
        terminal_row(&m),
        RowContent::Terminal {
            status: TermStatus::Done,
            ..
        }
    ));
    m.apply_panes(vec![cmd_pane(true, Some(101))]);
    assert!(matches!(
        terminal_row(&m),
        RowContent::Terminal {
            status: TermStatus::Failed,
            ..
        }
    ));
}

/// The speaker is the focused tiled terminal, falling back to the first;
/// plugin panes (the bar itself) and floating panes (the Alt+f scratch
/// shell) never speak. Agent tabs are not probed at all — their row is
/// the store's.
#[test]
fn the_speaker_is_the_focused_tiled_terminal_and_agent_tabs_are_not_probed() {
    let mut m = BarModel::default();
    m.apply_tabs(vec![tab(10, 0, "Tab #1", true), tab(11, 1, "agent", false)]);
    m.apply_snapshot(snap(1, vec![agent_at("u1", Status::Idle, Some(11), 9)]));
    let floating = PaneMeta {
        is_floating: true,
        ..pane(0, 7, false, true)
    };
    m.apply_panes(vec![
        pane(0, 1, true, false), // the bar
        pane(0, 5, false, false),
        pane(0, 6, false, true),
        floating,
        pane(1, 9, false, true), // the agent's pane
    ]);
    assert_eq!(m.probe_targets(), vec![6]);
    // Known and idle → not listed (the zero-steady-state gate); running
    // → listed again, because the exit-side poll needs a second look.
    m.apply_pane_facts(vec![probe(6, Some("/tmp"), Some(&["zsh"]))]);
    assert_eq!(m.probe_targets(), Vec::<u32>::new());
    m.apply_pane_facts(vec![probe(6, None, Some(&["cargo", "build"]))]);
    assert_eq!(m.probe_targets(), vec![6]);
    // No tiled pane focused (focus sits on the floating shell): first
    // tiled terminal speaks.
    m.apply_panes(vec![
        pane(0, 1, true, false),
        pane(0, 5, false, false),
        pane(0, 6, false, false),
    ]);
    assert_eq!(m.probe_targets(), vec![5]);
}

/// A closed pane's facts must not survive it — and a pane id reborn later
/// must start blank, not inherit a dead shell's history.
#[test]
fn pane_facts_die_with_their_pane() {
    let mut m = BarModel::default();
    m.apply_tabs(vec![tab(10, 0, "Tab #1", true)]);
    m.apply_panes(vec![pane(0, 5, false, true)]);
    m.apply_pane_facts(vec![probe(5, Some("/tmp/x"), Some(&["cargo", "test"]))]);
    m.apply_panes(vec![pane(0, 6, false, true)]);
    m.apply_panes(vec![pane(0, 5, false, true)]);
    // A probe where BOTH queries failed (pane mid-spawn, process gone)
    // must mint nothing: an entry is "known", and a known-and-idle pane
    // is never re-probed, so a birth failure would stick forever.
    assert!(!m.apply_pane_facts(vec![probe(5, None, None)]));
    // The failure stands the pane down rather than re-listing it (see
    // `probe_backoff`); the birth-failure RETRY the no-mint rule protects
    // still happens, one stand-down later.
    assert_eq!(m.probe_targets(), Vec::<u32>::new());
    for _ in 0..PROBE_FAILURE_STANDDOWN {
        m.apply_panes(vec![pane(0, 5, false, true)]);
    }
    assert_eq!(m.probe_targets(), vec![5]);
    assert!(matches!(
        terminal_row(&m),
        RowContent::Terminal {
            status: TermStatus::Idle,
            repo: None,
            command,
            ..
        } if command.is_empty()
    ));
}

/// A running fact whose pane stopped being the speaker must not keep the
/// exit-side poll armed: the poll only ever re-probes `probe_targets`, so
/// a flag no probe can clear would re-arm a 3s timer for as long as the
/// pane lives (the unreachable-success retry loop, FOOTGUNS.md).
#[test]
fn a_stranded_running_fact_does_not_arm_the_poll() {
    let mut m = BarModel::default();
    m.apply_tabs(vec![tab(10, 0, "Tab #1", true)]);
    m.apply_panes(vec![pane(0, 5, false, true), pane(0, 6, false, false)]);
    m.apply_pane_facts(vec![probe(5, None, Some(&["sleep", "999"]))]);
    assert!(m.term_poll_wanted());
    // Focus moves to the sibling: 6 speaks now, 5's flag is unreachable.
    m.apply_panes(vec![pane(0, 5, false, false), pane(0, 6, false, true)]);
    assert_eq!(m.probe_targets(), vec![6]);
    assert!(!m.term_poll_wanted());
    // Speakership coming back re-lists the pane, and the poll resumes.
    m.apply_panes(vec![pane(0, 5, false, true), pane(0, 6, false, false)]);
    assert!(m.term_poll_wanted());
}

// --- row projections ---------------------------------------------------
// `rows()` yields `(RowKey, render::Row)`: model identity plus the whole
// presentation (LEDGER D6 — one row type). Most assertions here are about
// ONE of those, so these pull out the field under test rather than
// spelling out a `RowContent` at every site.

fn keys(m: &BarModel) -> Vec<RowKey> {
    m.rows().into_iter().map(|(k, _)| k).collect()
}

fn selected(m: &BarModel) -> Vec<bool> {
    m.rows().into_iter().map(|(_, r)| r.selected).collect()
}

/// Terminal-tab names in display order. Lock §7.1: the zellij tab name is
/// used ONLY for a terminal tab, so an agent row has none — tests that mix
/// the two assert on `keys` instead.
fn names(m: &BarModel) -> Vec<String> {
    m.rows()
        .into_iter()
        .map(|(k, r)| match r.content {
            RowContent::Terminal { name, .. } => name,
            RowContent::Agent { .. } => panic!("{k:?} is an agent row, not a terminal"),
        })
        .collect()
}

/// The status cell of row `i`; `None` for a terminal row, which has no
/// turn to be in.
fn status_at(m: &BarModel, i: usize) -> Option<RowStatus> {
    match &m.rows()[i].1.content {
        RowContent::Agent { status, .. } => Some(*status),
        RowContent::Terminal { .. } => None,
    }
}

/// The rendered line the dormant row sits on in [`live_plus_dormant`].
const DORMANT_LINE: usize = 1;

/// The dwell-commit fixture: one live tab (id 1, ordinal 500) and one
/// dormant row (`u-d`, ordinal 999), shared by the #100 selection tests.
///
/// **The dormant row's ordinal is deliberately the HIGHER of the two.**
/// Before #112 that put it on line 0, above the live tab; segregation puts
/// it on line 1 regardless, because the block a row renders in outranks
/// the number that sorts it. So every caller's line indices double as a
/// guard: merge the two blocks back into one list and they all move.
fn live_plus_dormant() -> BarModel {
    let mut m = BarModel::default();
    m.apply_tabs(vec![tab(1, 0, "live", true)]);
    let mut a = agent("u-d", Status::Idle, None);
    a.commit_ord = 999;
    m.apply_snapshot(AgentSnapshot {
        order: OrderMode::default(),
        today: 0,
        tab_frecency: Default::default(),
        tab_touched: Default::default(),
        collapsed: false,
        seq: 1,
        agents: vec![a],
        tab_order: Vec::from([(1usize, 500u64)]),
    });
    m
}

/// A pane taller than any fixture here. With nothing overflowing, the
/// viewport (#148) rests at the top and a rendered line IS its model row —
/// which is what every click assertion written before the viewport assumed.
const TALL_PANE: usize = 64;

/// The legacy geometry, said out loud. Every click assertion below was
/// written when one rendered LINE was one model ROW, and #232 moved the
/// DEFAULT to the two-line card — so those tests pin `Single` explicitly
/// rather than riding a default that has shifted underneath them. The
/// card's own click map is
/// `a_click_on_either_line_of_a_card_selects_that_card`.
fn one_line_bar(mut m: BarModel) -> BarModel {
    m.set_row_height(RowHeight::Single);
    m
}

/// One live tab (id 1, active) and `dormant` dormant rows, ordinals
/// descending so the dormant block's display order is `u-00`, `u-01`, …
/// A fleet built to OVERFLOW: the viewport tests below give it a pane that
/// cannot hold it.
fn overflowing_fleet(dormant: usize) -> BarModel {
    let mut m = BarModel::default();
    m.apply_tabs(vec![tab(1, 0, "live", true)]);
    let agents = (0..dormant)
        .map(|i| {
            let mut a = agent(&format!("u-{i:02}"), Status::Idle, None);
            a.commit_ord = 900 - i as u64;
            a
        })
        .collect();
    m.apply_snapshot(AgentSnapshot {
        order: OrderMode::default(),
        today: 0,
        tab_frecency: Default::default(),
        tab_touched: Default::default(),
        collapsed: false,
        seq: 1,
        agents,
        tab_order: Vec::from([(1usize, 500u64)]),
    });
    m
}

/// Select the dormant row the way a user now can — Alt+N on its rendered
/// line. #112 confines the dir walk to the live block, so the walk that
/// these tests used to reach it with no longer arrives.
fn select_dormant(m: &mut BarModel) -> Vec<Effect> {
    m.nav(&format!("{{\"row\":{}}}", DORMANT_LINE + 1), Some(1))
}

// --- tests -------------------------------------------------------------

#[test]
fn rows_order_by_last_user_commitment() {
    // §6.6 / S1: one list of commitment ORDINALS, owned by the STORE and
    // replaced from each snapshot — tab commitments ∨ agent prompts. Focus
    // moves NOTHING. (The values below are ordinals, not clock readings;
    // the wall clock stopped being the key in S1/#39.)
    let mut m = BarModel::default();
    m.apply_tabs(vec![
        tab(10, 0, "a", false),
        tab(11, 1, "b", true),
        tab(12, 2, "c", false),
    ]);
    // Nothing committed yet → tab-position order, active flag irrelevant.
    assert_eq!(names(&m), vec!["a", "b", "c"]);
    // Commitments arrive via snapshot and order by ordinal, descending…
    m.apply_snapshot(snap_t(1, &[(10, 1000), (11, 2000), (12, 1500)]));
    assert_eq!(names(&m), vec!["b", "c", "a"]);
    // …and focus (beacon) does not reorder.
    m.beacon(10);
    assert_eq!(names(&m)[0], "b");
    // Agent prompts reorder ONLY through the store's tab order (the hook
    // stamps it via the bind, §6.6 Design B) — an agent's last_interacted
    // alone must NOT sort: render-time joins diverge per instance
    // (round 6).
    let mut s = snap(2, vec![agent("u1", Status::Working, Some(12))]);
    s.agents[0].last_interacted = 9999;
    s.tab_order = [(10, 1000), (11, 2000), (12, 1500)].into();
    m.apply_snapshot(s);
    // By KEY from here: tab 12 now hosts an agent, and an agent row does
    // not carry the zellij tab name (lock §7.1).
    assert_eq!(keys(&m)[0], RowKey::Tab(11)); // "b" — li ignored, ordinal rules
    // The prompt's stamp arrives IN the tab order → c fronts everywhere.
    m.apply_snapshot(snap_t(3, &[(10, 1000), (11, 2000), (12, 3000)]));
    assert_eq!(keys(&m)[0], RowKey::Tab(12)); // "c"
}

#[test]
fn tab_order_is_replaced_from_snapshots_never_merged() {
    // C5 round 5: per-instance merged copies of pipe deltas DIVERGED
    // (missed echoes under spinup congestion) and walking oscillated.
    // The fix: the snapshot's map is authoritative — REPLACE, don't
    // merge, so every instance converges on the store's order.
    let mut m = BarModel::default();
    m.apply_tabs(vec![tab(10, 0, "a", false), tab(11, 1, "b", false)]);
    m.apply_snapshot(snap_t(1, &[(10, 2000)]));
    assert_eq!(keys(&m)[0], RowKey::Tab(10));
    // New snapshot: b now leads, and a's old entry is GONE (replace
    // semantics — a merge would have kept a at 2000 and diverged).
    m.apply_snapshot(snap_t(2, &[(11, 1000)]));
    assert_eq!(keys(&m)[0], RowKey::Tab(11));
    // A stale seq must not replace anything (§5 gate).
    m.apply_snapshot(snap_t(1, &[(10, 9000)]));
    assert_eq!(keys(&m)[0], RowKey::Tab(11));
}

// --- frecency ordering (spec 2026-08-19) --------------------------------

/// The score the shell decodes a bucket map into before the model sees it:
/// Σ count × 0.5^(age_days × 24 / half_life_hours), in millipoints, floored,
/// with buckets outside the retention window scoring zero.
fn frecency_millis(buckets: &[(u32, u32)], today: u32, half_life_hours: u32) -> u64 {
    let hl = half_life_hours.max(1) as f64;
    let sum: f64 = buckets
        .iter()
        .filter(|&&(day, _)| day + BUCKET_RETAIN_DAYS > today)
        .map(|&(day, count)| {
            let age_days = today.saturating_sub(day) as f64;
            count as f64 * 0.5_f64.powf(age_days * 24.0 / hl)
        })
        .sum();
    (sum * 1000.0) as u64
}

/// Accelerated time: a hand-computed week of daily driving, two live
/// agents, 24h dial. The maintainer cannot wall-clock this before living
/// with it, so the regimes are pinned here: burst wins day 0; steady
/// daily use overtakes a stale burst by day 3; the burst exits the 7-day
/// window and survives only on the ordinal floor; by day 10 everything
/// has decayed and the ordinal fallback quietly flips the order back.
/// Days 7 and 10 re-rank on IDENTICAL buckets — only `snapshot.today`
/// moves, which is exactly what an idle fleet's midnight rollover does
/// (today is host-computed per push; the bar never reads a clock).
#[test]
fn a_week_of_daily_driving_reranks_only_by_decay_and_the_window() {
    let mut m = BarModel::default();
    m.apply_tabs(vec![tab(1, 0, "burst", false), tab(2, 1, "steady", false)]);
    let mut burst = agent("u-burst", Status::Idle, Some(1));
    let mut steady = agent("u-steady", Status::Idle, Some(2));
    // Ordinals for the fully-decayed endgame: burst committed last long
    // ago (tab 1 ord 9 > tab 2 ord 5).
    let ords: &[(usize, u64)] = &[(1, 9), (2, 5)];

    // Day 100: five prompts into burst, one into steady. 5000 > 1000.
    let burst_buckets: &[(u32, u32)] = &[(100, 5)];
    let mut steady_buckets: &[(u32, u32)] = &[(100, 1)];
    burst.frecency = frecency_millis(burst_buckets, 100, 24);
    steady.frecency = frecency_millis(steady_buckets, 100, 24);
    let mut snap = snap_full(1, vec![burst.clone(), steady.clone()], ords);
    snap.today = 100;
    m.apply_snapshot(snap);
    assert_eq!(keys(&m), vec![RowKey::Tab(1), RowKey::Tab(2)]);

    // Day 103: steady prompted once each day, burst went silent.
    // burst 5*0.5^3 = 625; steady 125+250+500+1000 = 1875.
    steady_buckets = &[(100, 1), (101, 1), (102, 1), (103, 1)];
    burst.frecency = frecency_millis(burst_buckets, 103, 24);
    steady.frecency = frecency_millis(steady_buckets, 103, 24);
    let mut snap = snap_full(2, vec![burst.clone(), steady.clone()], ords);
    snap.today = 103;
    m.apply_snapshot(snap);
    assert_eq!(burst.frecency, 625);
    assert_eq!(steady.frecency, 1875);
    assert_eq!(keys(&m), vec![RowKey::Tab(2), RowKey::Tab(1)]);

    // Day 107, nobody prompted since: burst's day-100 bucket is now 7
    // days old — out of the window, score ZERO, alive on the ordinal
    // floor only. steady still carries 15.625+31.25+62.5, floored = 109.
    burst.frecency = frecency_millis(burst_buckets, 107, 24);
    steady.frecency = frecency_millis(steady_buckets, 107, 24);
    let mut snap = snap_full(3, vec![burst.clone(), steady.clone()], ords);
    snap.today = 107;
    m.apply_snapshot(snap);
    assert_eq!(burst.frecency, 0);
    assert_eq!(steady.frecency, 109);
    assert_eq!(keys(&m), vec![RowKey::Tab(2), RowKey::Tab(1)]);

    // Day 110, same buckets again: steady's history has left the window
    // too. Both zero → ordinal fallback, and the order flips back to
    // burst (ord 9 > 5) with no interaction having happened at all.
    burst.frecency = frecency_millis(burst_buckets, 110, 24);
    steady.frecency = frecency_millis(steady_buckets, 110, 24);
    let mut snap = snap_full(4, vec![burst.clone(), steady.clone()], ords);
    snap.today = 110;
    m.apply_snapshot(snap);
    assert_eq!(steady.frecency, 0);
    assert_eq!(keys(&m), vec![RowKey::Tab(1), RowKey::Tab(2)]);
}

/// Two live agent tabs: `u-big` invested 10 commitments today but committed
/// FIRST (ordinal 5, position 1); `u-latest` one commitment, the most
/// recent (ordinal 9, position 0). The two modes must disagree about them.
fn invested_vs_one_off(order: OrderMode) -> BarModel {
    let mut m = BarModel::default();
    m.apply_tabs(vec![tab(1, 0, "latest", false), tab(2, 1, "big", false)]);
    let hl = match order {
        OrderMode::Frecency { half_life_hours } => half_life_hours,
        OrderMode::Recency => 24,
    };
    let mut latest = agent("u-latest", Status::Idle, Some(1));
    latest.frecency = frecency_millis(&[(100, 1)], 100, hl);
    let mut big = agent("u-big", Status::Idle, Some(2));
    big.frecency = frecency_millis(&[(100, 10)], 100, hl);
    let mut s = snap_full(1, vec![latest, big], &[(1, 9), (2, 5)]);
    s.order = order;
    s.today = 100;
    m.apply_snapshot(s);
    m
}

/// Frecency mode: more decayed weight ranks higher, regardless of who
/// committed last (the whole point vs recency).
#[test]
fn frecency_ranks_invested_rows_above_recent_one_offs() {
    let m = invested_vs_one_off(OrderMode::Frecency {
        half_life_hours: 24,
    });
    assert_eq!(keys(&m), vec![RowKey::Tab(2), RowKey::Tab(1)]);
}

/// Recency mode is bit-identical to the shipped behaviour: the last
/// commitment fronts, weight ignored.
#[test]
fn recency_mode_ranks_by_ordinal_exactly_as_before() {
    let m = invested_vs_one_off(OrderMode::Recency);
    assert_eq!(keys(&m), vec![RowKey::Tab(1), RowKey::Tab(2)]);
}

/// The adjacency mechanism end-to-end: an exact bucket copy ties, and the
/// existing position tiebreak puts the newborn DIRECTLY BELOW its opener.
/// The opener scores through its AGENT's buckets, the newborn (a plain
/// terminal tab) through its `tab_buckets` twin — same map, exact tie.
#[test]
fn an_inherited_copy_sits_directly_below_its_opener() {
    let mut m = BarModel::default();
    m.apply_tabs(vec![
        tab(9, 0, "top", false),
        tab(1, 1, "small", false),
        tab(2, 2, "opener", false),
        tab(5, 5, "newborn", false),
    ]);
    let mut opener = agent("u-opener", Status::Idle, Some(2));
    opener.frecency = frecency_millis(&[(100, 6)], 100, 24);
    let mut s = snap(1, vec![opener]);
    s.order = OrderMode::Frecency {
        half_life_hours: 24,
    };
    s.today = 100;
    s.tab_frecency = vec![
        (9usize, frecency_millis(&[(100, 9)], 100, 24)),
        (5, frecency_millis(&[(100, 6)], 100, 24)), // the newborn's inherited exact copy
        (1, frecency_millis(&[(100, 1)], 100, 24)),
    ];
    m.apply_snapshot(s);
    assert_eq!(
        keys(&m),
        vec![
            RowKey::Tab(9), // 9000 millipoints
            RowKey::Tab(2), // 6000, position 2 — the opener
            RowKey::Tab(5), // 6000, position 5 — its echo, directly below
            RowKey::Tab(1), // 1000
        ]
    );
}

/// Zero-score rows fall back to ordinal order — upgrade day and
/// never-touched fleets keep the shipped S1 ordering instead of collapsing
/// to tab position (spec: the comparator's zero fallback).
#[test]
fn zero_scores_fall_back_to_ordinal_order() {
    let mut m = BarModel::default();
    m.apply_tabs(vec![
        tab(1, 0, "a", false),
        tab(2, 1, "b", false),
        tab(3, 2, "c", false),
    ]);
    // NO buckets anywhere; ordinals 30/10/20 disagree with position order.
    let mut s = snap_t(1, &[(1, 30), (2, 10), (3, 20)]);
    s.order = OrderMode::Frecency {
        half_life_hours: 24,
    };
    s.today = 100;
    m.apply_snapshot(s);
    assert_eq!(
        keys(&m),
        vec![RowKey::Tab(1), RowKey::Tab(3), RowKey::Tab(2)]
    );
}

/// The dormant side of the R2 identity: a dormant row's decayed weight
/// outranks a dormant row's bare ordinal, same as it would live — closing
/// a tab must not change which number ranks a row. (Mutation testing
/// caught this side uncovered: `dormant_key`'s `millis > 0` survived a
/// flip with a live-only suite.)
#[test]
fn a_dormant_rows_weight_outranks_a_dormant_rows_ordinal() {
    let mut m = BarModel::default();
    m.apply_tabs(vec![tab(1, 0, "live", true)]);
    let mut invested = agent("u-invested", Status::Idle, None);
    invested.frecency = frecency_millis(&[(100, 3)], 100, 24);
    let mut cold = agent("u-cold", Status::Idle, None);
    cold.commit_ord = 999;
    let mut s = snap(1, vec![invested, cold]); // order: the Frecency default
    s.today = 100;
    m.apply_snapshot(s);
    assert_eq!(
        keys(&m),
        vec![
            RowKey::Tab(1),                       // block segregation: live always above
            RowKey::Dormant("u-invested".into()), // 3000 millipoints
            RowKey::Dormant("u-cold".into()),     // zero fallback, ordinal 999
        ]
    );
}

/// Snapshot state replaces, never merges (the tab_order doctrine, C5
/// round 5).
#[test]
fn order_today_and_tab_buckets_are_replaced_from_snapshots() {
    let mut m = BarModel::default();
    let mut s1 = snap(1, vec![]);
    s1.order = OrderMode::Recency;
    s1.today = 100;
    s1.tab_frecency = vec![(3usize, 1000u64)];
    m.apply_snapshot(s1);
    assert_eq!(m.order(), OrderMode::Recency);
    assert_eq!(m.today(), 100);
    assert_eq!(m.tab_frecency(), &vec![(3usize, 1000u64)]);
    let mut s2 = snap(2, vec![]);
    s2.order = OrderMode::Frecency {
        half_life_hours: 24,
    };
    s2.today = 101;
    m.apply_snapshot(s2);
    assert_eq!(
        m.order(),
        OrderMode::Frecency {
            half_life_hours: 24
        }
    );
    assert_eq!(m.today(), 101);
    assert!(m.tab_frecency().is_empty()); // replaced wholesale, not merged
}

#[test]
fn birth_touch_fires_once_ever_and_defers_to_snapshot_knowledge() {
    // The guard must be LOCAL and echo-independent (C5 rd 4: guards that
    // waited on the pipe echo re-fired per TabUpdate → spawn storm →
    // zellij server fd exhaustion).
    let mut m = BarModel::default();
    // Unknown tab: fire exactly once, no matter how many TabUpdates land
    // before the store snapshot echoes back.
    assert!(m.needs_birth_touch(10));
    assert!(!m.needs_birth_touch(10));
    assert!(!m.needs_birth_touch(10));
    // A tab the store already knows (snapshot arrived first — e.g. this
    // instance loaded after another instance birth-touched it): never fire.
    m.apply_snapshot(snap_t(1, &[(11, 1000)]));
    assert!(!m.needs_birth_touch(11));
    // Replace semantics dropping a tab from the map must NOT re-arm an
    // already-fired guard (10 fired above, snapshot 1 didn't carry it).
    assert!(!m.needs_birth_touch(10));
}

#[test]
fn agent_rows_get_glyphs_via_snapshot_bind_no_local_joins() {
    // §6.6 Design B: decoration keys on the agent's snapshot tab_id —
    // NO register, NO pane manifest. This is exactly the round-6 case:
    // an instance that loaded after the agent registered (registers
    // never replay) must still decorate and order correctly.
    let mut m = BarModel::default();
    m.apply_tabs(vec![
        tab(10, 0, "agent-tab", false),
        tab(11, 1, "plain", false),
    ]);
    m.apply_snapshot(snap(1, vec![agent("u1", Status::Working, Some(10))]));
    let rows = m.rows();
    let a = rows.iter().find(|(k, _)| *k == RowKey::Tab(10)).unwrap();
    let p = rows.iter().find(|(k, _)| *k == RowKey::Tab(11)).unwrap();
    assert!(matches!(
        a.1.content,
        RowContent::Agent {
            status: RowStatus::Working,
            ..
        }
    ));
    // The bound tab renders as an AGENT, so the zellij tab name is gone
    // (lock §7.1); the unbound one is still a terminal and keeps it.
    assert_eq!(p.1.content, RowContent::terminal("plain"));
    // An UNBOUND agent (bind not landed yet) decorates nothing.
    let mut m2 = BarModel::default();
    m2.apply_tabs(vec![tab(10, 0, "agent-tab", false)]);
    m2.apply_snapshot(snap(1, vec![agent("u1", Status::Working, None)]));
    assert_eq!(status_at(&m2, 0), None); // still a terminal row
}

#[test]
fn snapshot_seq_gate_discards_stale() {
    let mut m = BarModel::default();
    m.apply_snapshot(snap(2, vec![agent("u1", Status::Working, Some(10))]));
    m.apply_snapshot(snap(1, vec![agent("u1", Status::Failed, Some(10))])); // stale
    m.apply_tabs(vec![tab(10, 0, "t", false)]);
    assert_eq!(status_at(&m, 0), Some(RowStatus::Working)); // still Working
}

#[test]
fn rename_only_when_label_changes_not_when_tab_name_differs() {
    let mut m = BarModel::default();
    m.apply_tabs(vec![tab(10, 0, "old-name", false)]);
    let fx = m.apply_snapshot(snap(
        1,
        vec![agent_labelled("u1", "x · main · fix auth", Some(10))],
    ));
    assert!(fx.contains(&Effect::RenameTab {
        tab_id: 10,
        name: "x · main · fix auth".into()
    }));
    // Same label again — even though the TAB name is still "old-name"
    // (e.g. the user manually renamed it), we do NOT re-rename.
    let fx = m.apply_snapshot(snap(
        2,
        vec![agent_labelled("u1", "x · main · fix auth", Some(10))],
    ));
    assert!(fx.iter().all(|e| !matches!(e, Effect::RenameTab { .. })));
    // A genuinely NEW label renames again.
    let fx = m.apply_snapshot(snap(
        3,
        vec![agent_labelled("u1", "x · main · Fix auth flow", Some(10))],
    ));
    assert!(fx.contains(&Effect::RenameTab {
        tab_id: 10,
        name: "x · main · Fix auth flow".into()
    }));
}

#[test]
fn focus_on_done_agent_marks_read_once_and_renders_idle() {
    let mut m = BarModel::default();
    m.apply_tabs(vec![tab(10, 0, "t", false)]);
    m.apply_snapshot(snap(1, vec![agent("u1", Status::Done, Some(10))]));
    assert_eq!(status_at(&m, 0), Some(RowStatus::Done)); // green, unread
    // Tab gains focus → local clear + MarkRead effect, exactly once.
    let fx = m.apply_tabs(vec![tab(10, 0, "t", true)]);
    assert!(fx.contains(&Effect::MarkRead { uuid: "u1".into() }));
    // The local unread override: a READ Done renders Idle (§6.5).
    assert_eq!(status_at(&m, 0), Some(RowStatus::Idle)); // rendered dim NOW
    let fx = m.apply_tabs(vec![tab(10, 0, "t", true)]);
    assert!(fx.iter().all(|e| !matches!(e, Effect::MarkRead { .. })));
    // A repeat of the SAME Done — any unrelated store push carries every
    // row's status — must NOT disturb the override: the user has read this
    // completion and the row stays dim. This is the assertion that tells
    // the rule apart from its inversion; the Working one below cannot,
    // because the override only ever changes how a `Done` renders, so a
    // Working row reads Working either way. Inverted, every push while an
    // agent sits finished re-lights it green, and "green" stops meaning
    // "there is something here you have not seen". (cargo mutants
    // 2026-08-15: `status != Done` → `==` survived on the Working
    // assertion alone.)
    m.apply_snapshot(snap(2, vec![agent("u1", Status::Done, Some(10))]));
    assert_eq!(
        status_at(&m, 0),
        Some(RowStatus::Idle),
        "a re-push of the same Done is not a new completion"
    );
    // A later snapshot showing Working clears the local override.
    m.apply_snapshot(snap(3, vec![agent("u1", Status::Working, Some(10))]));
    assert_eq!(status_at(&m, 0), Some(RowStatus::Working));
    // And the clear is real: the NEXT completion is unread again, which is
    // the thing the user is waiting to be told about.
    m.apply_snapshot(snap(4, vec![agent("u1", Status::Done, Some(10))]));
    assert_eq!(
        status_at(&m, 0),
        Some(RowStatus::Done),
        "a second completion is unread again"
    );
}

#[test]
fn done_agent_clears_without_observable_transition() {
    // Live C3 finding (2026-07-06): zellij delivers TabUpdate ONLY to the
    // instance in the active tab, so an instance's stream always claims
    // its own tab is active — there is never a prev!=now transition to
    // observe. Receiving a TabUpdate at all IS the focus signal.
    let mut m = BarModel::default();
    m.apply_tabs(vec![tab(10, 0, "t", true)]); // loaded with own tab active
    // User leaves (this instance hears NOTHING), agent finishes via pipe:
    m.apply_snapshot(snap(1, vec![agent("u1", Status::Done, Some(10))]));
    // User returns: the update still says "own tab active" — must clear.
    let fx = m.apply_tabs(vec![tab(10, 0, "t", true)]);
    assert!(fx.contains(&Effect::MarkRead { uuid: "u1".into() }));
    assert_eq!(status_at(&m, 0), Some(RowStatus::Idle)); // dim immediately
}

#[test]
fn bind_effects_report_own_tab_join_once_and_echo_independently() {
    // §6.6 Design B bootstrap: the agent tab's OWN bar (fresh manifest,
    // active at spawn) computes uuid→pane→own tab and reports it ONCE via
    // `clave bind`. The guard is last-SENT, never the snapshot echo
    // (echo-gated guards storm — C5 rd 4).
    let mut m = BarModel::default();
    m.apply_tabs(vec![tab(11, 1, "ag", true)]);
    m.apply_panes(vec![pane(1, 5, false, true)]);
    m.register("u1".into(), 5);
    m.apply_snapshot(snap(1, vec![agent_at("u1", Status::Working, None, 5)]));
    assert_eq!(
        m.bind_effects(11),
        vec![Effect::Bind {
            uuid: "u1".into(),
            tab_id: 11
        }]
    );
    // Repeat calls before (or after) the echo: silent.
    assert_eq!(m.bind_effects(11), Vec::<Effect>::new());
    m.apply_snapshot(snap(2, vec![agent_at("u1", Status::Working, Some(11), 5)]));
    assert_eq!(m.bind_effects(11), Vec::<Effect>::new());
    // An agent whose pane is NOT in my tab is never mine to bind — but
    // pane 9 is in no tab of my frame AT ALL, which since #178 is worth
    // exactly one breadcrumb: it is indistinguishable, from in here, from
    // a pane frame that never reached this instance.
    m.register("u2".into(), 9); // pane 9 unknown to my manifest
    m.apply_snapshot(snap(
        3,
        vec![
            agent_at("u1", Status::Working, Some(11), 5),
            agent_at("u2", Status::Working, None, 9),
        ],
    ));
    // The bind pass itself stays pure: it computes binds, and reports
    // nothing (the #178 breadcrumb runs ahead of the gates, in
    // `identity_effects`).
    assert_eq!(m.bind_effects(11), Vec::<Effect>::new());
}

// --- #55 frame coherence & executor election (RC-A / RC-B) -------------

/// Snapshot carrying agents AND a tab order. The #55 tests need both:
/// a seeded tab order suppresses the birth touch so a test can assert on
/// binds alone.
fn snap_full(seq: u64, agents: Vec<Agent>, ords: &[(usize, u64)]) -> AgentSnapshot {
    AgentSnapshot {
        order: OrderMode::default(),
        today: 0,
        tab_frecency: Default::default(),
        tab_touched: Default::default(),
        collapsed: false,
        seq,
        agents,
        tab_order: ords.iter().copied().collect(),
    }
}

/// One bar of the three-tab fleet `10@0, 11@1, 12@2` (plugin panes
/// 100/101/102, terminals 5/6/7), holding the coherent frame pair it had
/// while `active` was the focused tab. Its birth announce has been spent on
/// that tab, so its beacon names `active` — which is what every real
/// instance holds once the session has settled.
fn fleet_bar(own_tab: usize, active: usize) -> BarModel {
    let mut m = BarModel::default();
    m.set_own_pane(FLEET_PANES[own_tab - 10].1);
    m.apply_panes(panes_at(&FLEET_PANES));
    m.apply_tabs(vec![
        tab(10, 0, "a", active == 10),
        tab(11, 1, "b", active == 11),
        tab(12, 2, "c", active == 12),
    ]);
    m
}

/// The dossier's reproduction fleet, seen from the bar in tab 11 (plugin
/// pane 101).
fn fleet_of_three(active: usize) -> BarModel {
    fleet_bar(11, active)
}

/// The adversarial instance FOOTGUNS.md:63 describes: a bar that was the
/// active one once and has been event-starved ever since. Its tab/pane
/// frame pair is FROZEN, self-coherent, and names its OWN tab active —
/// which is why self-diagnosed "am I active" is poison (FOOTGUNS.md:64).
/// Only its beacon can still move, because pipes broadcast and frames do
/// not. `own_tab` picks which of the three-tab fleet's bars this is.
fn starved_bar(own_tab: usize) -> BarModel {
    fleet_bar(own_tab, own_tab)
}

/// Deliver a fleet's beacon pipes the way zellij does: every
/// `AnnounceVisit`/`ReanchorVisit` is a `clave-visited` broadcast, so it
/// reaches EVERY instance including the sender. Lets a multi-bar test drive
/// frames at one bar and still hold the others' replicated state true.
fn fan_beacons(bars: &mut [BarModel], fx: &[Effect]) {
    for e in fx {
        if let Effect::AnnounceVisit { tab_id } | Effect::ReanchorVisit { tab_id } = e {
            for m in bars.iter_mut() {
                m.beacon(*tab_id);
            }
        }
    }
}

/// Which bars of a fleet would act on one broadcast `clave-nav`. More than
/// one is the C5 round-2 divergence: each walks its own tab set and they
/// switch to different targets.
fn nav_executors(bars: &[BarModel]) -> Vec<usize> {
    bars.iter().filter_map(|m| m.nav_executor()).collect()
}

/// A manifest over `(tab_position, plugin pane, terminal pane)` triples.
/// Pane ids are stable IDENTITIES and positions are not — the whole of
/// RC-A is that a close renumbers the latter — so these tests must name
/// both, never derive one from the other.
fn panes_at(rows: &[(usize, u32, u32)]) -> Vec<PaneMeta> {
    rows.iter()
        .flat_map(|&(pos, plug, term)| {
            [pane(pos, plug, true, false), pane(pos, term, false, false)]
        })
        .collect()
}

/// The three-tab fleet's coherent manifest: bars 100/101/102 and terminals
/// 5/6/7 at positions 0/1/2.
const FLEET_PANES: [(usize, u32, u32); 3] = [(0, 100, 5), (1, 101, 6), (2, 102, 7)];
/// The same fleet after tab 10 (position 0) closes: everything shifts down
/// one, so OUR pane 101 moves from position 1 to position 0.
const FLEET_PANES_AFTER_CLOSE: [(usize, u32, u32); 2] = [(0, 101, 6), (1, 102, 7)];

#[test]
fn own_tab_is_none_while_the_pane_and_tab_frames_disagree() {
    // RC-A verbatim. The two frames are delivered independently and joined
    // on tab POSITION, which zellij renumbers after a close — so in the
    // window between one frame landing and the other, the join names a
    // DIFFERENT tab. Driven manifest-first (the mirror of the dossier's
    // trace) because that is the direction in which the pre-#55
    // computation does not merely fail, it confidently returns a dead tab.
    let mut m = fleet_of_three(10);
    // The close of tab 10 renumbers everything; the PaneUpdate lands first.
    m.apply_panes(panes_at(&FLEET_PANES_AFTER_CLOSE));
    // Our pane is now at position 0. The FROZEN tab frame says position 0
    // is tab 10 — the tab that was just closed — and that it is active.
    assert_eq!(m.own_tab(), None, "fail closed while the frames disagree");
    assert!(!m.elects_confirmed());
    // The regression this fix pins: the pre-#55 join elects us, and would
    // have bound our agent to tab 10, evicting whoever holds it next.
    assert!(
        m.elects_presumed(),
        "the pre-#55 computation elects on the stale join — this is RC-A"
    );
}

#[test]
fn a_newborn_model_is_incoherent_before_either_frame_has_arrived() {
    // The pre-first-frame fail-closed arm. Asserted on `frames_coherent`
    // directly because two EMPTY frames trivially cover the same (empty)
    // position set — the set comparison alone would call that coherent,
    // which is the one case the explicit guard exists for.
    let mut m = BarModel::default();
    m.set_own_pane(101);
    assert!(!m.frames_coherent());
    assert_eq!(m.own_tab(), None);
    assert!(!m.elects_confirmed());
    assert!(!m.elects_presumed());
    // One frame alone is not enough either.
    m.apply_tabs(vec![tab(11, 0, "b", true)]);
    assert!(!m.frames_coherent());
    assert_eq!(m.own_tab(), None);
}

#[test]
fn own_tab_resolves_once_the_lagging_tab_frame_lands() {
    let mut m = fleet_of_three(10);
    m.apply_panes(panes_at(&FLEET_PANES_AFTER_CLOSE));
    assert_eq!(m.own_tab(), None);
    // The renumbering TabUpdate — the event that was always going to
    // arrive anyway — is the retry.
    m.apply_tabs(vec![tab(11, 0, "b", true), tab(12, 1, "c", false)]);
    assert_eq!(m.own_tab(), Some(11));
    assert!(m.elects_confirmed());
}

#[test]
fn own_tab_is_none_while_the_tab_frame_is_the_fresh_one() {
    // The dossier's own direction: fresh tabs, stale manifest. The witness
    // is symmetric — position-set equality does not care which side lags.
    let mut m = fleet_of_three(10);
    m.apply_tabs(vec![tab(11, 0, "b", true), tab(12, 1, "c", false)]);
    assert_eq!(m.own_tab(), None);
    assert!(!m.elects_confirmed());
}

#[test]
fn identity_effects_emit_nothing_from_an_incoherent_frame_and_retry_on_the_next() {
    // The fail-closed contract end to end — the test RC-A would have
    // failed. Timeline pre-seeded so the birth touch is out of the way.
    let mut m = fleet_of_three(10);
    m.register("u1".into(), 6); // our tab's terminal pane
    m.apply_snapshot(snap_full(
        1,
        vec![agent_at("u1", Status::Working, None, 6)],
        &[(10, 100), (11, 100), (12, 100)],
    ));
    m.apply_panes(panes_at(&FLEET_PANES_AFTER_CLOSE));
    assert_eq!(
        m.identity_effects(),
        Vec::<Effect>::new(),
        "an incoherent frame emits nothing at all"
    );
    m.apply_tabs(vec![tab(11, 0, "b", true), tab(12, 1, "c", false)]);
    // Tab 10 died with the close, so the same settle also prunes it — one
    // coherent frame pair, every identity-keyed effect it authorises.
    assert_eq!(
        m.identity_effects(),
        vec![
            Effect::Bind {
                uuid: "u1".into(),
                tab_id: 11
            },
            Effect::PruneTabs {
                stale_ids: vec![10]
            }
        ]
    );
}

#[test]
fn bind_re_emits_after_an_eviction_once_the_store_seq_advances() {
    // Under the old `sent_binds` latch this returned [] forever: the wrong
    // bind was sticky for the life of the plugin instance, which is what
    // made RC-A a fleet-wide outage rather than a flicker.
    let mut m = fleet_of_three(11);
    m.register("u1".into(), 6);
    m.apply_snapshot(snap_full(
        1,
        vec![agent_at("u1", Status::Working, None, 6)],
        &[(11, 100)],
    ));
    assert_eq!(
        m.identity_effects(),
        vec![Effect::Bind {
            uuid: "u1".into(),
            tab_id: 11
        }]
    );
    // The store confirms the join: nothing to send. The attempt history
    // is deliberately NOT dropped on a single confirmation — see
    // `bind_effects`; dropping it there was the unbounded-ping-pong bug.
    m.apply_snapshot(snap_full(
        2,
        vec![agent_at("u1", Status::Working, Some(11), 6)],
        &[(11, 100)],
    ));
    assert_eq!(m.identity_effects(), Vec::<Effect>::new());
    // Someone else's bind evicts us (store.rs apply_bind) — tab_id goes
    // back to None at a higher seq. We must fight back.
    m.apply_snapshot(snap_full(
        3,
        vec![agent_at("u1", Status::Working, None, 6)],
        &[(11, 100)],
    ));
    assert_eq!(
        m.identity_effects(),
        vec![Effect::Bind {
            uuid: "u1".into(),
            tab_id: 11
        }]
    );
}

#[test]
fn bind_is_silent_while_its_own_write_is_in_flight() {
    // The debounce. `seq` advances only on a real store mutation, so
    // frames, renders, pipes and timers cost nothing — this is what keeps
    // the retry out of the C5 rd-4 echo-gated storm class.
    let mut m = fleet_of_three(11);
    m.register("u1".into(), 6);
    m.apply_snapshot(snap_full(
        1,
        vec![agent_at("u1", Status::Working, None, 6)],
        &[(11, 100)],
    ));
    assert_eq!(m.identity_effects().len(), 1);
    for _ in 0..20 {
        // A burst of frames at an unadvanced seq: our `clave bind` is
        // still in flight and must not be re-spawned.
        m.apply_panes(panes_at(&FLEET_PANES));
        assert_eq!(m.identity_effects(), Vec::<Effect>::new());
    }
}

#[test]
fn bind_stops_after_bind_max_tries_against_an_unwinnable_target() {
    // The anti-storm bound. The one loop that DOES advance seq every round
    // is eviction ping-pong — two agents whose panes both resolve into one
    // tab, each bind evicting the other. Wrong-but-consistent beats a
    // storm, so we stop fighting after BIND_MAX_TRIES.
    let mut m = fleet_of_three(11);
    m.register("u1".into(), 6);
    let mut emitted = 0;
    for seq in 1..=20 {
        m.apply_snapshot(snap_full(
            seq,
            vec![agent_at("u1", Status::Working, None, 6)],
            &[(11, 100)],
        ));
        emitted += m.identity_effects().len();
    }
    assert_eq!(emitted, BIND_MAX_TRIES as usize);
}

#[test]
fn a_confirmation_does_not_refresh_an_exhausted_attempt_budget() {
    // The counterpart to the ping-pong test, stated as a unit: once a
    // target's budget is spent, a confirming snapshot does NOT hand it
    // back. Confirmations are exactly what an eviction fight produces, so
    // treating one as "episode over, start again" is what made the cap
    // unbounded in the first cut (Codex P1 on PR #120).
    let mut m = fleet_of_three(11);
    m.register("u1".into(), 6);
    for seq in 1..=20 {
        m.apply_snapshot(snap_full(
            seq,
            vec![agent_at("u1", Status::Working, None, 6)],
            &[(11, 100)],
        ));
        m.identity_effects();
    }
    assert_eq!(m.identity_effects(), Vec::<Effect>::new());
    // A confirming snapshot: nothing to send, and the history is kept.
    m.apply_snapshot(snap_full(
        21,
        vec![agent_at("u1", Status::Working, Some(11), 6)],
        &[(11, 100)],
    ));
    assert_eq!(m.identity_effects(), Vec::<Effect>::new());
    // A later divergence against the SAME target stays silent — we have
    // already lost this fight four times and wrong-but-consistent beats a
    // storm.
    let mut emitted = 0;
    for seq in 22..=40 {
        m.apply_snapshot(snap_full(
            seq,
            vec![agent_at("u1", Status::Working, None, 6)],
            &[(11, 100)],
        ));
        emitted += m.identity_effects().len();
    }
    assert_eq!(emitted, 0);
    // But a genuinely NEW target is a new fight, at full budget — the
    // budget tracks a contested tab, not the agent.
    m.apply_tabs(vec![
        tab(10, 0, "a", false),
        tab(99, 1, "b", true),
        tab(12, 2, "c", false),
    ]);
    // (tab 99 is new to the timeline, so it earns its birth stamp too.)
    assert_eq!(
        m.identity_effects(),
        vec![
            Effect::Touch { tab_id: 99 },
            Effect::Bind {
                uuid: "u1".into(),
                tab_id: 99
            },
            // 11 left the tab set when 99 replaced it at that position.
            Effect::PruneTabs {
                stale_ids: vec![11]
            }
        ]
    );
}

#[test]
fn two_agents_contesting_one_tab_cannot_ping_pong_forever() {
    // The exact scenario BIND_MAX_TRIES exists to bound, and the one the
    // first cut of this code did NOT bound (Codex P1 on PR #120): two
    // agents whose registered panes both resolve into our tab. Each bind
    // evicts the other (`store.rs` apply_bind) and pushes a snapshot
    // CONFIRMING the new winner — so if confirmation cleared the ledger,
    // every agent's counter would be wiped on the round it won and it
    // would re-enter the fight at tries=1, forever. Unbounded subprocess
    // loop; the C5 rd-4 fd-exhaustion class.
    let mut m = fleet_of_three(11);
    m.register("u1".into(), 6);
    m.register("u2".into(), 6); // same pane → both resolve into tab 11
    let mut emitted = 0;
    let mut winner_is_u1 = true;
    for seq in 1..=40 {
        // The store: whoever bound last holds 11, the other is evicted.
        let (a, b) = if winner_is_u1 {
            (Some(11), None)
        } else {
            (None, Some(11))
        };
        m.apply_snapshot(snap_full(
            seq,
            vec![
                agent_at("u1", Status::Working, a, 6),
                agent_at("u2", Status::Working, b, 6),
            ],
            &[(11, 100)],
        ));
        emitted += m.identity_effects().len();
        // Frames keep arriving BETWEEN store pushes. They must not be able
        // to complete a run of confirmations: only a real store advance
        // counts, or a burst of PaneUpdates would refund the budget at the
        // same seq and the cap would break by a second route.
        for _ in 0..3 {
            m.apply_panes(panes_at(&FLEET_PANES));
            emitted += m.identity_effects().len();
        }
        winner_is_u1 = !winner_is_u1;
    }
    // Both agents' budgets are finite and never refreshed by the
    // confirmations they win, so the whole episode is bounded.
    assert!(
        emitted <= 2 * BIND_MAX_TRIES as usize,
        "ping-pong emitted {emitted} binds — the cap is not holding"
    );
}

#[test]
fn a_bind_that_keeps_healing_is_never_starved_of_budget() {
    // The mirror of the ping-pong bound, and the reason the reset needs a
    // threshold rather than being removed outright (adversarial review, PR
    // #120). An eviction changes neither our pane nor our target, so if a
    // confirmation never refunded the budget, four LIFETIME evictions
    // would silence a correct bind for the life of the plugin instance —
    // the old `sent_binds` permanent latch, reached slowly. A HELD
    // confirmation must hand the budget back.
    let mut m = fleet_of_three(11);
    m.register("u1".into(), 6);
    let mut seq = 0;
    for cycle in 0..(BIND_MAX_TRIES + 4) {
        // Evicted: we must fight for our tab again.
        seq += 1;
        m.apply_snapshot(snap_full(
            seq,
            vec![agent_at("u1", Status::Working, None, 6)],
            &[(11, 100)],
        ));
        assert_eq!(
            m.identity_effects(),
            vec![Effect::Bind {
                uuid: "u1".into(),
                tab_id: 11
            }],
            "cycle {cycle}: a healed bind was starved of budget"
        );
        // The bind lands and HOLDS across successive store advances.
        for _ in 0..BIND_CONFIRMS_TO_RESET {
            seq += 1;
            m.apply_snapshot(snap_full(
                seq,
                vec![agent_at("u1", Status::Working, Some(11), 6)],
                &[(11, 100)],
            ));
            assert_eq!(m.identity_effects(), Vec::<Effect>::new());
        }
    }
}

#[test]
fn bind_ledger_clears_when_the_pane_leaves_our_tab() {
    let mut m = fleet_of_three(11);
    m.register("u1".into(), 6);
    m.apply_snapshot(snap_full(
        1,
        vec![agent_at("u1", Status::Working, None, 6)],
        &[(11, 100)],
    ));
    assert_eq!(m.identity_effects().len(), 1);
    // The agent's pane moves to another tab: not ours to bind, ledger
    // cleared. When it comes back, the budget is full again.
    m.register("u1".into(), 7);
    m.apply_snapshot(snap_full(
        2,
        vec![agent_at("u1", Status::Working, None, 7)],
        &[(11, 100)],
    ));
    assert_eq!(m.identity_effects(), Vec::<Effect>::new());
    m.register("u1".into(), 6);
    let mut emitted = 0;
    for seq in 3..=20 {
        m.apply_snapshot(snap_full(
            seq,
            vec![agent_at("u1", Status::Working, None, 6)],
            &[(11, 100)],
        ));
        emitted += m.identity_effects().len();
    }
    assert_eq!(emitted, BIND_MAX_TRIES as usize);
}

#[test]
fn birth_touch_is_deferred_not_consumed_when_the_frames_disagree() {
    // The `&&` short-circuit was always an intentional property — a false
    // gate must DEFER the once-ever latch, not spend it. What it lacked
    // was a trigger: the block lived only in the TabUpdate arm, and a
    // close delivers exactly one TabUpdate to the newly-active instance —
    // the one where the frames disagree. `identity_effects` runs on both
    // frame kinds, so the resolving PaneUpdate is now the retry.
    let mut m = fleet_of_three(10);
    m.apply_tabs(vec![tab(11, 0, "b", true), tab(12, 1, "c", false)]);
    assert_eq!(
        m.identity_effects(),
        Vec::<Effect>::new(),
        "incoherent: no touch, and the latch is NOT spent"
    );
    m.apply_panes(panes_at(&FLEET_PANES_AFTER_CLOSE));
    assert_eq!(m.identity_effects(), vec![Effect::Touch { tab_id: 11 }]);
    // Once-EVER: never a second time, however many frames arrive.
    m.apply_panes(panes_at(&FLEET_PANES_AFTER_CLOSE));
    assert_eq!(m.identity_effects(), Vec::<Effect>::new());
}

#[test]
fn birth_touch_targets_our_own_tab_only() {
    // The old adapter touched the ACTIVE id from the tab frame while
    // gating on a position join against the pane frame — RC-A's shape, one
    // line away. Requiring active == own makes it self-consistent.
    let mut m = fleet_of_three(12); // coherent, but tab 12 is active
    assert!(!m.elects_confirmed());
    // Not a coherence failure — the frames agree. We are simply not the
    // active instance, which the weak gate agrees about.
    assert!(m.frames_coherent());
    assert!(!m.elects_presumed());
    assert_eq!(m.identity_effects(), Vec::<Effect>::new());
}

#[test]
fn a_new_target_starts_a_fresh_episode_without_waiting_for_the_store() {
    // zellij REUSES tab ids (get_new_tab_id = max-key+1), so the tab at
    // our position can become a DIFFERENT tab without our pane moving.
    // That is a new target, not a retry of the old one, so it must not
    // inherit the old episode's debounce — it emits immediately, at the
    // same seq, with a full attempt budget.
    let mut m = BarModel::default();
    m.set_own_pane(101);
    m.apply_panes(panes_at(&[(0, 100, 5), (1, 101, 6)]));
    m.apply_tabs(vec![tab(10, 0, "a", false), tab(11, 1, "b", true)]);
    m.register("u1".into(), 6);
    m.apply_snapshot(snap_full(
        1,
        vec![agent_at("u1", Status::Working, None, 6)],
        &[(10, 100), (11, 100), (99, 100)],
    ));
    assert_eq!(
        m.identity_effects(),
        vec![Effect::Bind {
            uuid: "u1".into(),
            tab_id: 11
        }],
        // 99 is seeded in the timeline but not in the tab set yet — and
        // it ARRIVES two lines down, which is exactly why it must not be
        // pruned here: an id this instance never witnessed dying is a
        // tab created beyond a starved frame's reach, and pruning it is
        // the newborn-revert the 2026-08-17 QA drive caught live
        // (this assertion expected PruneTabs{[99]} until then).
    );
    // Same seq, same pane, new tab id at our position.
    m.apply_tabs(vec![tab(10, 0, "a", false), tab(99, 1, "b", true)]);
    assert_eq!(
        m.identity_effects(),
        vec![
            Effect::Bind {
                uuid: "u1".into(),
                tab_id: 99
            },
            Effect::PruneTabs {
                stale_ids: vec![11]
            }
        ],
        "a new target must not wait behind the old target's debounce"
    );
}

#[test]
fn bind_effects_called_directly_refuse_an_incoherent_frame() {
    // `identity_effects` is already gated; this closes the direct-call
    // path so the guard is not a hole.
    let mut m = fleet_of_three(11);
    m.register("u1".into(), 6);
    m.apply_snapshot(snap_full(
        1,
        vec![agent_at("u1", Status::Working, None, 6)],
        &[(11, 100)],
    ));
    m.apply_panes(panes_at(&FLEET_PANES_AFTER_CLOSE));
    assert_eq!(m.bind_effects(11), Vec::<Effect>::new());
    // ...and the production path says so, which is the point of #178's
    // breadcrumb: `identity_effects` returns on the unresolved own tab
    // before it ever reaches the bind pass, so a report computed inside
    // that pass could never describe this frame (#184, found twice,
    // independently).
    assert_eq!(
        m.bind_stall_report(),
        Some(Effect::BindStall {
            state: BindStallState::FramesIncoherent,
            stranded: 0,
            own_tab: None,
        })
    );
}

#[test]
fn the_bind_stall_breadcrumb_fires_on_change_only_and_clears_when_the_leg_recovers() {
    // #178's whole difficulty is that the silent path is silent. This is
    // the contract of the breadcrumb that ends that: one line per state
    // CHANGE (a starved bar must not spam a shared log), and a closing
    // line when the leg comes back, so a log can be read as episodes.
    // Driven through the PRODUCTION entry point, not the bind pass.
    let mut m = fleet_of_three(11);
    m.register("u1".into(), 9); // announced pane, absent from our frame
    m.apply_snapshot(snap_full(
        1,
        vec![agent_at("u1", Status::Working, None, 9)],
        &[(11, 100)],
    ));
    assert_eq!(
        m.bind_stall_report(),
        Some(Effect::BindStall {
            state: BindStallState::PaneKnownButAbsent,
            stranded: 1,
            own_tab: Some(11),
        })
    );
    // Steady state is quiet, however many frames arrive.
    assert_eq!(m.bind_stall_report(), None);
    assert_eq!(m.bind_stall_report(), None);
    // The pane frame finally reaches us: the leg recovers and says so
    // ONCE, and the bind it was owed lands on the same settle.
    let mut panes = panes_at(&FLEET_PANES);
    panes.push(pane(1, 9, false, false));
    m.apply_panes(panes);
    assert_eq!(
        m.bind_stall_report(),
        Some(Effect::BindStall {
            state: BindStallState::Cleared,
            stranded: 0,
            own_tab: Some(11),
        })
    );
    assert_eq!(m.bind_stall_report(), None);
    assert_eq!(
        m.identity_effects(),
        vec![Effect::Bind {
            uuid: "u1".into(),
            tab_id: 11,
        }]
    );
}

#[test]
fn a_snapshot_pane_id_binds_an_instance_that_never_heard_the_register() {
    // #178 itself. A tab born by a wake is not running when its own
    // `clave-register` broadcast fires, so it never learns its pane — and
    // the instances that DID hear are background ones that cannot see a
    // pane outside their tab. Nobody could compute the bind. Carrying the
    // pane on the snapshot closes it: no `register()` call here at all.
    let mut m = fleet_of_three(11);
    let mut a = agent("u1", Status::Working, None);
    a.pane_id = Some(6); // the terminal pane in tab 11, per FLEET_PANES
    m.apply_snapshot(snap_full(1, vec![a], &[(11, 100)]));
    assert_eq!(
        m.identity_effects(),
        vec![Effect::Bind {
            uuid: "u1".into(),
            tab_id: 11,
        }],
        "the snapshot is the one view every instance agrees on"
    );
    // And it is not mistaken for a stall on the way: the leg never went
    // quiet, so there is no episode to report.
    assert_eq!(m.bind_stall_report(), None);
}

#[test]
fn a_snapshot_pane_in_another_tab_still_binds_nothing_here() {
    // The mirror: hydrating from the snapshot must not let an instance
    // bind a pane that is not in ITS tab. Pane 7 lives in tab 12.
    let mut m = fleet_of_three(11);
    let mut a = agent("u1", Status::Working, None);
    a.pane_id = Some(7);
    m.apply_snapshot(snap_full(1, vec![a], &[(11, 100)]));
    assert!(
        !m.identity_effects()
            .iter()
            .any(|e| matches!(e, Effect::Bind { .. })),
        "a pane outside our tab is another instance's bind to make"
    );
}

#[test]
fn a_snapshot_without_the_pane_retires_one_learned_from_the_broadcast() {
    // #187. The map had no removal path on any version: a pane learned from
    // the `clave-register` broadcast outlived the pane itself. Left set, it
    // is not inert — it fakes a PaneKnownButAbsent episode in the #184
    // breadcrumb, which would mask a real one, and it leaves a uuid jump
    // aimed at a pane that is gone. The snapshot is authoritative, so a row
    // carrying no pane retires the cached mapping.
    let mut m = fleet_of_three(11);
    m.register("u1".into(), 9); // announced, absent from our pane frame
    m.apply_snapshot(snap_full(
        1,
        vec![agent_at("u1", Status::Working, None, 9)],
        &[(11, 100)],
    ));
    assert_eq!(
        m.bind_stall_report(),
        Some(Effect::BindStall {
            state: BindStallState::PaneKnownButAbsent,
            stranded: 1,
            own_tab: Some(11),
        })
    );
    assert_eq!(
        m.nav("{\"uuid\":\"u1\"}", None),
        vec![Effect::FocusPane { pane_id: 9 }]
    );
    // The tab closes. The store clears the row's pane alongside its tab
    // (#185), so the next snapshot carries none — and the entry we learned
    // from the broadcast goes with it.
    m.apply_snapshot(snap_full(
        2,
        vec![agent("u1", Status::Idle, None)],
        &[(11, 100)],
    ));
    assert_eq!(
        m.nav("{\"uuid\":\"u1\"}", None),
        Vec::<Effect>::new(),
        "a retired pane must never be a nav target"
    );
    assert_eq!(
        m.bind_stall_report(),
        Some(Effect::BindStall {
            state: BindStallState::Cleared,
            stranded: 0,
            own_tab: Some(11),
        }),
        "the breadcrumb must stop claiming a stall that only a stale entry made"
    );
}

#[test]
fn a_stale_snapshot_retires_nothing() {
    // The retirement rides the seq gate, not the arrival: an out-of-order
    // snapshot is discarded whole (§5), so it cannot strip a mapping the
    // store has since re-asserted.
    let mut m = fleet_of_three(11);
    m.apply_snapshot(snap_full(
        5,
        vec![agent_at("u1", Status::Working, None, 6)],
        &[(11, 100)],
    ));
    m.apply_snapshot(snap_full(
        4,
        vec![agent("u1", Status::Working, None)],
        &[(11, 100)],
    ));
    assert_eq!(
        m.nav("{\"uuid\":\"u1\"}", None),
        vec![Effect::FocusPane { pane_id: 6 }]
    );
}

#[test]
fn the_register_broadcast_binds_a_row_the_snapshot_carried_without_a_pane() {
    // The bridge #187 left standing, and the ONLY test that holds it. Every
    // other bind test puts the pane on the snapshot row, so neutering
    // `register()` fails none of them — the announcement is what closes the
    // interval between a spawn and the store's echo, and without this test
    // that leg could be deleted silently.
    let mut m = fleet_of_three(11);
    m.apply_snapshot(snap_full(
        1,
        vec![agent("u1", Status::Working, None)],
        &[(11, 100)],
    ));
    assert!(
        !m.identity_effects()
            .iter()
            .any(|e| matches!(e, Effect::Bind { .. })),
        "no pane anywhere yet: nothing to bind to"
    );
    m.register("u1".into(), 6); // pane 6 is tab 11's terminal, per FLEET_PANES
    assert_eq!(
        m.identity_effects(),
        vec![Effect::Bind {
            uuid: "u1".into(),
            tab_id: 11,
        }],
        "the announcement must bind on its own, before any store echo"
    );
}

#[test]
fn a_dormant_row_that_was_never_woken_is_not_a_bind_stall() {
    // The false positive that would make the breadcrumb worthless: every
    // healthy fleet carries unbound rows. Only a row whose pane was
    // ANNOUNCED and cannot be placed counts.
    let mut m = fleet_of_three(11);
    m.apply_snapshot(snap_full(
        1,
        vec![
            agent("dormant-1", Status::Idle, None),
            agent("dormant-2", Status::Idle, None),
        ],
        &[(11, 100)],
    ));
    assert!(
        !m.identity_effects()
            .iter()
            .any(|e| matches!(e, Effect::BindStall { .. })),
        "unbound rows with no announced pane are ordinary dormancy"
    );
}

#[test]
fn nav_is_executor_gated_walks_display_rows_clicks_and_uuid_jumps() {
    let mut m = one_line_bar(BarModel::default());
    m.apply_tabs(vec![
        tab(10, 0, "a", true),
        tab(11, 1, "b", false),
        tab(12, 2, "c", false),
    ]);
    m.apply_snapshot(snap_t(1, &[(12, 1000)])); // display: c, then a/b by position tie-break
    // Row jumps and dir walks run ONLY on the executor (the active
    // instance — fresh tab set, and the very bar the user is reading);
    // non-executors stay silent — broadcast execution over stale sets
    // raced six divergent targets live (C5 round 2).
    assert_eq!(m.nav("{\"row\":1}", None), Vec::<Effect>::new());
    assert_eq!(
        m.nav("{\"row\":1}", Some(10)),
        vec![
            Effect::SwitchTab { position: 2 },
            Effect::AnnounceVisit { tab_id: 12 }
        ]
    );
    // dir steps the DISPLAYED list from the executor's own row, wrapping.
    // Display is c(12), a(10), b(11); from own=12: next → a, prev → b.
    assert_eq!(
        m.nav("{\"dir\":\"next\"}", Some(12)),
        vec![
            Effect::SwitchTab { position: 0 },
            Effect::AnnounceVisit { tab_id: 10 }
        ]
    );
    assert_eq!(
        m.nav("{\"dir\":\"prev\"}", Some(12)),
        vec![
            Effect::SwitchTab { position: 1 },
            Effect::AnnounceVisit { tab_id: 11 }
        ]
    );
    // Walking must not reorder: c is still row 1 after both walks.
    assert_eq!(keys(&m)[0], RowKey::Tab(12));
    // Clicks land on ONE instance (the visible bar): same effect shape.
    assert_eq!(
        m.click(1, TALL_PANE),
        vec![
            Effect::SwitchTab { position: 0 },
            Effect::AnnounceVisit { tab_id: 10 }
        ]
    );
    // uuid jumps run on EVERY instance: the pane id is broadcast truth
    // (clave-register), so all duplicates target the SAME pane.
    m.register("u1".into(), 6);
    assert_eq!(
        m.nav("{\"uuid\":\"u1\"}", None),
        vec![Effect::FocusPane { pane_id: 6 }]
    );
    // Malformed / out-of-range → empty.
    assert_eq!(m.nav("not json", Some(10)), Vec::<Effect>::new());
    assert_eq!(m.nav("{\"row\":9}", Some(10)), Vec::<Effect>::new());
    assert_eq!(m.click(9, TALL_PANE), Vec::<Effect>::new());
}

#[test]
fn a_stale_executor_lands_a_live_pick_by_pane_id_not_position() {
    // The 2026-08-17 QA-drive phase-3 wedge: the elected executor was a
    // starved background bar whose tab frame predated a close, so its
    // position-based SwitchTab aimed one past the end and zellij silently
    // refused it — and because its AnnounceVisit still broadcast, the same
    // stale executor was re-elected on every further press. Positions are
    // frame truth and frames starve (TabUpdate reaches only the active
    // tab); the store's uuid→pane join is broadcast truth. So a live pick
    // on a tab with a registered agent pane must land by pane id.
    let mut m = starved_bar(11);
    m.apply_snapshot(snap_full(
        1,
        vec![agent_at("u1", Status::Working, Some(12), 7)],
        &[(12, 1000)],
    ));
    assert_eq!(
        m.nav("{\"row\":1}", Some(11)),
        vec![
            Effect::FocusPane { pane_id: 7 },
            Effect::AnnounceVisit { tab_id: 12 },
        ],
        "a bound live pick must ride the position-immune pane id"
    );
}

#[test]
fn a_live_pick_with_no_registered_pane_falls_back_to_position() {
    // The remainder the pane-id landing accepts: a bound row whose pane
    // was never announced (and any plain terminal tab) has no stable id
    // to ride, so position — fresh on the bar the user is reading, the
    // common case — is the only address there is.
    let mut m = starved_bar(11);
    m.apply_snapshot(snap_full(
        1,
        vec![agent("u1", Status::Working, Some(12))],
        &[(12, 1000)],
    ));
    assert_eq!(
        m.nav("{\"row\":1}", Some(11)),
        vec![
            Effect::SwitchTab { position: 2 },
            Effect::AnnounceVisit { tab_id: 12 },
        ]
    );
}

#[test]
fn tab_close_reanchors_the_stranded_beacon() {
    // #23 live finding (day one of v0.1.0, 2026-07-21): closing the focused
    // tab makes zellij focus a survivor and send ITS bar a TabUpdate, while
    // the replicated beacon (current_tab) still names the CLOSED tab.
    // Executor election keys on current_tab == own live tab
    // (`nav_executor`), so a stranded beacon matches NO instance and
    // Alt+↑/↓ goes dead until a mouse click reseeds it. apply_tabs must
    // re-anchor to the post-close active tab — via a DISTINCT effect the
    // model elects itself to send (#162; birth stays ungated).
    //
    // The frame pair matters since #162: we are the bar in tab 10 at
    // position 0 and the tab that closes sits BELOW us, so the manifest is
    // still true of us and the election passes on the close's own frame.
    let mut m = BarModel::default();
    m.set_own_pane(100);
    m.apply_panes(panes_at(&[(0, 100, 5), (1, 101, 6)]));
    // Birth on tab 11 (active): announces once via the PLAIN (ungated)
    // AnnounceVisit — birth's ungated announce is live-validated. c_tab=11.
    let fx = m.apply_tabs(vec![tab(10, 0, "a", false), tab(11, 1, "b", true)]);
    assert!(fx.contains(&Effect::AnnounceVisit { tab_id: 11 }));
    assert_eq!(m.current_tab(), Some(11));
    // Tab 11 (the user's focused tab) closes; zellij focuses the survivor
    // (10) and delivers THIS now-active bar a TabUpdate lacking 11. The
    // stranded re-anchor emits a DISTINCT effect (ReanchorVisit) that
    // apply_tabs itself gates to the elected instance (#162: the election
    // moved out of run_effects) — toggle bursts deliver the fresh set to
    // ALL instances (doc:371-394), so an ungated announce here would be a
    // beacon war (round-13 EMFILE class).
    let fx = m.apply_tabs(vec![tab(10, 0, "a", true)]);
    assert!(
        fx.contains(&Effect::ReanchorVisit { tab_id: 10 }),
        "a stranded beacon must re-anchor via the GATED ReanchorVisit"
    );
    assert!(
        fx.iter()
            .all(|e| !matches!(e, Effect::AnnounceVisit { .. })),
        "the stranded path must NOT emit the ungated AnnounceVisit"
    );
    assert_eq!(m.current_tab(), Some(10));
    // Bounded: a further TabUpdate with the same (now-consistent) beacon
    // must NOT re-announce (no round-11 storm) — the local current_tab
    // mutation self-clears `stranded` per instance, so even a hidden bar
    // that trips it during a burst fires at most once, and only the active
    // one actually pipes.
    let fx = m.apply_tabs(vec![tab(10, 0, "a", true)]);
    assert!(
        fx.iter().all(|e| !matches!(
            e,
            Effect::AnnounceVisit { .. } | Effect::ReanchorVisit { .. }
        )),
        "re-anchor must not re-fire once the beacon is live again"
    );
}

#[test]
fn a_refused_reanchor_keeps_its_trigger_and_re_emits_on_the_next_frame() {
    // #162: the re-anchor may only be emitted by an instance that has
    // ALREADY elected itself to send it, because the beacon it consumes
    // moves at the same moment. Before that, the close's TabUpdate spent
    // `stranded` locally whether or not the pipe ran — and with the
    // announcing bar dead there was no other trigger left, so nav stayed
    // dead for the life of the session (the "narrow window" the old
    // comment here promised is terminal once the announcer is the tab that
    // died).
    //
    // The repro is the dossier fleet: we are the bar in tab 11 (position
    // 1), the user is on tab 10 (position 0), and closing tab 10
    // renumbers us — so the still-stale manifest joins us to tab 12, the
    // election refuses, and the pipe would never have run.
    let mut m = fleet_of_three(10);
    assert_eq!(m.current_tab(), Some(10)); // birth announced the focused tab
    let fx = m.apply_tabs(vec![tab(11, 0, "b", true), tab(12, 1, "c", false)]);
    assert!(
        fx.iter().all(|e| !matches!(
            e,
            Effect::AnnounceVisit { .. } | Effect::ReanchorVisit { .. }
        )),
        "an un-elected instance must not emit a beacon it cannot send"
    );
    assert_eq!(
        m.current_tab(),
        Some(10),
        "a refused re-anchor must leave the beacon stranded — that IS the retry trigger"
    );
    // The PaneUpdate restores coherence, and it is the frame that pays the
    // debt — the retry is not owed to a NEXT TabUpdate, which zellij may
    // never send, but to the next frame of EITHER kind.
    let fx = m.apply_panes(panes_at(&FLEET_PANES_AFTER_CLOSE));
    assert!(
        fx.contains(&Effect::ReanchorVisit { tab_id: 11 }),
        "the frame that restores coherence must re-emit the re-anchor"
    );
    assert_eq!(m.current_tab(), Some(11));
    // Consumed ON EXECUTION is still consumed, on BOTH retry paths — pane
    // frames are frequent (any pane open, close or focus move in the active
    // tab) and a debt that survived its payment would pipe on every one.
    for fx in [
        m.apply_panes(panes_at(&FLEET_PANES_AFTER_CLOSE)),
        m.apply_tabs(vec![tab(11, 0, "b", true), tab(12, 1, "c", false)]),
    ] {
        assert!(
            fx.iter().all(|e| !matches!(
                e,
                Effect::AnnounceVisit { .. } | Effect::ReanchorVisit { .. }
            )),
            "no re-fire, no storm"
        );
    }
}

#[test]
fn nav_survives_the_close_that_killed_the_announcing_bar() {
    // #162, second half: the whole point of the retry is that the user can
    // still navigate after the close, and a quiet session may deliver no
    // further TabUpdate at all. So the close's OWN pane frame — the one
    // that ends the frame disagreement, which is in flight the moment
    // positions renumber — re-seeds the beacon, and the election is back to
    // the one rule that cannot be faked by a frozen instance: my tab is the
    // tab the last broadcast named.
    let mut m = fleet_of_three(10);
    m.apply_tabs(vec![tab(11, 0, "b", true), tab(12, 1, "c", false)]);
    assert_eq!(
        m.current_tab(),
        Some(10),
        "the refused re-anchor leaves the beacon on the closed tab"
    );
    assert_eq!(
        m.nav_executor(),
        None,
        "and a stranded beacon elects nobody"
    );
    m.apply_panes(panes_at(&FLEET_PANES_AFTER_CLOSE));
    assert_eq!(
        m.current_tab(),
        Some(11),
        "the pane frame pays the debt and the beacon is live again"
    );
    assert_eq!(
        m.nav_executor(),
        Some(11),
        "the surviving active bar is the beacon's own instance"
    );
    let executor = m.nav_executor();
    assert_eq!(
        m.nav("{\"dir\":\"next\"}", executor),
        vec![
            Effect::SwitchTab { position: 1 },
            Effect::AnnounceVisit { tab_id: 12 }
        ],
        "nav must not be dead after the announcing bar dies"
    );
    // The landing moved the beacon onto tab 12, which is not ours, so the
    // press now belongs to that instance. The beacon is the whole rule
    // (C5 round 2: local active flags raced six divergent targets).
    assert_eq!(m.current_tab(), Some(12));
    assert_eq!(m.nav_executor(), None);
}

#[test]
fn a_stranded_beacon_elects_only_the_active_instance() {
    // There is no fallback: a stranded beacon elects nobody at all. This
    // pins that plus who may still act — a hidden bar reading a stranded
    // beacon must stay silent, or a broadcast nav is back to racing
    // divergent targets off stale tab sets (C5 round 2).
    let mut m = BarModel::default();
    m.set_own_pane(102); // we are the bar in tab 12, position 2
    m.apply_panes(panes_at(&FLEET_PANES));
    m.apply_tabs(vec![
        tab(10, 0, "a", true),
        tab(11, 1, "b", false),
        tab(12, 2, "c", false),
    ]);
    // Tab 10 closes: the survivor 11 is focused, we are still hidden.
    m.apply_panes(panes_at(&FLEET_PANES_AFTER_CLOSE));
    m.apply_tabs(vec![tab(11, 0, "b", true), tab(12, 1, "c", false)]);
    assert_eq!(m.current_tab(), Some(10), "the beacon is stranded here too");
    assert_eq!(
        m.nav_executor(),
        None,
        "a hidden bar must not elect itself off a stranded beacon"
    );
    // And a LIVE beacon naming someone else's tab stays authoritative:
    // the press belongs to that instance, not to us.
    m.beacon(11);
    assert_eq!(m.nav_executor(), None);
}

#[test]
fn a_new_tabs_birth_beacon_elects_no_executor_among_starved_bars() {
    // This was the fallback's hard case (C5 round 2) and is now held with
    // no licence at all: beacon-only election refuses starved bars by
    // construction. The reason stranding must be FRAME-WITNESSED rather
    // than re-derived stays live: `beacon_stranded()` asks
    // "does the beacon name a tab outside MY tab set" — and a starved
    // bar's tab set is frozen (FOOTGUNS.md:63), so for it that question
    // cannot tell DEAD from CREATED-SINCE-MY-LAST-FRAME. Creating a tab is
    // the commonest gesture in the product and its newborn broadcasts a
    // birth beacon to every instance, so re-deriving would hand every
    // once-focused hidden bar both halves of the fallback at once: its
    // frozen pair is self-coherent and claims its own tab active
    // (FOOTGUNS.md:64). Three of them would then walk three different tab
    // sets and race three divergent SwitchTab targets — C5 round 2, and
    // the #45/#128 pipe storm behind it.
    let mut bars: Vec<BarModel> = vec![starved_bar(10), starved_bar(11), starved_bar(12)];
    for m in &mut bars {
        // The poison, asserted: every one of them self-diagnoses as active.
        assert!(m.elects_confirmed(), "the frozen pair claims its own tab");
        // A fourth tab is created. Its newborn announces once (ungated,
        // by birth) and that pipe is a BROADCAST: the beacon moves on
        // every instance, while no tab frame reaches any of these three.
        m.beacon(13);
    }
    for m in &mut bars {
        let own = m.own_tab().unwrap();
        assert_eq!(
            m.nav_executor(),
            None,
            "tab {own}'s starved bar must not elect itself off a stranding no frame witnessed"
        );
        let executor = m.nav_executor();
        assert_eq!(
            m.nav("{\"dir\":\"next\"}", executor),
            Vec::<Effect>::new(),
            "tab {own}'s starved bar must not walk its frozen tab set"
        );
    }
    // And the frame that DOES reach them all — a toggle burst hands every
    // instance the fresh set (doc:371-394) — witnesses nothing, because the
    // beacon it arrives with is live in that set. Bar 12 gets the burst's
    // manifest as well, so it is fully coherent and still declines: the
    // press belongs to the bar the beacon names.
    let m = &mut bars[2];
    m.apply_panes(panes_at(&[
        (0, 100, 5),
        (1, 101, 6),
        (2, 102, 7),
        (3, 103, 8),
    ]));
    let fx = m.apply_tabs(vec![
        tab(10, 0, "a", false),
        tab(11, 1, "b", false),
        tab(12, 2, "c", false),
        tab(13, 3, "d", true),
    ]);
    assert!(
        fx.iter().all(|e| !matches!(
            e,
            Effect::AnnounceVisit { .. } | Effect::ReanchorVisit { .. }
        )),
        "a burst frame carrying a live beacon must pipe nothing"
    );
    assert_eq!(m.own_tab(), Some(12), "the burst left it coherent");
    assert_eq!(
        m.nav_executor(),
        None,
        "a live beacon outranks local truth, coherent frames or not"
    );
}

#[test]
fn alt_f_spawns_shows_or_hides_from_the_active_tabs_floating_state() {
    // #207: one press, one executor decision — spawn when the tab has no
    // floating pane, show when one exists hidden, hide when visible. The
    // decision lives here so a test can reach it (#162 template), and the
    // acting instance is the beacon-named one, same rule as `clave-nav`.
    let mut m = fleet_of_three(11);
    m.beacon(11); // the user is looking at our tab
    assert_eq!(
        m.shell_toggle(),
        vec![Effect::ShellSpawn { cwd: None }],
        "no floating pane on the active tab: the press must spawn the shell"
    );
    // A floating pane now exists on our tab (position 1) but the tab frame
    // says the floating set is not visible — the post-hide state.
    let mut panes = panes_at(&FLEET_PANES);
    panes.push(PaneMeta {
        tab_position: 1,
        pane_id: 200,
        is_plugin: false,
        is_focused: false,
        is_floating: true,
        terminal_command: None,
        exited: false,
        exit_status: None,
    });
    m.apply_panes(panes);
    assert_eq!(
        m.shell_toggle(),
        vec![Effect::ShellShow],
        "a hidden floating pane must be shown, NOT respawned — respawn here \
         is #207's stacking bug reborn"
    );
    // The tab frame now reports the floating set visible.
    m.apply_tabs(vec![
        tab(10, 0, "a", false),
        TabMeta {
            floating_visible: true,
            ..tab(11, 1, "b", true)
        },
        tab(12, 2, "c", false),
    ]);
    assert_eq!(
        m.shell_toggle(),
        vec![Effect::ShellHide],
        "visible floating panes: the press must hide them"
    );
}

#[test]
fn alt_f_seeds_the_shell_with_the_terminal_tabs_speaker_cwd() {
    // #215: the scratch shell must open where the tab lives, not where
    // the bar was born. A terminal tab's location is its speaker pane's
    // OS-reported cwd (#206 pane facts) — the same truth its row shows.
    let mut m = fleet_of_three(11);
    m.beacon(11);
    m.apply_pane_facts(vec![probe(6, Some("/w/clave"), None)]);
    assert_eq!(
        m.shell_toggle(),
        vec![Effect::ShellSpawn {
            cwd: Some("/w/clave".into())
        }],
        "the speaker pane's cwd must seed the spawn"
    );
    // An empty-but-successful probe must fall back (None → initial_cwd
    // in the adapter), never spawn at "" — same filter as the agent
    // branch (CodeRabbit, PR #222). Fresh model: the first toggle above
    // left a spawn pending, which swallows a second press by design.
    let mut m2 = fleet_of_three(11);
    m2.beacon(11);
    m2.apply_pane_facts(vec![probe(6, Some(""), None)]);
    assert_eq!(m2.shell_toggle(), vec![Effect::ShellSpawn { cwd: None }]);
}

#[test]
fn alt_f_on_an_agent_tab_seeds_from_store_truth() {
    // #215: agent tabs are never probed (#206 — their cwd is store
    // truth), so the spawn reads the snapshot-bound agent's cwd instead.
    let mut m = fleet_of_three(11);
    m.beacon(11);
    m.apply_snapshot(snap(
        1,
        vec![Agent {
            cwd: "/w/clave-wt".into(),
            ..agent("u1", Status::Idle, Some(11))
        }],
    ));
    assert_eq!(
        m.shell_toggle(),
        vec![Effect::ShellSpawn {
            cwd: Some("/w/clave-wt".into())
        }],
        "an agent tab's spawn must open in the agent's store cwd"
    );
}

#[test]
fn a_second_press_before_the_pane_frame_never_spawns_twice() {
    // Key-repeat on Alt+f: presses land faster than zellij's PaneUpdate,
    // so every one of them reads "no floating pane" — without the latch,
    // N presses fan out N shells (CodeRabbit, PR #209). The latch drops
    // presses until ANY pane frame lands, including one that shows no
    // floating pane at all: a failed spawn must leave the key repeatable,
    // not wedged.
    let mut m = fleet_of_three(11);
    m.beacon(11);
    assert_eq!(m.shell_toggle(), vec![Effect::ShellSpawn { cwd: None }]);
    assert_eq!(
        m.shell_toggle(),
        Vec::<Effect>::new(),
        "spawn in flight: a repeat press must be dropped, not re-spawn"
    );
    // The spawn failed — the next manifest still shows no floating pane.
    m.apply_panes(panes_at(&FLEET_PANES));
    assert_eq!(
        m.shell_toggle(),
        vec![Effect::ShellSpawn { cwd: None }],
        "any pane frame reopens the decision; a failed spawn must not \
         wedge Alt+f forever"
    );
    // This time the frame delivers the pane: the latch clears into the
    // normal show/hide table, not another spawn.
    let mut panes = panes_at(&FLEET_PANES);
    panes.push(PaneMeta {
        tab_position: 1,
        pane_id: 200,
        is_plugin: false,
        is_focused: false,
        is_floating: true,
        terminal_command: None,
        exited: false,
        exit_status: None,
    });
    m.apply_panes(panes);
    assert_eq!(m.shell_toggle(), vec![Effect::ShellShow]);
}

#[test]
fn a_starved_bar_never_acts_on_alt_f() {
    // FOOTGUNS.md:63-65: a starved bar's frozen frames are self-coherent
    // and claim its OWN tab active, so `elects_confirmed` is exactly the
    // self-diagnosed "am I active" that lies. Only the replicated beacon
    // can refuse it — and the spawn arm is the one that MUST be exclusive:
    // N acting bars would open N shells (the CLI-twin shape of #207).
    let mut m = starved_bar(12);
    m.beacon(11); // the broadcast says the user is elsewhere
    assert_eq!(
        m.shell_toggle(),
        Vec::<Effect>::new(),
        "the beacon names another tab: a starved bar must not act"
    );
    // A newborn instance (no frames at all) refuses too — fail-closed,
    // a dropped Alt+f is a repeatable keypress.
    let mut newborn = BarModel::default();
    newborn.set_own_pane(101);
    assert_eq!(newborn.shell_toggle(), Vec::<Effect>::new());
}

#[test]
fn a_beaconless_focus_change_never_leaves_two_nav_executors() {
    // The whole reason the re-anchor retries on EITHER frame rather than
    // handing the refusing instance a standing licence to nav on local
    // truth. A licence is armed by a frame that convicted the beacon, and
    // it can only be spent once the instance's PANE frame has restored
    // coherence — so it necessarily outlives the frame that granted it. A
    // NATIVE tab switch (mouse on zellij's tab bar) carries no clave pipe
    // and no beacon, and delivers frames only to the newly active bar, so
    // the former active bar sits frozen mid-licence, still claiming itself
    // active (FOOTGUNS.md:64) — and the new one arms a licence the same way
    // its predecessor did. Two licences, two executors, one keypress, two
    // divergent SwitchTabs: C5 round 2 again.
    //
    // Every beacon each bar emits is fanned to the whole fleet here,
    // because that is what the pipe does — which is exactly how the retry
    // keeps the election exclusive: the survivor's re-anchor lands on the
    // other bars before any of them can convict the beacon themselves.
    let mut bars = vec![fleet_bar(11, 10), fleet_bar(12, 10)];
    // Tab 10 — the announcing tab — closes. Focus falls to tab 11, so only
    // that bar receives the close's frames (C3), and its TabUpdate arrives
    // first, so its own re-anchor is refused off the stale manifest.
    let fx = bars[0].apply_tabs(vec![tab(11, 0, "b", true), tab(12, 1, "c", false)]);
    fan_beacons(&mut bars, &fx);
    assert_eq!(
        nav_executors(&bars),
        Vec::<usize>::new(),
        "mid-close, with no coherent frame pair anywhere, nobody may act"
    );
    // The pane frame that restores its coherence is the retry.
    let fx = bars[0].apply_panes(panes_at(&FLEET_PANES_AFTER_CLOSE));
    fan_beacons(&mut bars, &fx);
    assert_eq!(
        nav_executors(&bars),
        vec![11],
        "the survivor, alone — nav must be alive after the announcer died"
    );
    // Now the native switch to tab 12. No pipe, no beacon; tab 11's bar
    // hears nothing at all from here on.
    let fx = bars[1].apply_tabs(vec![tab(11, 0, "b", false), tab(12, 1, "c", true)]);
    fan_beacons(&mut bars, &fx);
    let fx = bars[1].apply_panes(panes_at(&FLEET_PANES_AFTER_CLOSE));
    fan_beacons(&mut bars, &fx);
    let elected = nav_executors(&bars);
    assert_eq!(
        elected.len(),
        1,
        "one press may move focus once: {elected:?} both claim it"
    );
    // Which one it is, stated rather than left implicit: the beacon's
    // owner, tab 11's bar, even though focus is on tab 12. That is the
    // known cost of a beaconless switch and it is INDEPENDENT of this bug —
    // a native switch always leaves the beacon behind, so the first press
    // after one walks from the old tab and re-anchors on landing. One
    // stale press, never two targets.
    assert_eq!(elected, vec![11]);
    let executor = bars[0].nav_executor();
    assert_eq!(
        bars[0].nav("{\"dir\":\"next\"}", executor),
        vec![
            Effect::SwitchTab { position: 1 },
            Effect::AnnounceVisit { tab_id: 12 }
        ],
        "and its landing re-anchors the fleet onto the tab the user is on"
    );
}

#[test]
fn a_tab_frame_with_no_active_tab_does_not_spend_the_birth_announce() {
    // #162: `birth_announced` was set BEFORE the decision to announce, so
    // a first TabUpdate carrying no active tab — reachable during a close
    // — spent a newborn's one and only announce on nothing. That is why a
    // freshly created tab could not heal a stranded session.
    let mut m = BarModel::default();
    let fx = m.apply_tabs(vec![tab(10, 0, "a", false)]);
    assert!(fx.iter().all(|e| !matches!(
        e,
        Effect::AnnounceVisit { .. } | Effect::ReanchorVisit { .. }
    )));
    let fx = m.apply_tabs(vec![tab(10, 0, "a", true)]);
    assert!(
        fx.contains(&Effect::AnnounceVisit { tab_id: 10 }),
        "the newborn's announce must survive an active-less frame"
    );
    // Still once-EVER: spent by the announce it made...
    let fx = m.apply_tabs(vec![tab(10, 0, "a", false), tab(11, 1, "b", true)]);
    assert!(fx.iter().all(|e| !matches!(
        e,
        Effect::AnnounceVisit { .. } | Effect::ReanchorVisit { .. }
    )));
    // ...and equally spent by an active tab the beacon ALREADY names. A
    // bar whose beacon arrived before its first frame has nothing to
    // announce, and must not save the UNGATED announce up for a later
    // burst — every instance firing one is the round-11 storm shape.
    let mut m = BarModel::default();
    m.beacon(10);
    let fx = m.apply_tabs(vec![tab(10, 0, "a", true), tab(11, 1, "b", false)]);
    assert!(fx.iter().all(|e| !matches!(
        e,
        Effect::AnnounceVisit { .. } | Effect::ReanchorVisit { .. }
    )));
    let fx = m.apply_tabs(vec![tab(10, 0, "a", false), tab(11, 1, "b", true)]);
    assert!(
        fx.iter().all(|e| !matches!(
            e,
            Effect::AnnounceVisit { .. } | Effect::ReanchorVisit { .. }
        )),
        "a satisfied birth claim must stay spent when the active tab moves"
    );
}

#[test]
fn tab_close_prunes_stale_ids_and_retries_until_echo_clears() {
    // #6/F3: on tab CLOSE the model emits the OBSERVED-STALE ids
    // (bound-or-timelined ids absent from the delivered live set) — NOT the
    // live set, so out-of-order prunes commute (idempotent removes) and a
    // late one can't unbind a tab created after it.
    //
    // Emission is DETECTION-driven, never set-change-gated, and since #55
    // it comes from `identity_effects` rather than `apply_tabs` — which is
    // what gives it a retry. A close is exactly when the two zellij frames
    // disagree, so the prune is refused on the close TabUpdate; the
    // PaneUpdate that restores coherence must re-derive and emit it. Only
    // the store echo clearing the mirror silences it.
    let mut m = BarModel::default();
    m.set_own_pane(100); // our bar sits in tab 10, at position 0
    m.apply_panes(panes_at(&[(0, 100, 5), (1, 101, 6)]));
    m.apply_tabs(vec![tab(10, 0, "a", true), tab(11, 1, "b", false)]);
    let mut s = snap(1, vec![agent("u-b", Status::Working, Some(11))]);
    s.tab_order = [(10usize, 100u64), (11, 200)].into();
    m.apply_snapshot(s);
    assert_eq!(
        m.identity_effects(),
        Vec::<Effect>::new(),
        "all live: no prune"
    );

    // Tab 11 closes ABOVE us. The TabUpdate leads, so the frames disagree.
    m.apply_tabs(vec![tab(10, 0, "a", true)]);
    assert_eq!(
        m.identity_effects(),
        Vec::<Effect>::new(),
        "incoherent frames authorise nothing — the prune included"
    );
    // The resolving PaneUpdate is the retry. Without this the prune is
    // lost outright: the next TabUpdate arrives when a tab is CREATED, and
    // zellij reuses ids, so the dead id would be back in the live set and
    // no longer read as stale — the dead agent's bind and timeline entry
    // would be inherited by the new tab.
    m.apply_panes(panes_at(&[(0, 100, 5)]));
    assert_eq!(
        m.identity_effects(),
        vec![Effect::PruneTabs {
            stale_ids: vec![11]
        }],
        "the frame that restores coherence must re-derive the prune"
    );
    // Still pending in the mirror → still emitted (detection-driven).
    assert_eq!(
        m.identity_effects(),
        vec![Effect::PruneTabs {
            stale_ids: vec![11]
        }]
    );
    // The store's prune echoes back: an EMPTY stale set, so it self-limits.
    m.apply_snapshot(snap_t(2, &[(10, 100)]));
    assert_eq!(
        m.identity_effects(),
        Vec::<Effect>::new(),
        "a clean store must cost no prune subprocess"
    );
}

#[test]
fn a_bar_never_shown_a_tab_must_not_prune_its_newborn_bind() {
    // 2026-08-17 QA-drive P2 rung 1, run 2: `clave add` created tab 1 and
    // its agent registered, touched, and bound — three store writes — and
    // tab 0's bar, background since the create with a tab frame still
    // reading {0}, received the snapshot, derived the bound tab 1 as
    // observed-stale, and pruned the newborn. One write reverted all
    // three, and (per #187) the retired pane mapping meant the row could
    // never bind again. "Observed-stale" must mean OBSERVED: an id above
    // everything this instance has ever been shown was never witnessed
    // alive or dead, and is not this bar's to prune.
    let mut m = BarModel::default();
    m.set_own_pane(100);
    m.apply_panes(panes_at(&[(0, 100, 5)]));
    m.apply_tabs(vec![tab(10, 0, "a", true)]);
    let mut s = snap(1, vec![agent("u-new", Status::Working, Some(11))]);
    s.tab_order = [(10usize, 100u64), (11, 200)].into();
    m.apply_snapshot(s);
    assert!(
        m.identity_effects()
            .iter()
            .all(|e| !matches!(e, Effect::PruneTabs { .. })),
        "a tab this instance never witnessed dying is a newborn, not a corpse"
    );
    // The moment a frame shows tab 11 alive and a later one shows it
    // gone, the same instance's prune is back in business.
    m.apply_tabs(vec![tab(10, 0, "a", true), tab(11, 1, "b", false)]);
    m.apply_panes(panes_at(&[(0, 100, 5), (1, 101, 6)]));
    m.apply_tabs(vec![tab(10, 0, "a", true)]);
    m.apply_panes(panes_at(&[(0, 100, 5)]));
    assert!(
        m.identity_effects().contains(&Effect::PruneTabs {
            stale_ids: vec![11]
        }),
        "a witnessed close must still prune"
    );
}

#[test]
fn a_reused_tab_id_is_a_newborn_not_a_corpse_to_a_starved_bar() {
    // Codex P1 on PR #202: zellij RECYCLES tab ids (FOOTGUNS — closing
    // the highest tab hands its id to the next tab created). A bar that
    // witnessed the old incarnation die retains that id under its
    // high-water mark, so when it is later starved — frames frozen
    // mutually-coherent, still claiming its own tab active — the
    // newborn's broadcast snapshot reads as observed-stale and its fresh
    // register/touch/bind is pruned, permanently (#187). A settled claim
    // must not outlive its own store echo.
    let mut m = BarModel::default();
    m.set_own_pane(100);
    // Tabs 10 (ours, active) and 11 alive together.
    m.apply_panes(panes_at(&[(0, 100, 5), (1, 101, 6)]));
    m.apply_tabs(vec![tab(10, 0, "a", true), tab(11, 1, "b", false)]);
    let mut s = snap(1, vec![agent("u-old", Status::Working, Some(11))]);
    s.tab_order = [(10usize, 100u64), (11, 200)].into();
    m.apply_snapshot(s);
    // Tab 11 — the highest — closes; we witness it and prune, correctly.
    m.apply_tabs(vec![tab(10, 0, "a", true)]);
    m.apply_panes(panes_at(&[(0, 100, 5)]));
    assert!(
        m.identity_effects().contains(&Effect::PruneTabs {
            stale_ids: vec![11]
        }),
        "the witnessed close prunes"
    );
    // The store echo settles the claim: nothing references 11 any more.
    m.apply_snapshot(snap_t(2, &[(10, 100)]));
    assert_eq!(m.identity_effects(), Vec::<Effect>::new());
    // A new tab is created and zellij hands it id 11 again. Creation
    // focuses the newborn, so THIS bar is starved — no TabUpdate, no
    // PaneUpdate, frozen frames still claiming tab 10 active. Only the
    // snapshot push arrives, carrying the newborn's register/touch/bind.
    let mut s = snap(3, vec![agent("u-reborn", Status::Working, Some(11))]);
    s.tab_order = [(10usize, 100u64), (11, 300)].into();
    m.apply_snapshot(s);
    assert!(
        m.identity_effects()
            .iter()
            .all(|e| !matches!(e, Effect::PruneTabs { .. })),
        "a reused id whose death was already settled is a newborn, not a corpse"
    );
}

#[test]
fn a_claim_still_referenced_by_a_bind_alone_keeps_its_prune_retrying() {
    // The settle condition is a DISJUNCTION over both store surfaces: a
    // witnessed-dead id is spent only when NEITHER an agent bind NOR a
    // tab_order entry references it. An echo that dropped the ordinal but
    // not the bind (a partial prune landing, or an unrelated push racing
    // it) must keep the claim — dropping it there loses the retry and
    // strands the dead bind forever (the #55 missed-action class).
    let mut m = BarModel::default();
    m.set_own_pane(100);
    m.apply_panes(panes_at(&[(0, 100, 5), (1, 101, 6)]));
    m.apply_tabs(vec![tab(10, 0, "a", true), tab(11, 1, "b", false)]);
    let mut s = snap(1, vec![agent("u-old", Status::Working, Some(11))]);
    s.tab_order = [(10usize, 100u64), (11, 200)].into();
    m.apply_snapshot(s);
    // Witness the close.
    m.apply_tabs(vec![tab(10, 0, "a", true)]);
    m.apply_panes(panes_at(&[(0, 100, 5)]));
    assert!(m.identity_effects().contains(&Effect::PruneTabs {
        stale_ids: vec![11]
    }));
    // Echo with the BIND still standing and the ordinal gone: unsettled.
    let mut s = snap(2, vec![agent("u-old", Status::Working, Some(11))]);
    s.tab_order = [(10usize, 100u64)].into();
    m.apply_snapshot(s);
    assert!(
        m.identity_effects().contains(&Effect::PruneTabs {
            stale_ids: vec![11]
        }),
        "a bind-only reference keeps the claim: the prune retries"
    );
}

#[test]
fn birth_and_steady_state_never_prune() {
    // Detection self-limit: silence comes from an EMPTY derived stale set,
    // not a set-change gate. A fresh instance (no binds/timeline yet)
    // derives nothing stale at birth, and an all-live set derives nothing
    // stale on every focus-move — only genuinely-absent ids emit.
    let mut m = BarModel::default();
    m.set_own_pane(100);
    m.apply_panes(panes_at(&[(0, 100, 5), (1, 101, 6)]));
    m.apply_tabs(vec![tab(10, 0, "a", true), tab(11, 1, "b", false)]);
    assert!(
        m.identity_effects()
            .iter()
            .all(|e| !matches!(e, Effect::PruneTabs { .. }))
    );
    let mut s = snap(1, vec![agent("u-b", Status::Working, Some(11))]);
    s.tab_order = [(10usize, 100u64), (11, 200)].into();
    m.apply_snapshot(s);
    // Focus moves (active flag flips) but every id is still live: no prune.
    m.apply_tabs(vec![tab(10, 0, "a", false), tab(11, 1, "b", true)]);
    assert!(
        m.identity_effects()
            .iter()
            .all(|e| !matches!(e, Effect::PruneTabs { .. }))
    );
}

#[test]
fn announces_are_bounded_birth_once_then_organic_only() {
    // Rounds 11–12 postmortem: ANY announce driven by per-instance
    // "am I active" data is poisoned during event bursts (C3: stale
    // sets always claim own-tab-active; render isn't visibility-gated
    // either — the render announce EMFILE-crashed the server). So
    // announces fire only on provably-bounded triggers:
    //   birth   — an instance's first-ever TabUpdate (once per life);
    //   organic — Alt+o's bind pipes clave-organic, arming ONE
    //             announce on the next TabUpdate.
    // We are the bar in tab 10, position 0, with a coherent manifest: since
    // #162 the organic re-anchor elects itself before emitting, so a test
    // that gives it no pane frame is testing a bar that cannot send.
    let mut m = BarModel::default();
    m.set_own_pane(100);
    m.apply_panes(panes_at(&[(0, 100, 5), (1, 101, 6)]));
    // Birth: first TabUpdate announces own-active claim, exactly once.
    let fx = m.apply_tabs(vec![tab(10, 0, "a", true), tab(11, 1, "b", false)]);
    assert!(fx.contains(&Effect::AnnounceVisit { tab_id: 10 }));
    // Toggle-burst safety: endless further TabUpdates with the same
    // stale own-active claim announce NOTHING, even with a stale
    // beacon (this exact pattern was the round-11/12 storm).
    m.beacon(11);
    for _ in 0..50 {
        let fx = m.apply_tabs(vec![tab(10, 0, "a", true), tab(11, 1, "b", false)]);
        assert!(
            fx.iter().all(|e| !matches!(
                e,
                Effect::AnnounceVisit { .. } | Effect::ReanchorVisit { .. }
            )),
            "a disagreeing beacon is not a trigger — only birth, organic and \
             stranded are"
        );
    }
    // Organic switch (Alt+o): the bind's MessagePlugin arms one
    // announce; the next TabUpdate fires it and disarms. GATED
    // (ReanchorVisit, not AnnounceVisit): the organic pipe broadcasts
    // and a toggle's TabUpdate reaches every instance, so an ungated
    // announce here is one `zellij pipe` subprocess PER BAR — measured
    // live as ~2s of frozen nav per Alt+o (#128, 2026-08-02).
    m.set_organic_pending();
    let fx = m.apply_tabs(vec![tab(10, 0, "a", true), tab(11, 1, "b", false)]);
    assert!(fx.contains(&Effect::ReanchorVisit { tab_id: 10 }));
    assert!(
        fx.iter()
            .all(|e| !matches!(e, Effect::AnnounceVisit { .. })),
        "the ungated announce must not fire for an organic switch"
    );
    let fx = m.apply_tabs(vec![tab(10, 0, "a", true), tab(11, 1, "b", false)]);
    assert!(fx.iter().all(|e| !matches!(
        e,
        Effect::AnnounceVisit { .. } | Effect::ReanchorVisit { .. }
    )));
    // An incoming beacon DISARMS a pending organic announce: the truly
    // active instance already spoke — a stale instance must not answer
    // a leftover flag with poison at its next burst.
    m.set_organic_pending();
    m.beacon(10); // truth arrives (also matches our claim → no-op announce)
    m.beacon(11); // and moves on
    let fx = m.apply_tabs(vec![tab(10, 0, "a", true), tab(11, 1, "b", false)]);
    assert!(fx.iter().all(|e| !matches!(
        e,
        Effect::AnnounceVisit { .. } | Effect::ReanchorVisit { .. }
    )));
    // A pending organic announce whose claim already MATCHES the beacon
    // stays quiet (nothing to correct).
    m.beacon(10);
    m.set_organic_pending();
    let fx = m.apply_tabs(vec![tab(10, 0, "a", true), tab(11, 1, "b", false)]);
    assert!(fx.iter().all(|e| !matches!(
        e,
        Effect::AnnounceVisit { .. } | Effect::ReanchorVisit { .. }
    )));
}

#[test]
fn an_answered_organic_one_shot_is_spent_not_saved() {
    // #162 moves the one-shot's clear onto the branch that emits, so the
    // other exits have to say WHY they may still spend it: a beacon that
    // already names the active tab has nothing to correct, and a birth
    // announce says everything the one-shot wanted said. Saving it instead
    // hands the instance a free announce to spend at some later switch it
    // was never asked about — an unbounded trigger, which is the round-11
    // storm shape.
    //
    // We are the bar in tab 11 (position 1), so the frames elect us exactly
    // when tab 11 is the active one.
    let mut m = BarModel::default();
    m.set_own_pane(101);
    m.apply_panes(panes_at(&[(0, 100, 5), (1, 101, 6)]));
    m.set_organic_pending();
    let fx = m.apply_tabs(vec![tab(10, 0, "a", true), tab(11, 1, "b", false)]);
    assert!(
        fx.contains(&Effect::AnnounceVisit { tab_id: 10 }),
        "birth answers first, and ungated"
    );
    // A native switch onto OUR tab with the beacon still on 10. We are the
    // elected instance here, so a saved one-shot WOULD fire.
    let fx = m.apply_tabs(vec![tab(10, 0, "a", false), tab(11, 1, "b", true)]);
    assert!(
        fx.iter()
            .all(|e| !matches!(e, Effect::ReanchorVisit { .. })),
        "the birth announce spends the armed one-shot"
    );
    // Now the satisfied exit: armed while the beacon already names the
    // active tab.
    m.beacon(10);
    m.set_organic_pending();
    m.apply_tabs(vec![tab(10, 0, "a", true), tab(11, 1, "b", false)]);
    let fx = m.apply_tabs(vec![tab(10, 0, "a", false), tab(11, 1, "b", true)]);
    assert!(
        fx.iter()
            .all(|e| !matches!(e, Effect::ReanchorVisit { .. })),
        "an agreeing beacon spends the armed one-shot too"
    );
    // And the SEND spends it. The ordinary path hides this, because a
    // re-anchor moves the beacon onto the active tab and the frame after it
    // therefore takes the agreeing exit above — so these are the frames that
    // would let a saved one-shot buy a SECOND pipe: emit once, then a
    // renumber that leaves us elected under a different active tab with the
    // old beacon still live, so the stranded trigger is not in play either.
    // One Alt+o must buy one pipe, burst or no burst.
    m.beacon(10);
    m.set_organic_pending();
    let fx = m.apply_tabs(vec![tab(10, 0, "a", false), tab(11, 1, "b", true)]);
    assert!(fx.contains(&Effect::ReanchorVisit { tab_id: 11 }));
    let fx = m.apply_tabs(vec![tab(11, 0, "b", false), tab(14, 1, "e", true)]);
    assert!(
        fx.iter()
            .all(|e| !matches!(e, Effect::ReanchorVisit { .. })),
        "the one-shot is spent by the pipe it bought, not by the next frame"
    );
}

/// A bar of the three-tab fleet whose OWN tab is the focused one. Every
/// width test needs the focus half — `width_effects` refuses to touch the
/// layout from a background tab, because zellij would apply the switch to
/// whichever tab has focus rather than to the one that asked.
fn focused_bar() -> BarModel {
    let mut m = fleet_bar(11, 11);
    m.beacon(11);
    frame(&mut m, 11);
    assert!(m.own_tab_focused(), "focused_bar is not focused");
    m
}

/// The same bar, on a tab the user is not looking at.
fn background_bar() -> BarModel {
    let mut m = fleet_bar(11, 10);
    m.beacon(10);
    frame(&mut m, 10);
    assert!(!m.own_tab_focused(), "background_bar is focused");
    m
}

fn collapsed_model() -> BarModel {
    let mut m = focused_bar();
    m.toggle();
    m
}

/// The two widths the layouts declare, verbatim (fixed column counts since
/// the 2026-08-17 rebuild — the machine compares painted width against
/// these constants and nothing else). Pinned to the `Double` arm (#232's
/// shipping default, and every `BarModel::default()` model's mode below)
/// — a test that needs to pin `Single` builds its own model via
/// `model_with_row_height(RowHeight::Single)` instead of this pair.
fn exp_w() -> usize {
    RowHeight::Double.target_cols(false)
}
fn col_w() -> usize {
    RowHeight::Double.target_cols(true)
}

/// Test-only constructor for a model whose row-height mode is not the
/// default (#232) — mirrors production's `set_row_height`, called from
/// `main.rs::load()` after `resolve_row_height`.
fn model_with_row_height(row_height: RowHeight) -> BarModel {
    let mut m = BarModel::default();
    m.set_row_height(row_height);
    m
}

/// The one width property that matters: **a mode change moves the pane,
/// and the pane ARRIVING at the mode's width is what ends the episode.**
///
/// Driven through the real entry points: `width_effects` once per render
/// with the width zellij just painted us at, and `width_cooldown_elapsed`
/// for the timer main.rs arms per ask — the sequence below is exactly
/// what a live bar sees. The paint after the toggle still shows the old
/// width and asks; the paints after the switch land while the ask's
/// cooldown holds, and the expiry finds the target width and rests.
#[test]
fn a_toggle_asks_on_the_first_paint_and_the_target_width_ends_it() {
    let mut m = focused_bar();
    assert_eq!(m.width_effects(Some(exp_w())), Vec::<Effect>::new());
    m.toggle(); // wants collapsed
    assert_eq!(m.width_effects(Some(exp_w())), vec![Effect::SwapWidth]);
    assert_eq!(m.width_effects(Some(col_w())), Vec::<Effect>::new());
    assert_eq!(m.width_cooldown_elapsed(), Vec::<Effect>::new());
    assert_eq!(m.width_effects(Some(col_w())), Vec::<Effect>::new());
    m.toggle(); // and back
    assert_eq!(m.width_effects(Some(col_w())), vec![Effect::SwapWidth]);
    assert_eq!(m.width_effects(Some(exp_w())), Vec::<Effect>::new());
    assert_eq!(m.width_cooldown_elapsed(), Vec::<Effect>::new());
}

/// The swap cycle hides the tab's birth layout as a position of its own
/// (FOOTGUNS), so one switch can land on a DIFFERENT position with the
/// SAME width. The cooldown expiry sees the width unchanged and asks
/// again rather than conclude it already asked.
#[test]
fn a_no_move_landing_is_asked_again_from_the_same_width() {
    let mut m = focused_bar();
    m.toggle(); // wants collapsed
    assert_eq!(m.width_effects(Some(exp_w())), vec![Effect::SwapWidth]);
    // The switch traded one expanded-width position for another
    // (birth → declared expanded): same width, new paint, judged deaf —
    // the expiry spends the second ask.
    assert_eq!(m.width_effects(Some(exp_w())), Vec::<Effect>::new());
    assert_eq!(m.width_cooldown_elapsed(), vec![Effect::SwapWidth]);
    assert_eq!(m.width_effects(Some(col_w())), Vec::<Effect>::new());
    assert_eq!(m.width_cooldown_elapsed(), Vec::<Effect>::new());
}

/// A paint that arrives while an ask's cooldown holds buys NOTHING —
/// however many arrive, whatever they claim. This is the regression the
/// QA drive filmed (2026-08-17): a swap's queued repaints echo the
/// pre-swap width, and a machine that judged them spent three asks
/// inside a millisecond, lapped the whole swap cycle, and re-armed
/// itself off its own paint wake — expand/collapse at paint speed,
/// forever. Replayed verbatim from the live trace.
#[test]
fn the_paint_echo_burst_buys_one_ask_and_the_expiry_ends_the_episode() {
    let mut m = focused_bar();
    m.toggle(); // wants collapsed
    assert_eq!(m.width_effects(Some(exp_w())), vec![Effect::SwapWidth]);
    // The live trace: five echoes of the pre-swap width, then the true
    // landing, all inside one cooldown. Every one of them judged
    // nothing.
    for _ in 0..5 {
        assert_eq!(m.width_effects(Some(exp_w())), Vec::<Effect>::new());
    }
    assert_eq!(m.width_effects(Some(col_w())), Vec::<Effect>::new());
    // The expiry judges the LATEST width — the true landing — and
    // rests. One press, one ask, episode over.
    assert_eq!(m.width_cooldown_elapsed(), Vec::<Effect>::new());
    assert_eq!(m.width_effects(Some(col_w())), Vec::<Effect>::new());
}

/// #208: while this tab's floating set is visible, zellij routes a
/// swap-layout switch to the FLOATING ring, not the tiled one
/// (`Tab::next_swap_layout`, zellij-server 0.44.3 tab/mod.rs:1151) — an
/// ask cannot move this pane, only spend the walk budget against the
/// shell's layer. So paints under a shown shell judge nothing and spend
/// nothing; the TabUpdate that reports the hide repaints, and THAT paint
/// spends the first ask.
#[test]
fn a_visible_floating_set_holds_the_ask_and_the_hide_releases_it() {
    let mut m = focused_bar();
    // The Alt+f shell is shown on the bar's own tab.
    m.apply_tabs(vec![
        tab(10, 0, "a", false),
        TabMeta {
            floating_visible: true,
            ..tab(11, 1, "b", true)
        },
        tab(12, 2, "c", false),
    ]);
    m.toggle(); // wants collapsed
    // However many paints arrive while the shell is up, none asks and
    // none spends budget — the pre-fix machine burned all three asks
    // here, each one relayouting the floating ring.
    for _ in 0..4 {
        assert_eq!(m.width_effects(Some(exp_w())), Vec::<Effect>::new());
    }
    // Alt+f hides the shell; the TabUpdate repaints and judgement
    // resumes with the full budget.
    frame(&mut m, 11);
    assert_eq!(m.width_effects(Some(exp_w())), vec![Effect::SwapWidth]);
    assert_eq!(m.width_effects(Some(col_w())), Vec::<Effect>::new());
    assert_eq!(m.width_cooldown_elapsed(), Vec::<Effect>::new());
}

/// A width zellij cannot produce (a window too narrow for the target)
/// must not become a spin: [`WALK_ASK_CAP`] cooldown-spaced asks walk
/// the whole cycle, and an intent still unmet after them is conceded —
/// the bar rests wherever the walk stopped until the intent changes.
/// (The round-20 "wherever cols stop changing" ruling.)
#[test]
fn a_width_zellij_cannot_produce_is_asked_thrice_then_rested() {
    let mut m = focused_bar();
    m.toggle(); // wants collapsed; the window can only paint 47
    assert_eq!(m.width_effects(Some(47)), vec![Effect::SwapWidth]);
    for _ in 1..WALK_ASK_CAP {
        assert_eq!(m.width_cooldown_elapsed(), vec![Effect::SwapWidth]);
    }
    assert_eq!(m.width_cooldown_elapsed(), Vec::<Effect>::new(), "rested");
    assert_eq!(m.width_effects(Some(47)), Vec::<Effect>::new(), "still");
}

/// The budget is per INTENT, not per width: a walk whose positions keep
/// the width moving without ever producing the target must still rest
/// after [`WALK_ASK_CAP`] asks. Movement re-arming the budget was the
/// second half of the filmed runaway — on a window that can paint both
/// 47 and 30 but never 54, each landing re-armed the other's counter and
/// the walk cycled at the cooldown's cadence, forever.
#[test]
fn a_walk_that_keeps_moving_without_landing_rests_after_its_budget() {
    let mut m = collapsed_model();
    assert_eq!(m.width_effects(Some(col_w())), Vec::<Effect>::new());
    m.toggle(); // wants expanded; the window cannot hold 54
    assert_eq!(m.width_effects(Some(col_w())), vec![Effect::SwapWidth]);
    for paint in [47, col_w()] {
        assert_eq!(m.width_effects(Some(paint)), Vec::<Effect>::new());
        assert_eq!(m.width_cooldown_elapsed(), vec![Effect::SwapWidth]);
    }
    // Three spent without a landing: the walk rests, moving or not.
    assert_eq!(m.width_effects(Some(47)), Vec::<Effect>::new());
    assert_eq!(m.width_cooldown_elapsed(), Vec::<Effect>::new(), "rested");
    assert_eq!(m.width_effects(Some(col_w())), Vec::<Effect>::new(), "still");
}

/// A stale pre-resize paint can drain from the pipeline AFTER the
/// episode already ended at the target (a landing clears the budget).
/// The machine cannot tell it from a real deviation and spends an ask —
/// a visible flap at worst, never a wedge: the walk re-converges and
/// rests, and the flap cannot re-arm itself because every follow-up
/// judgement waits out a cooldown.
#[test]
fn a_stale_paint_after_a_landing_costs_a_flap_and_converges() {
    let mut m = focused_bar();
    m.toggle(); // wants collapsed
    assert_eq!(m.width_effects(Some(exp_w())), vec![Effect::SwapWidth]);
    assert_eq!(m.width_effects(Some(col_w())), Vec::<Effect>::new());
    assert_eq!(m.width_cooldown_elapsed(), Vec::<Effect>::new(), "landed");
    // The stale echo, arriving at rest: one ask, fresh budget.
    assert_eq!(m.width_effects(Some(exp_w())), vec![Effect::SwapWidth]);
    // Its walk goes home again and the expiry rests.
    assert_eq!(m.width_effects(Some(col_w())), Vec::<Effect>::new());
    assert_eq!(m.width_cooldown_elapsed(), Vec::<Effect>::new());
    assert_eq!(m.width_effects(Some(col_w())), Vec::<Effect>::new());
}

/// The mode changing re-arms the budget even at an unchanged width: a
/// new intent deserves a fresh walk.
#[test]
fn a_mode_flip_rearms_the_walk_budget() {
    let mut m = focused_bar();
    m.toggle(); // wants collapsed; the pane never moves
    assert_eq!(m.width_effects(Some(exp_w())), vec![Effect::SwapWidth]);
    for _ in 1..WALK_ASK_CAP {
        assert_eq!(m.width_cooldown_elapsed(), vec![Effect::SwapWidth]);
    }
    assert_eq!(m.width_cooldown_elapsed(), Vec::<Effect>::new());
    m.toggle(); // wants expanded again — and the pane is already there
    assert_eq!(m.width_effects(Some(exp_w())), Vec::<Effect>::new());
    m.toggle(); // wants collapsed: same width, fresh intent
    assert_eq!(m.width_effects(Some(exp_w())), vec![Effect::SwapWidth]);
}

/// A toggle pressed while an ask is in flight is not lost and not
/// double-served: the paint stays unjudged until the expiry, which
/// serves the NEW intent.
#[test]
fn a_toggle_mid_cooldown_is_served_at_the_expiry() {
    let mut m = focused_bar();
    m.toggle(); // wants collapsed
    assert_eq!(m.width_effects(Some(exp_w())), vec![Effect::SwapWidth]);
    m.toggle(); // changed their mind before the swap settled
    assert_eq!(m.width_effects(Some(exp_w())), Vec::<Effect>::new());
    // The expiry judges the latest paint against the CURRENT intent:
    // expanded, already painted expanded — nothing owed.
    assert_eq!(m.width_cooldown_elapsed(), Vec::<Effect>::new());
}

/// The peek sink shares the Timer event, so an expiry can reach the
/// width machine with no ask in flight. It must judge nothing — ending
/// a deafness that does not exist would be a second entry point into
/// the ask logic.
#[test]
fn a_cooldown_expiry_at_rest_is_inert() {
    let mut m = focused_bar();
    assert_eq!(m.width_effects(Some(exp_w())), Vec::<Effect>::new());
    assert_eq!(m.width_cooldown_elapsed(), Vec::<Effect>::new());
    m.toggle(); // a mismatch exists, but no ask is in flight
    assert_eq!(m.width_cooldown_elapsed(), Vec::<Effect>::new());
}

/// An untouched bar at its mode's width never asks for anything, however
/// many times it is repainted. This is the property the old seek's
/// runaway violated.
#[test]
fn an_untouched_bar_never_asks_for_anything() {
    let mut m = focused_bar();
    for _ in 0..8 {
        assert_eq!(m.width_effects(Some(exp_w())), Vec::<Effect>::new());
        frame(&mut m, 11);
    }
}

/// A paint that carries no width (`width_effects` from a non-render
/// caller) decides nothing: only render knows the painted width.
#[test]
fn a_frame_without_a_width_decides_nothing() {
    let mut m = focused_bar();
    m.toggle();
    assert_eq!(m.width_effects(None), Vec::<Effect>::new());
    assert_eq!(m.width_effects(Some(exp_w())), vec![Effect::SwapWidth]);
}

/// Zellij resolves a plugin's swap-layout request against the FOCUSED
/// tab, not the asking one (FOOTGUNS) — so a background bar seeing a
/// wrong width emits nothing and books nothing.
#[test]
fn a_background_bar_never_switches_a_layout_it_does_not_own() {
    let mut m = background_bar();
    m.toggle(); // wants collapsed, painted expanded: a switch is owed
    for _ in 0..4 {
        assert_eq!(m.width_effects(Some(exp_w())), Vec::<Effect>::new());
    }
}

/// The owed switch fires on the first paint after the tab regains focus —
/// the disagreement is re-derived from the paint, not replayed from a
/// queue.
#[test]
fn a_held_switch_fires_on_the_paint_after_the_tab_regains_focus() {
    let mut m = background_bar();
    m.toggle();
    assert_eq!(m.width_effects(Some(exp_w())), Vec::<Effect>::new(), "held");
    m.beacon(11);
    frame(&mut m, 11); // the user arrives
    assert_eq!(m.width_effects(Some(exp_w())), vec![Effect::SwapWidth]);
    assert_eq!(m.width_effects(Some(col_w())), Vec::<Effect>::new());
}

/// Intent changing twice while held nets out to nothing: there is no
/// queue, only an end state, and the end state is the width the pane is
/// already at.
#[test]
fn intent_changing_twice_while_held_costs_nothing() {
    let mut m = background_bar();
    m.toggle();
    m.toggle(); // back to expanded before anyone looked
    m.beacon(11);
    frame(&mut m, 11);
    assert_eq!(m.width_effects(Some(exp_w())), Vec::<Effect>::new());
}

#[test]
fn a_peek_that_comes_and_goes_in_the_background_owes_nothing() {
    let mut m = background_bar();
    m.toggle(); // collapsed
    m.beacon(11);
    frame(&mut m, 11);
    assert_eq!(m.width_effects(Some(exp_w())), vec![Effect::SwapWidth]);
    assert_eq!(m.width_effects(Some(col_w())), Vec::<Effect>::new());
    assert_eq!(m.width_cooldown_elapsed(), Vec::<Effect>::new());
    m.beacon(10); // the user leaves
    assert!(m.visited(10)); // and navs, which every bar hears
    assert!(m.peek_expired());
    m.beacon(11); // and comes back
    frame(&mut m, 11);
    assert_eq!(
        m.width_effects(Some(col_w())),
        Vec::<Effect>::new(),
        "a peek nobody saw must not move the pane"
    );
}

#[test]
fn peek_expands_a_collapsed_bar_and_expiry_sinks_it() {
    // Peek-on-nav: while collapsed, any nav (arriving as the replicated
    // clave-visited pipe) briefly expands the bar; ~1s after the last
    // nav it sinks back to the gutter.
    let mut m = collapsed_model();
    assert_eq!(m.width_effects(Some(exp_w())), vec![Effect::SwapWidth]);
    assert_eq!(m.width_effects(Some(col_w())), Vec::<Effect>::new());
    assert_eq!(m.width_cooldown_elapsed(), Vec::<Effect>::new());
    // The nav lands on THIS bar's own tab — the bar the user is now
    // reading, and so the only one entitled to move a pane.
    assert!(m.visited(11), "collapsed bar must arm a peek");
    assert_eq!(m.current_tab(), Some(11)); // still a beacon
    // The peek is a geometry switch like any other since #181 — the bar
    // shows the expanded profile and occupies the expanded pane.
    assert_eq!(m.width_effects(Some(col_w())), vec![Effect::SwapWidth]);
    assert_eq!(m.width_effects(Some(exp_w())), Vec::<Effect>::new());
    assert_eq!(m.width_cooldown_elapsed(), Vec::<Effect>::new());
    // A second nav during the peek re-arms (main.rs counts its timers).
    assert!(m.visited(11));
    // Expiry: sink back to the gutter.
    assert!(m.peek_expired());
    assert_eq!(m.width_effects(Some(exp_w())), vec![Effect::SwapWidth]);
    assert_eq!(m.width_effects(Some(col_w())), Vec::<Effect>::new());
    assert_eq!(m.width_cooldown_elapsed(), Vec::<Effect>::new());
}

#[test]
fn expanded_bars_ignore_peeks() {
    let mut m = focused_bar();
    assert!(!m.visited(11), "expanded bar must not arm a peek");
    assert_eq!(m.current_tab(), Some(11)); // beacon still lands
    // And asked for no geometry switch: a beacon that corrupted
    // `collapsed` would have booked one.
    assert_eq!(m.width_effects(Some(exp_w())), Vec::<Effect>::new());
}

#[test]
fn toggle_cancels_a_peek_and_a_late_expiry_is_a_noop() {
    let mut m = collapsed_model();
    assert_eq!(m.width_effects(Some(exp_w())), vec![Effect::SwapWidth]);
    assert_eq!(m.width_effects(Some(col_w())), Vec::<Effect>::new());
    assert_eq!(m.width_cooldown_elapsed(), Vec::<Effect>::new());
    assert!(m.visited(11));
    // Alt+c mid-peek: now genuinely expanded; the peek flag must not
    // survive to fight the user's explicit toggle.
    m.toggle();
    assert!(!m.peek_expired(), "late timer after a toggle is a no-op");
    // One switch, to the expanded geometry, unpoisoned by the peek.
    assert_eq!(m.width_effects(Some(col_w())), vec![Effect::SwapWidth]);
    assert_eq!(m.width_effects(Some(exp_w())), Vec::<Effect>::new());
}

/// Issue #5 path (a), birth-while-collapsed: a bar born after the toggle
/// (or reborn by a reload — path (b), identical state: fresh default)
/// missed the broadcast forever. Hydration must come from the snapshot
/// it fetches at startup — and since the pane is BORN at the persisted
/// mode's width (fixed cols in the launch layout), hydration finds the
/// painted width already correct and owes zellij nothing.
#[test]
fn snapshot_hydrates_a_newborn_into_collapse() {
    let mut m = focused_bar();
    m.await_hydration();
    let mut s = snap(1, vec![]);
    s.collapsed = true;
    m.apply_snapshot(s);
    assert!(m.collapsed, "snapshot-carried flag did not hydrate");
    assert_eq!(
        m.width_effects(Some(col_w())),
        Vec::<Effect>::new(),
        "a pane born at the persisted width owes no switch"
    );
    // A newborn whose pane predates the flip (reload mid-toggle) is the
    // one that owes a move, and the paint says so.
    assert_eq!(m.width_effects(Some(exp_w())), vec![Effect::SwapWidth]);
}

/// An instance that missed the toggle broadcast heals from the next
/// (seq-newer) snapshot push; an instance already in sync is left
/// byte-untouched (a per-snapshot switch would be a perpetual relayout,
/// round 11).
#[test]
fn snapshot_heals_a_desynced_instance_and_leaves_synced_ones_alone() {
    let mut missed = focused_bar();
    missed.apply_snapshot(snap(1, vec![])); // hydrated expanded, seq 1
    assert_eq!(missed.width_effects(Some(exp_w())), Vec::<Effect>::new());
    let mut heal = snap(2, vec![]);
    heal.collapsed = true;
    missed.apply_snapshot(heal);
    assert_eq!(
        missed.width_effects(Some(exp_w())),
        vec![Effect::SwapWidth],
        "a seq-newer contradicting snapshot must move the pane"
    );

    let mut synced = collapsed_model();
    synced.apply_snapshot(snap(1, vec![]));
    // The store echo (seq 1, expanded) must NOT overrule the owed press:
    // the pane keeps walking to the collapsed width.
    assert_eq!(synced.width_effects(Some(exp_w())), vec![Effect::SwapWidth]);
    assert_eq!(synced.width_effects(Some(col_w())), Vec::<Effect>::new());
}

/// Issue #5 durability: a toggle books the write it owes the store and
/// emits the persist effect carrying the ABSOLUTE new mode (main.rs
/// executes it on the active instance only).
#[test]
fn toggle_emits_the_persist_effect_with_the_absolute_mode() {
    let mut m = BarModel::default();
    assert_eq!(
        m.toggle(),
        vec![Effect::PersistCollapse { collapsed: true }]
    );
    assert_eq!(
        m.toggle(),
        vec![Effect::PersistCollapse { collapsed: false }]
    );
}

/// Fix-review MAJOR (issue #5): two rapid toggles spawn two writes with
/// no arrival-order guarantee — the stale one can win and the store's
/// push then contradicts the user. The pending ledger keeps USER truth and
/// re-asserts exactly once.
///
/// **Rule changed by #137.** This test used to assert that a SECOND
/// contradiction yields to the store — "wrong-but-consistent beats a
/// ping-pong". Live driving showed that yielding is what let a store one
/// burst behind overrule a press the user had just made, and the resulting
/// mode flip-flop drove the width machine fast enough to storm the session.
/// While a write is owed, the store's flag is now ignored outright: the
/// user's last press stands until the store catches up. The ping-pong the
/// old rule feared is prevented instead by contradictions being INERT: they
/// neither flip the mode nor buy a write, so the amplification loop that
/// fed the storm has nothing to feed on.
#[test]
fn a_contradicting_store_never_overrules_an_owed_press() {
    let mut m = BarModel::default();
    m.apply_snapshot(snap(1, vec![]));
    m.toggle(); // → collapsed, owes true
    m.toggle(); // → expanded, owes false (double Alt+c)
    // The late 'true' write won the race; its push arrives:
    let mut bad = snap(2, vec![]);
    bad.collapsed = true;
    let fx = m.apply_snapshot(bad);
    assert!(!m.collapsed, "first contradiction must keep user truth");
    assert!(
        fx.contains(&Effect::PersistCollapse { collapsed: false }),
        "the owed value must be re-asserted"
    );
    // The re-assert was lost too (pathological): further contradicting
    // pushes change NOTHING — no flip, and no second write.
    let mut bad2 = snap(3, vec![]);
    bad2.collapsed = true;
    let fx = m.apply_snapshot(bad2);
    assert!(
        !m.collapsed,
        "the store overruled a press it had not caught up to"
    );
    assert!(
        !fx.iter()
            .any(|e| matches!(e, Effect::PersistCollapse { .. })),
        "no further re-asserts — one per burst"
    );
    // The debt settles the moment the store agrees, and healing resumes:
    // an instance with nothing owed follows the store as it always did.
    let mut caught_up = snap(4, vec![]);
    caught_up.collapsed = false;
    m.apply_snapshot(caught_up);
    assert!(!m.collapsed);
    let mut heal = snap(5, vec![]);
    heal.collapsed = true;
    m.apply_snapshot(heal);
    assert!(m.collapsed, "a settled ledger must still follow the store");
}

/// Issue #5 seq-gate interplay: a STALE snapshot (seq <=) is discarded
/// wholesale — its collapsed flag included — so it can never fight a
/// fresher local toggle.
#[test]
fn stale_snapshot_cannot_flip_collapse() {
    let mut m = BarModel::default();
    m.apply_snapshot(snap(5, vec![]));
    m.toggle(); // collapsed, locally, after seq 5
    let mut stale = snap(5, vec![]); // same seq: stale by the seq check
    stale.collapsed = false;
    m.apply_snapshot(stale);
    assert!(m.collapsed, "a stale snapshot must not undo a local toggle");
}

#[test]
fn stale_instance_orders_and_decorates_from_snapshot_alone() {
    // The round-6 regression test: an instance with NO registers and NO
    // manifest (loaded late, event-starved) must still agree with every
    // other instance on order and glyphs, because both ride the
    // snapshot. Only the tab SET is local — and the executor's is fresh.
    let mut m = BarModel::default();
    m.apply_tabs(vec![
        tab(10, 0, "term", false),
        tab(11, 1, "ag-a", false),
        tab(12, 2, "ag-b", true),
    ]);
    let mut s = snap(
        1,
        vec![
            agent("u1", Status::Working, Some(11)),
            agent("u2", Status::Done, Some(12)),
        ],
    );
    s.tab_order = [(10, 100), (11, 900), (12, 500)].into();
    m.apply_snapshot(s);
    assert_eq!(
        keys(&m),
        vec![RowKey::Tab(11), RowKey::Tab(12), RowKey::Tab(10)]
    );
    assert_eq!(status_at(&m, 0), Some(RowStatus::Working)); // ag-a
    assert_eq!(status_at(&m, 1), Some(RowStatus::Done)); // ag-b
    assert_eq!(status_at(&m, 2), None); // the plain terminal tab
}

// --- projecting a Row from an Agent (LEDGER D6, design-lock §2) --------

/// An agent placed in repo `root` on `branch`, with a title and summary.
fn dressed(
    uuid: &str,
    root: &str,
    branch: &str,
    title: Option<&str>,
    tab: Option<usize>,
) -> Agent {
    let mut a = agent(uuid, Status::Working, tab);
    a.repo_root = root.into();
    a.branch = branch.into();
    a.title = title.map(String::from);
    a.summary = format!("{uuid} is working");
    a
}

fn content_at(m: &BarModel, i: usize) -> RowContent {
    m.rows()[i].1.content.clone()
}

#[test]
fn a_row_projects_title_summary_and_the_repo_basename() {
    let mut m = BarModel::default();
    m.apply_tabs(vec![tab(10, 0, "whatever", false)]);
    m.apply_snapshot(snap(
        1,
        vec![dressed(
            "u1",
            "/Users/o/code/clave",
            "main",
            Some("S6-GUT"),
            Some(10),
        )],
    ));
    let RowContent::Agent {
        title,
        repo,
        summary,
        battery,
        ..
    } = content_at(&m, 0)
    else {
        panic!("a bound tab renders as an agent row");
    };
    assert_eq!(title.as_deref(), Some("S6-GUT"));
    // BASENAME, not the path: the repo column is 7 cells (3 collapsed), so
    // a path would render as ellipsis and identify nothing.
    assert_eq!(repo, "clave");
    assert_eq!(summary, "u1 is working");
    // S7 HAS landed (#62) — this fixture just never sets `context_level`,
    // which is the "no reading yet" case, and it must stay a blank cell
    // rather than an invented level. A dormant row is a different thing
    // entirely and renders in full ramp colour.
    assert_eq!(battery, None);
}

/// Both halves of the battery reach the row, from one snapshot: the bucketed
/// level the collapsed profile draws its glyph from, and the raw count the
/// expanded profile prints (#105). Bucketing stays host-side — the bar must
/// not re-derive either from the other, which is why this asserts the pair
/// rather than one of them.
#[test]
fn a_row_carries_both_the_battery_level_and_the_token_count() {
    let mut m = BarModel::default();
    m.apply_tabs(vec![tab(10, 0, "whatever", false)]);
    let mut a = agent("u1", Status::Working, Some(10));
    a.context_tokens = Some(105_000);
    a.context_level = Some(7);
    m.apply_snapshot(snap(1, vec![a]));
    let RowContent::Agent {
        battery, tokens, ..
    } = content_at(&m, 0)
    else {
        panic!("a bound tab renders as an agent row");
    };
    assert_eq!(battery, Some(7));
    assert_eq!(tokens, Some(105_000));
}

#[test]
fn provenance_is_three_state_worktree_branch_and_blank_main() {
    let mut m = BarModel::default();
    m.apply_tabs(vec![
        tab(10, 0, "a", false),
        tab(11, 1, "b", false),
        tab(12, 2, "c", false),
        tab(13, 3, "d", false),
    ]);
    let mut wt = dressed("u-wt", "/r/one", "feature/x", None, Some(10));
    wt.worktree = Some("/r/one-wt".into());
    m.apply_snapshot(snap(
        1,
        vec![
            wt,
            dressed("u-br", "/r/one", "feature/x", None, Some(11)),
            dressed("u-main", "/r/one", "main", None, Some(12)),
            dressed("u-master", "/r/one", "master", None, Some(13)),
        ],
    ));
    let provenance = |i: usize| match content_at(&m, i) {
        RowContent::Agent { provenance, .. } => provenance,
        RowContent::Terminal { .. } => panic!("row {i} is not an agent"),
    };
    // A worktree outranks its branch: the worktree IS the provenance.
    assert_eq!(provenance(0), Provenance::Worktree);
    assert_eq!(provenance(1), Provenance::Branch);
    // Both default-branch names render NOTHING (lock §5.1) — blanking the
    // most common row is what makes the two marked states mean something.
    //
    // `dressed` leaves `default_branch` at None, so this is now specifically
    // the #86 FALLBACK path: an old store row, or a repo whose default git
    // could not name, still gets exactly the answer it got before the field
    // existed. That is the guarantee — never a worse answer, only a better
    // one when the repo supplies it (see the test below).
    assert_eq!(provenance(2), Provenance::Main);
    assert_eq!(provenance(3), Provenance::Main);
}

#[test]
fn provenance_prefers_the_repos_own_default_branch_over_the_name_heuristic() {
    // #86: `main`/`master` are not exhaustive. A repository whose default is
    // `trunk` (or `develop`, or `dev`) had its ORDINARY checkout marked as a
    // branch — the one row design-lock §5.1 requires to be blank — purely on
    // naming convention. The host resolves the real default
    // (`add::resolve_default_branch`) and it rides the snapshot; when it is
    // present it OUTRANKS the name test in both directions.
    let mut m = BarModel::default();
    m.apply_tabs(vec![
        tab(10, 0, "a", false),
        tab(11, 1, "b", false),
        tab(12, 2, "c", false),
        tab(13, 3, "d", false),
    ]);
    let with_default = |uuid: &str, branch: &str, tab: usize| {
        let mut a = dressed(uuid, "/r/trunkrepo", branch, None, Some(tab));
        a.default_branch = Some("trunk".into());
        a
    };
    let mut wt = with_default("u-wt", "trunk", 10);
    wt.worktree = Some("/r/trunkrepo-wt".into());
    m.apply_snapshot(snap(
        1,
        vec![
            wt,
            with_default("u-default", "trunk", 11),
            with_default("u-feature", "feature/x", 12),
            // `main` is NOT special here: in a trunk-default repository it
            // is an ordinary side branch and must be marked as one. This is
            // the assertion the old hardcoded list could never make.
            with_default("u-main", "main", 13),
        ],
    ));
    let provenance = |i: usize| match content_at(&m, i) {
        RowContent::Agent { provenance, .. } => provenance,
        RowContent::Terminal { .. } => panic!("row {i} is not an agent"),
    };
    // A worktree still outranks everything — the worktree IS the provenance.
    assert_eq!(provenance(0), Provenance::Worktree);
    assert_eq!(provenance(1), Provenance::Main, "the repo's real default");
    assert_eq!(provenance(2), Provenance::Branch);
    assert_eq!(
        provenance(3),
        Provenance::Branch,
        "`main` in a trunk-default repo is a side branch"
    );
}

#[test]
fn an_agent_outside_a_repo_takes_the_blank_provenance() {
    // Not in the design, and decided here: an agent outside a repo has no
    // branch, and painting the branch glyph for it would assert a
    // provenance nobody has. The blank cell is the honest one.
    //
    // `"-"` is the value that matters: it is what the HOST actually writes
    // (`clave/src/add.rs:517`, the `git rev-parse --abbrev-ref HEAD`
    // fallback, and `record_branch` for a detached-worktree resume). The
    // empty string is only ever produced by test builders — asserted
    // second, and kept, so those builders stay honest.
    let mut m = BarModel::default();
    m.apply_tabs(vec![tab(10, 0, "a", false), tab(11, 1, "b", false)]);
    m.apply_snapshot(snap(
        1,
        vec![
            dressed("u-dash", "/r/one", "-", None, Some(10)),
            dressed("u-empty", "/r/one", "", None, Some(11)),
        ],
    ));
    let provenance = |i: usize| match content_at(&m, i) {
        RowContent::Agent { provenance, .. } => provenance,
        RowContent::Terminal { .. } => panic!("row {i} is not an agent"),
    };
    assert_eq!(provenance(0), Provenance::Main, "the host's non-repo value");
    assert_eq!(provenance(1), Provenance::Main, "a test builder's default");
}

#[test]
fn elapsed_label_is_coarse_and_never_invented() {
    assert_eq!(elapsed_label(1000, 0), None); // then=0: never interacted
    assert_eq!(elapsed_label(100, 100).as_deref(), Some("0m"));
    assert_eq!(elapsed_label(100 + 59, 100).as_deref(), Some("0m"));
    assert_eq!(elapsed_label(100 + 5 * 60, 100).as_deref(), Some("5m"));
    assert_eq!(elapsed_label(100 + 2 * 3600, 100).as_deref(), Some("2h"));
    assert_eq!(elapsed_label(100 + 3 * 86_400, 100).as_deref(), Some("3d"));
    assert_eq!(elapsed_label(100 + 2 * 604_800, 100).as_deref(), Some("2w"));
    assert_eq!(elapsed_label(50, 100).as_deref(), Some("0m")); // clock skew: clamp, don't panic
}

#[test]
fn agent_content_carries_the_card_fields() {
    let mut m = BarModel::default();
    m.apply_tabs(vec![tab(10, 0, "a", false), tab(11, 1, "b", false)]);
    m.tick(1_100);
    let mut on_branch = dressed("u-branch", "/r/one", "feature/x", None, Some(10));
    on_branch.model = Some("sonnet".into());
    on_branch.provider = Some("openai".into());
    on_branch.pr_number = Some(232);
    on_branch.last_interacted = 1_000;
    let mut on_default = dressed("u-default", "/r/one", "main", None, Some(11));
    on_default.default_branch = Some("main".into());
    on_default.last_interacted = 0;
    m.apply_snapshot(snap(1, vec![on_branch, on_default]));
    let fields = |i: usize| match content_at(&m, i) {
        RowContent::Agent {
            model,
            provider,
            pr,
            branch,
            elapsed,
            ..
        } => (model, provider, pr, branch, elapsed),
        RowContent::Terminal { .. } => panic!("row {i} is not an agent"),
    };
    let (model, provider, pr, branch, elapsed) = fields(0);
    assert_eq!(model.as_deref(), Some("sonnet"));
    assert_eq!(provider.as_deref(), Some("openai"));
    assert_eq!(pr, Some(232));
    assert_eq!(branch, "feature/x");
    assert_eq!(elapsed.as_deref(), Some("1m")); // 100s since last_interacted
    // The default checkout blanks its branch cell — the same predicate
    // `provenance` renders blank via its `Main` case — and never having
    // interacted (`last_interacted: 0`) renders no elapsed at all.
    let (_, _, _, branch, elapsed) = fields(1);
    assert_eq!(branch, "");
    assert_eq!(elapsed, None);
}

#[test]
fn a_tab_with_no_agent_is_a_terminal_row_carrying_the_zellij_name() {
    // Lock §7.1: the zellij tab name is used ONLY for a terminal tab.
    let mut m = BarModel::default();
    m.apply_tabs(vec![tab(10, 0, "Tab #16", false)]);
    assert_eq!(content_at(&m, 0), RowContent::terminal("Tab #16"));
}

#[test]
fn the_local_unread_override_still_turns_a_read_done_into_idle() {
    // §6.5, carried over from the (char, u8) glyph logic: a Done agent
    // already seen renders Idle until `clave focus` persists it. The
    // status mapping is otherwise one-to-one, so this is the single rule
    // that a mechanical Status → RowStatus port would have dropped.
    let mut m = BarModel::default();
    m.apply_tabs(vec![tab(10, 0, "t", false)]);
    m.apply_snapshot(snap(1, vec![agent("u1", Status::Done, Some(10))]));
    assert_eq!(status_at(&m, 0), Some(RowStatus::Done));
    m.apply_tabs(vec![tab(10, 0, "t", true)]); // focus marks it read
    assert_eq!(status_at(&m, 0), Some(RowStatus::Idle));
}

#[test]
fn model_states_outrank_the_stores_status() {
    // Stale and Opening are not `Status` variants at all (LEDGER D10) and
    // must win over whatever the store last said.
    let mut m = BarModel::default();
    let mut a = agent("u1", Status::Working, None);
    a.stale = true;
    m.apply_snapshot(snap(1, vec![a]));
    assert_eq!(status_at(&m, 0), Some(RowStatus::Stale));

    let mut m = BarModel::default();
    m.apply_snapshot(snap(1, vec![agent("u1", Status::Working, None)]));
    m.set_opening(vec!["u1".into()]);
    assert_eq!(status_at(&m, 0), Some(RowStatus::Opening));
    // …and with neither flag, a dormant row is Dormant regardless of the
    // status the store carries.
    m.set_opening(vec![]);
    assert_eq!(status_at(&m, 0), Some(RowStatus::Dormant));

    // The half that is NEW. Every case above is a dormant row, where the
    // old (char, u8) logic already answered the same way — it only reached
    // stale/opening off the dormant path. The unified projection applies
    // the precedence to a LIVE row too, so bind the agent to a tab and
    // assert the model state still outranks the store's `Status`.
    let mut m = BarModel::default();
    m.apply_tabs(vec![tab(10, 0, "t", false)]);
    let mut a = agent("u1", Status::Working, Some(10));
    a.stale = true;
    m.apply_snapshot(snap(1, vec![a]));
    assert_eq!(status_at(&m, 0), Some(RowStatus::Stale), "live and stale");

    let mut m = BarModel::default();
    m.apply_tabs(vec![tab(10, 0, "t", false)]);
    m.apply_snapshot(snap(1, vec![agent("u1", Status::Working, Some(10))]));
    // Sanity: without a flag the live row does show the store's status,
    // so the two assertions below are a genuine override, not a constant.
    assert_eq!(status_at(&m, 0), Some(RowStatus::Working));
    m.set_opening(vec!["u1".into()]);
    assert_eq!(
        status_at(&m, 0),
        Some(RowStatus::Opening),
        "live and opening"
    );
}

#[test]
fn the_width_profile_follows_state_not_current_width() {
    // LEDGER D16: the profile is chosen by STATE, which is what stops the
    // pane from over-running mid-animation. Same rule the width machine picks its
    // target with — a peeking bar is collapsed but showing the template.
    let mut m = BarModel::default();
    assert_eq!(m.widths(), Widths::EXPANDED);
    m.toggle();
    assert_eq!(m.widths(), Widths::COLLAPSED);
    assert!(m.visited(7), "a collapsed bar peeks on nav");
    assert_eq!(m.widths(), Widths::EXPANDED, "a peek shows the template");
    assert!(m.peek_expired());
    assert_eq!(m.widths(), Widths::COLLAPSED);
}

/// The one exception window: while awaiting hydration the mode is a
/// default guess but the painted width is store truth (the launch layout
/// is composed from `store.collapsed`), so the PAINT picks the profile —
/// a collapsed cold start must not flash the expanded ink into its
/// 30-col pane. Hydration restores D16's state-only rule.
#[test]
fn a_bar_awaiting_hydration_draws_the_profile_its_pane_was_born_at() {
    let mut m = BarModel::default();
    m.await_hydration();
    assert_eq!(m.widths_at(col_w()), Widths::COLLAPSED, "born collapsed");
    assert_eq!(m.widths_at(exp_w()), Widths::EXPANDED, "born expanded");
    let mut s = snap(1, vec![]);
    s.collapsed = true;
    m.apply_snapshot(s);
    // Hydrated: state rules again, whatever width a stale paint claims.
    assert_eq!(m.widths_at(exp_w()), Widths::COLLAPSED);
}

/// The hydration-window collapse check (above) must ask the MODE, not a
/// hardcoded constant: a double-mode bar's collapsed target is 38, not
/// `Single`'s 30 — painting at 30 must NOT be read as "born collapsed".
#[test]
fn hydration_collapse_detection_follows_the_mode() {
    let mut m = model_with_row_height(RowHeight::Double);
    m.await_hydration();
    assert_eq!(m.widths_at(38), Widths::COLLAPSED);
    assert_eq!(m.widths_at(30), m.widths());
}

// --- PROVISIONAL ink allocation (delete with `ProvisionalInks`) --------

#[test]
fn provisional_inks_are_stable_across_two_identical_snapshots() {
    // The property a `HashMap` would break: Rust's default hasher is
    // randomly seeded, so iteration order varies per process AND the
    // colours would reshuffle between renders. Sorted keys make the same
    // snapshot always yield the same palette assignment.
    let agents = || {
        vec![
            dressed("u1", "/r/zebra", "main", Some("ZZ"), None),
            dressed("u2", "/r/alpha", "main", Some("AA"), None),
            dressed("u3", "/r/alpha", "main", Some("BB"), None),
        ]
    };
    let inks_of = |seq: u64| {
        let mut m = BarModel::default();
        m.apply_snapshot(snap(seq, agents()));
        m.rows()
            .into_iter()
            .map(|(k, r)| match r.content {
                RowContent::Agent {
                    repo_ink,
                    title_ink,
                    ..
                } => (k, repo_ink, title_ink),
                RowContent::Terminal { .. } => panic!("no terminals here"),
            })
            .collect::<Vec<_>>()
    };
    // Two INDEPENDENT models over the same snapshot, which is where a
    // per-process hash seed would show up.
    let a = inks_of(1);
    let b = inks_of(1);
    assert_eq!(a, b);
    // Sorted order: /r/alpha is index 0, /r/zebra index 1. Within alpha,
    // AA is 0 and BB is 1 — a title chip is unique within its repo (lock
    // §4), so the two alpha rows do not collide.
    let repo_ink = |uuid: &str| {
        a.iter()
            .find(|(k, _, _)| *k == RowKey::Dormant(uuid.into()))
            .map(|(_, r, _)| *r)
            .unwrap()
    };
    let title_ink = |uuid: &str| {
        a.iter()
            .find(|(k, _, _)| *k == RowKey::Dormant(uuid.into()))
            .map(|(_, _, t)| *t)
            .unwrap()
    };
    assert_eq!(repo_ink("u2"), Some(0));
    assert_eq!(repo_ink("u3"), Some(0), "one repo is one colour");
    assert_eq!(repo_ink("u1"), Some(1));
    assert_eq!(title_ink("u2"), Some(0));
    assert_eq!(title_ink("u3"), Some(1), "chips differ within a repo");
}

#[test]
fn provisional_inks_wrap_at_the_palette_length() {
    let agents: Vec<Agent> = (0..11)
        .map(|i| {
            dressed(
                &format!("u{i:02}"),
                &format!("/r/{i:02}"),
                "main",
                None,
                None,
            )
        })
        .collect();
    let inks = ProvisionalInks::allocate(&agents);
    let repo = |r: &str| inks.repo_ink(&r.to_string());
    assert_eq!((0..11).filter(|i| repo(&format!("/r/{i:02}")).is_some()).count(), 11);
    assert_eq!(repo("/r/00"), Some(0));
    assert_eq!(repo("/r/07"), Some(7));
    assert_eq!(repo("/r/08"), Some(0), "round-robin wraps at 8");
    assert_eq!(repo("/r/10"), Some(2));
}

#[test]
fn an_agent_outside_a_repo_gets_no_ink_never_index_zero() {
    // LEDGER D7: `0` is crystalBlue, a real hue, so `unwrap_or(0)` paints
    // every untinted row one colour while reading as "untinted".
    let inks = ProvisionalInks::allocate(&vec![agent("u1", Status::Idle, None)]);
    assert_eq!(inks.repo_ink(&String::new()), None);
    assert_eq!(inks.title_ink(&String::new(), &String::new()), None);
    assert_eq!(inks.title_ink(&String::new(), &"u1".to_string()), None);
}

#[test]
fn basename_takes_the_last_non_empty_component() {
    let basename = |p: &str| basename(p).into_iter().collect::<String>();
    assert_eq!(basename("/Users/o/code/clave"), "clave");
    assert_eq!(basename("/Users/o/code/clave/"), "clave");
    assert_eq!(basename("clave"), "clave");
    assert_eq!(basename(""), "");
    assert_eq!(basename("/"), "");
}

#[test]
fn store_rows_without_live_tabs_render_dormant() {
    // §6.6 C8: row set = TabUpdate ∪ dormant store rows. An agent whose
    // bind points at no current tab and whose registered pane is gone gets
    // a row of its own, marked Dormant, recency = last_interacted. It is
    // NOT labeled from the store any more — the projection renders title,
    // repo and summary (lock §2), so `label` is dead to this row.
    let mut m = BarModel::default();
    m.apply_tabs(vec![tab(1, 0, "shell", true)]); // one plain live tab
    let mut a = agent("u-dormant", Status::Idle, None);
    a.last_interacted = 500;
    m.apply_snapshot(AgentSnapshot {
        order: OrderMode::default(),
        today: 0,
        tab_frecency: Default::default(),
        tab_touched: Default::default(),
        collapsed: false,
        seq: 1,
        agents: vec![a],
        tab_order: Default::default(),
    });
    let rows = m.rows();
    assert_eq!(rows.len(), 2);
    let d = rows
        .iter()
        .find(|(k, _)| *k == RowKey::Dormant("u-dormant".into()))
        .expect("dormant row rendered");
    assert!(!d.1.selected);
    // The label is NOT the row any more: an agent row renders its title
    // chip, repo and summary from the store (lock §2), so the dormant
    // marker is what identifies the state here.
    assert!(matches!(
        d.1.content,
        RowContent::Agent {
            status: RowStatus::Dormant,
            ..
        }
    ));
}

#[test]
fn rows_render_as_two_blocks_live_above_dormant() {
    // #112, replacing `dormant_rows_sort_into_the_unified_recency_order`:
    // the ONE merged list is gone. Live rows form a contiguous block at
    // the top, dormant rows their own block below, and each block sorts by
    // the commitment ordinal descending.
    //
    // The ordinals below are chosen so a merged list and a segregated one
    // give DIFFERENT answers: `u-new` at 900 outranks the live tab at 500
    // and would have led a merged list. It renders below it now. That is
    // the whole change, and this is the assertion that fails if the two
    // blocks are ever merged back.
    //
    // `last_interacted` is set to the OPPOSITE ranking on purpose: if the
    // comparator ever fell back to the wall clock, the within-block order
    // would invert and this test would fail loudly rather than keep
    // passing for the wrong reason.
    let mut m = BarModel::default();
    m.apply_tabs(vec![tab(1, 0, "live", true)]);
    let mut old = agent("u-old", Status::Idle, None);
    old.commit_ord = 100;
    old.last_interacted = 900;
    let mut new = agent("u-new", Status::Idle, None);
    new.commit_ord = 900;
    new.last_interacted = 100;
    m.apply_snapshot(AgentSnapshot {
        order: OrderMode::default(),
        today: 0,
        tab_frecency: Default::default(),
        tab_touched: Default::default(),
        collapsed: false,
        seq: 1,
        agents: vec![old, new],
        tab_order: Vec::from([(1usize, 500u64)]),
    });
    assert_eq!(
        keys(&m),
        vec![
            RowKey::Tab(1),                  // the live block: 500
            RowKey::Dormant("u-new".into()), // then dormant, 900 …
            RowKey::Dormant("u-old".into()), // … desc … 100
        ],
        "live block first, each block ordinal-descending within itself"
    );
}

/// The order of the rows that SURVIVE a close, with the closed row removed.
/// Relative order is the invariant S1 defends (R2, as amended by #116) —
/// never a literal index, because #112's live/dormant segregation moves
/// indices by design and must not break these tests.
fn surviving_order(m: &BarModel, closed: &RowKey) -> Vec<RowKey> {
    keys(m).into_iter().filter(|k| k != closed).collect()
}

#[test]
fn a_rows_rank_does_not_change_when_it_goes_dormant() {
    // Codex review, PR #135. `clave add` creates the tab (step 6) BEFORE it
    // writes the row (step 7), so the new tab's birth touch can mint its
    // ordinal FIRST and the row's own ordinal comes out higher. If a live
    // row keyed only on its tab while a dormant row keyed on its own
    // ordinal, closing the tab would swap which of the two numbers ranks
    // the row — and any commitment that landed in between would be
    // overtaken on close. That is exactly the "unrelated tab jumped"
    // symptom R2 forbids, reintroduced through a different door.
    //
    // The fix is one key for both classes: a row ranks by the HIGHER of its
    // own ordinal and its tab's, live or dormant. Going dormant then cannot
    // change the number.
    let mut m = BarModel::default();
    m.apply_tabs(vec![tab(10, 0, "ours", true), tab(11, 1, "other", false)]);
    let mut ours = agent("u-ours", Status::Idle, Some(10));
    ours.commit_ord = 3; // add's write, minted LAST
    let mut other = agent("u-other", Status::Idle, Some(11));
    other.commit_ord = 2; // a prompt that landed in between
    m.apply_snapshot(snap_full(
        1,
        vec![ours, other],
        &[(10, 1), (11, 2)], // 1 = our birth touch, minted FIRST
    ));
    let before = keys(&m);
    assert_eq!(
        before,
        vec![RowKey::Tab(10), RowKey::Tab(11)],
        "our row ranks by its own ordinal 3, above the intervening prompt at 2"
    );
    // The RANK is what this test is about, so assert the number itself
    // rather than a position that stands in for it. Under #112 the
    // position moves by design and the number must not.
    let rank_when_live = m.live_ord(&tab(10, 0, "ours", true));
    assert_eq!(rank_when_live, 3, "max(own 3, tab's 1)");

    // Close ours. The prune carries max(3, 1) = 3 — unchanged.
    m.apply_tabs(vec![tab(11, 0, "other", true)]);
    let mut dormant = agent("u-ours", Status::Idle, None);
    dormant.commit_ord = 3;
    let mut other = agent("u-other", Status::Idle, Some(11));
    other.commit_ord = 2;
    m.apply_snapshot(snap_full(2, vec![dormant, other], &[(11, 2)]));
    let ours = m.agents().iter().find(|a| a.uuid == "u-ours").unwrap();
    assert_eq!(
        m.dormant_ord(ours),
        rank_when_live,
        "going dormant must not change which number ranks the row"
    );
    // And the row is now in the dormant block, below the live one — the
    // #112 segregation, which is a change of BLOCK and not of rank.
    assert_eq!(
        keys(&m),
        vec![RowKey::Tab(11), RowKey::Dormant("u-ours".into())],
    );
}

#[test]
fn close_does_not_reorder_neighbours() {
    // The S1 §1.2 regression test, end to end through the model.
    //
    // The reported symptom: close one tab and an UNRELATED tab jumps to the
    // top. Cause: the closed row lost its ordering key and fell back to a
    // different one in a different tiebreak class, so everything re-sorted
    // around it. With the carry, the survivors hold their relative order and
    // the closed row keeps its rank among them.
    let mut m = BarModel::default();
    m.apply_tabs(vec![
        tab(10, 0, "a", true),
        tab(11, 1, "b", false),
        tab(12, 2, "c", false),
    ]);
    let mut a = agent("u-A", Status::Idle, Some(10));
    a.commit_ord = 30;
    m.apply_snapshot(snap_full(1, vec![a], &[(10, 30), (11, 20), (12, 10)]));
    let before = surviving_order(&m, &RowKey::Tab(10));
    assert_eq!(before, vec![RowKey::Tab(11), RowKey::Tab(12)]);

    // Tab 10 closes. The store prunes: its agent inherits ordinal 30 and
    // the tab entry goes.
    m.apply_tabs(vec![tab(11, 0, "b", true), tab(12, 1, "c", false)]);
    let mut dormant = agent("u-A", Status::Idle, None);
    dormant.commit_ord = 30;
    m.apply_snapshot(snap_full(2, vec![dormant], &[(11, 20), (12, 10)]));

    let closed = RowKey::Dormant("u-A".into());
    assert_eq!(
        surviving_order(&m, &closed),
        before,
        "survivors must keep their relative order"
    );
    // The closed row still ranks 30, exactly as its tab did — but #112
    // renders it in the dormant block, so it leads THAT block rather than
    // the whole list. R2 as amended: a close reorders nothing relative to
    // anything else; it moves the closed row out of the live block, which
    // is user-caused and visible.
    let a = m.agents().iter().find(|a| a.uuid == "u-A").unwrap();
    assert_eq!(m.dormant_ord(a), 30, "the rank survives the close");
    assert_eq!(
        keys(&m),
        vec![RowKey::Tab(11), RowKey::Tab(12), closed],
        "the survivors keep the live block; the closed row heads the \
         dormant one below it"
    );
}

#[test]
fn close_holds_position_before_the_prune_lands() {
    // The render-side half of the carry. `clave prune-tabs` is
    // fire-and-forget, so between the tab vanishing from TabUpdate and the
    // prune's snapshot echo arriving, the bar still holds BOTH halves from
    // the same seq-gated snapshot. The row must therefore hold its rank on
    // the FIRST repaint — the fix cannot wait on a subprocess.
    let mut m = BarModel::default();
    m.apply_tabs(vec![tab(10, 0, "a", true), tab(11, 1, "b", false)]);
    let mut a = agent("u-A", Status::Idle, Some(10));
    a.commit_ord = 0; // never prompted — everything rides on the tab
    m.apply_snapshot(snap_full(1, vec![a], &[(10, 30), (11, 20)]));
    assert_eq!(keys(&m)[0], RowKey::Tab(10));

    // Tab gone from the tab list; NO new snapshot — the store still says
    // the agent is bound to 10 and that 10 has ordinal 30.
    m.apply_tabs(vec![tab(11, 0, "b", true)]);
    let a = m.agents().iter().find(|a| a.uuid == "u-A").unwrap();
    assert_eq!(
        m.dormant_ord(a),
        30,
        "the row must hold its rank before the prune echo lands — the \
         carry reads the tab's ordinal, not the row's own 0"
    );
    // #112: holding the RANK no longer means holding the POSITION. The
    // row moves to the dormant block on the same repaint, and its rank is
    // what orders it there.
    assert_eq!(
        keys(&m),
        vec![RowKey::Tab(11), RowKey::Dormant("u-A".into())],
    );
}

#[test]
fn touch_only_tab_holds_its_place_on_close() {
    // The §1.2 aggravator, and the case that used to look worst on screen.
    // A tab born but never prompted has no ordinal of its own, so on close
    // it used to fall to the very bottom — beneath every dormant row ever
    // prompted. The carry gives it its tab's ordinal instead.
    let mut m = BarModel::default();
    m.apply_tabs(vec![tab(10, 0, "fresh", true)]);
    let mut fresh = agent("u-fresh", Status::Idle, Some(10));
    fresh.commit_ord = 0;
    let mut older = agent("u-older", Status::Idle, None);
    older.commit_ord = 5; // prompted long ago, still ranks below the tab
    m.apply_snapshot(snap_full(1, vec![fresh, older], &[(10, 30)]));
    assert_eq!(keys(&m)[0], RowKey::Tab(10));

    // Close it, and the prune carries 30 onto the row.
    m.apply_tabs(vec![]);
    let mut carried = agent("u-fresh", Status::Idle, None);
    carried.commit_ord = 30;
    let mut older = agent("u-older", Status::Idle, None);
    older.commit_ord = 5;
    m.apply_snapshot(snap_full(2, vec![carried, older], &[]));
    assert_eq!(
        keys(&m),
        vec![
            RowKey::Dormant("u-fresh".into()),
            RowKey::Dormant("u-older".into())
        ],
        "a never-prompted tab must not plunge on close"
    );
}

#[test]
fn dormant_row_never_reads_a_recycled_tabs_ordinal() {
    // Zellij REUSES tab ids (get_new_tab_id = max-key+1). The render-side
    // carry reads `tab_order[agent.tab_id]`, so a stale bind pointing at a
    // recycled id could in principle read the NEW tenant's rank. It cannot:
    // `is_dormant` returns false while any live tab holds that id, so such a
    // row is not dormant at all and never reaches the dormant key.
    let mut m = BarModel::default();
    m.apply_tabs(vec![tab(10, 0, "reborn", true)]);
    // u-old still claims tab 10, which now belongs to a fresh tenant.
    let mut old = agent("u-old", Status::Idle, Some(10));
    old.commit_ord = 1;
    m.apply_snapshot(snap_full(1, vec![old], &[(10, 99)]));
    // It renders as the live tab's row, not as a dormant row borrowing 99.
    assert_eq!(keys(&m), vec![RowKey::Tab(10)]);
    assert!(
        !keys(&m).contains(&RowKey::Dormant("u-old".into())),
        "a row whose tab id is live is never dormant"
    );
}

#[test]
fn agent_with_live_tab_or_registered_pane_is_not_dormant() {
    // The same uuid must never render twice: a bound live tab, OR a
    // registered pane still present in the manifest (pre-bind beat, e.g.
    // right after Alt+a's tab appears), suppresses the dormant row.
    let mut m = BarModel::default();
    m.apply_tabs(vec![tab(7, 0, "agent-tab", true)]);
    m.apply_snapshot(AgentSnapshot {
        order: OrderMode::default(),
        today: 0,
        tab_frecency: Default::default(),
        tab_touched: Default::default(),
        collapsed: false,
        seq: 1,
        agents: vec![agent("u1", Status::Working, Some(7))], // bound → live
        tab_order: Default::default(),
    });
    assert!(!keys(&m).contains(&RowKey::Dormant("u1".into())));
    // Bind gone (fresh session) but the pane join exists → still not dormant.
    let mut m = BarModel::default();
    m.apply_tabs(vec![tab(7, 0, "agent-tab", true)]);
    m.register("u2".into(), 42);
    m.apply_panes(vec![pane(0, 42, false, true)]);
    m.apply_snapshot(AgentSnapshot {
        order: OrderMode::default(),
        today: 0,
        tab_frecency: Default::default(),
        tab_touched: Default::default(),
        collapsed: false,
        seq: 1,
        agents: vec![agent_at("u2", Status::Working, None, 42)],
        tab_order: Default::default(),
    });
    assert!(!keys(&m).contains(&RowKey::Dormant("u2".into())));
}

/// Two live tabs and three dormant rows, the dormant ones deliberately
/// out-ranking both tabs — the shape #112 exists for, in miniature. On the
/// real store it is 4 live and 17 dormant.
fn fleet_two_live_three_dormant() -> BarModel {
    let mut m = BarModel::default();
    m.apply_tabs(vec![tab(1, 0, "a", true), tab(2, 1, "b", false)]);
    let mut agents = Vec::new();
    for (j, ord) in [700u64, 800, 900].into_iter().enumerate() {
        let mut a = agent(&format!("u-d{j}"), Status::Idle, None);
        a.commit_ord = ord;
        agents.push(a);
    }
    m.apply_snapshot(AgentSnapshot {
        order: OrderMode::default(),
        today: 0,
        tab_frecency: Default::default(),
        tab_touched: Default::default(),
        collapsed: false,
        seq: 1,
        agents,
        tab_order: Vec::from([(1usize, 500u64), (2usize, 400u64)]),
    });
    m
}

#[test]
fn the_nav_ring_wraps_inside_the_live_block() {
    // #112, the headline: Alt+j/Alt+k cycle the LIVE block and wrap at its
    // end. Every dormant row here outranks both tabs, so a merged list
    // would have put three of them above the live pair and made them the
    // first thing a walk hit.
    let mut m = fleet_two_live_three_dormant();
    assert_eq!(
        keys(&m),
        vec![
            RowKey::Tab(1),
            RowKey::Tab(2),
            RowKey::Dormant("u-d2".into()), // 900
            RowKey::Dormant("u-d1".into()), // 800
            RowKey::Dormant("u-d0".into()), // 700
        ]
    );
    m.beacon(1);
    // Forward off the end of the live block wraps to its head, NOT into
    // the dormant block below.
    assert!(
        m.nav("{\"dir\":\"next\"}", Some(1))
            .contains(&Effect::SwitchTab { position: 1 }),
        "tab 1 → tab 2"
    );
    m.beacon(2);
    assert!(
        m.nav("{\"dir\":\"next\"}", Some(2))
            .contains(&Effect::SwitchTab { position: 0 }),
        "tab 2 wraps to tab 1, not down into the dormant block"
    );
    // And backward off the head wraps to the live block's TAIL — the
    // nearest dormant row is directly below it on screen, which is the
    // step this must not take.
    m.beacon(1);
    assert!(
        m.nav("{\"dir\":\"prev\"}", Some(1))
            .contains(&Effect::SwitchTab { position: 1 }),
        "tab 1 wraps back to tab 2"
    );
    assert!(m.cursor().is_none(), "no walk may leave a dormant selection");
}

#[test]
fn clicking_into_the_dormant_block_hands_it_the_walk() {
    // The interaction Ollie specified, 2026-08-07: clicking a dormant row
    // FOCUSES that list, and Alt+j/Alt+k then walk it; clicking back to
    // the live list focuses the live list again. The walk itself never
    // moves between the blocks — only a pick does.
    let mut m = one_line_bar(fleet_two_live_three_dormant());
    m.beacon(1);
    // Click the middle dormant row (line 3 = u-d1 at 800).
    m.click(3, TALL_PANE);
    assert_eq!(m.cursor().as_deref(), Some("u-d1"));
    // Alt+j now walks the DORMANT block, and switches no tab.
    let fx = m.nav("{\"dir\":\"next\"}", Some(1));
    assert!(fx.is_empty(), "walking the dormant block switches nothing");
    assert_eq!(m.cursor().as_deref(), Some("u-d0"), "down to the last row");
    // …and wraps at that block's end rather than escaping into the live
    // block above it.
    m.nav("{\"dir\":\"next\"}", Some(1));
    assert_eq!(
        m.cursor().as_deref(),
        Some("u-d2"),
        "wraps to the head of the dormant block, not into the live one"
    );
    m.nav("{\"dir\":\"prev\"}", Some(1));
    assert_eq!(m.cursor().as_deref(), Some("u-d0"), "and back the other way");
    // Clicking a live row hands the walk back to the live block.
    m.click(0, TALL_PANE);
    assert!(m.cursor().is_none(), "the live pick released the selection");
    assert!(
        m.nav("{\"dir\":\"next\"}", Some(1))
            .contains(&Effect::SwitchTab { position: 1 }),
        "the live block has the walk again"
    );
}

#[test]
fn a_selection_gone_live_returns_the_walk_to_the_live_block() {
    // The self-heal: the walk's block is decided by where the cursor is
    // DISPLAYED, so a selected row that gets opened (or disappears) hands
    // the walk back on its own. Without this the ring would be stranded on
    // a row that is no longer in the dormant block.
    let mut m = live_plus_dormant();
    m.beacon(1);
    select_dormant(&mut m);
    assert_eq!(m.cursor().as_deref(), Some("u-d"));
    // u-d comes up as a tab of its own; the cursor still names it.
    m.apply_tabs(vec![tab(1, 0, "live", false), tab(2, 1, "u-d", true)]);
    m.apply_snapshot(AgentSnapshot {
        order: OrderMode::default(),
        today: 0,
        tab_frecency: Default::default(),
        tab_touched: Default::default(),
        collapsed: false,
        seq: 2,
        agents: vec![agent("u-d", Status::Working, Some(2))],
        tab_order: Vec::from([(1usize, 500u64), (2usize, 600u64)]),
    });
    m.beacon(2);
    assert!(
        m.nav("{\"dir\":\"next\"}", Some(2))
            .contains(&Effect::SwitchTab { position: 0 }),
        "the walk is back on the live block"
    );
}

#[test]
fn a_single_live_row_wraps_onto_itself() {
    // The one-live case. The ring has length 1, so both directions land
    // back on the same tab — dormant rows below stay unreachable by walk.
    let mut m = live_plus_dormant();
    m.beacon(1);
    for dir in ["next", "prev"] {
        let fx = m.nav(&format!("{{\"dir\":\"{dir}\"}}"), Some(1));
        assert!(
            fx.contains(&Effect::SwitchTab { position: 0 }),
            "{dir} must land back on the only live tab"
        );
        assert!(m.cursor().is_none(), "{dir} reached the dormant block");
    }
}

#[test]
fn with_no_live_rows_the_walk_falls_back_to_the_dormant_block() {
    // The zero-live edge case, decided rather than left to fall out: the
    // ring becomes the whole list so the keyboard is never dead. It is
    // unreachable in a real session — every zellij tab carries a bar, so
    // the tab list is never empty — but the model is pure and must answer.
    // Safe by construction: a dormant landing only ever selects (#100), so
    // this cannot spawn anything.
    let mut m = BarModel::default();
    m.apply_tabs(vec![]);
    let mut agents = Vec::new();
    for (j, ord) in [10u64, 20].into_iter().enumerate() {
        let mut a = agent(&format!("u-d{j}"), Status::Idle, None);
        a.commit_ord = ord;
        agents.push(a);
    }
    m.apply_snapshot(AgentSnapshot {
        order: OrderMode::default(),
        today: 0,
        tab_frecency: Default::default(),
        tab_touched: Default::default(),
        collapsed: false,
        seq: 1,
        agents,
        tab_order: Default::default(),
    });
    assert_eq!(
        keys(&m),
        vec![
            RowKey::Dormant("u-d1".into()), // 20
            RowKey::Dormant("u-d0".into()), // 10
        ]
    );
    // No cursor yet → the walk starts at row 0 and steps to row 1.
    assert!(m.nav("{\"dir\":\"next\"}", Some(1)).is_empty());
    assert_eq!(m.cursor().as_deref(), Some("u-d0"));
    // And it wraps within the dormant block rather than running off it.
    assert!(m.nav("{\"dir\":\"next\"}", Some(1)).is_empty());
    assert_eq!(m.cursor().as_deref(), Some("u-d1"));
}

#[test]
fn alt_n_still_reaches_the_dormant_block() {
    // The other half of the ring decision: taking dormant rows out of the
    // walk is only tolerable because the numbers still reach them. Alt+N
    // indexes the RENDERED list, so putting the live block on top is what
    // keeps the low numbers pointed at the live fleet — Alt+1-2 here, with
    // the dormant block starting at Alt+3.
    let mut m = one_line_bar(fleet_two_live_three_dormant());
    m.beacon(1);
    assert!(
        m.nav("{\"row\":2}", Some(1))
            .contains(&Effect::SwitchTab { position: 1 }),
        "Alt+2 is the second LIVE row"
    );
    m.beacon(2);
    assert!(
        m.nav("{\"row\":3}", Some(2)).is_empty(),
        "Alt+3 is the head of the dormant block, and selecting is silent"
    );
    assert_eq!(m.cursor().as_deref(), Some("u-d2"));
    assert!(m.nav("{\"row\":5}", Some(2)).is_empty());
    assert_eq!(m.cursor().as_deref(), Some("u-d0"), "Alt+5 reaches the last");
    // A click reaches the same row — the mouse is the route past Alt+9.
    m.click(3, TALL_PANE);
    assert_eq!(m.cursor().as_deref(), Some("u-d1"));
}

#[test]
fn nav_onto_dormant_row_selects_without_opening() {
    // #100 dwell-commit: landing on a dormant row moves the virtual cursor
    // and STOPS — no timer, no open, no tab switch. #112 changed only HOW
    // you land there: the dir walk is confined to the live block now, so
    // Alt+N is the keyboard route (the mouse is the other).
    let mut m = one_line_bar(live_plus_dormant());
    m.beacon(1);
    let fx = m.nav("{\"row\":2}", Some(1)); // Alt+2 → the dormant row
    assert!(fx.is_empty(), "a dormant landing is pure selection: {fx:?}");
    assert!(
        selected(&m)[DORMANT_LINE],
        "the dormant row holds the selection"
    );
    // The walk now belongs to the dormant block, so a dir step stays in
    // it — with one dormant row that means landing back on itself, and
    // still no tab switch.
    let fx = m.nav("{\"dir\":\"next\"}", Some(1));
    assert!(fx.is_empty(), "still pure selection: {fx:?}");
    assert!(
        selected(&m)[DORMANT_LINE],
        "the walk stays in the dormant block until a live row is picked"
    );
    // Picking a live row is what hands the walk back.
    m.click(0, TALL_PANE);
    assert!(m.cursor().is_none());
    assert!(
        m.nav("{\"dir\":\"next\"}", Some(1))
            .contains(&Effect::SwitchTab { position: 0 }),
        "the live block has the walk again"
    );
}

#[test]
fn commit_opens_the_selected_dormant_row_exactly_once() {
    // #100: Alt+Enter spends the selection — one open, marked ↻; a
    // repeat commit while in flight must not double-fire.
    let mut m = live_plus_dormant();
    m.beacon(1);
    select_dormant(&mut m);
    assert_eq!(
        m.nav("{\"commit\":true}", Some(1)),
        vec![Effect::OpenAgent { uuid: "u-d".into() }]
    );
    assert!(
        m.nav("{\"commit\":true}", Some(1)).is_empty(),
        "in-flight open must not double-fire"
    );
}

/// The in-flight mark is double-fire guard #1 (`clave open`'s own liveness
/// no-op is #2), and it is only a guard for as long as it survives the
/// store traffic that arrives while the open is still running. It clears on
/// exactly two things — the row stopped being dormant (the tab appeared) or
/// the snapshot flagged it stale (the open failed, so it must be
/// retryable) — and on nothing else.
///
/// If an unrelated push cleared it, a user who pressed Alt+Enter watches
/// the ↻ vanish, presses again, and gets a SECOND `clave open` for a
/// session already launching: the double-attach this guard exists to stop.
///
/// (cargo mutants 2026-08-15 found two ways to that: dropping the `!` so
/// a still-dormant row clears the mark, and flipping the row lookup so the
/// verdict is read off whichever OTHER agent happens to come first — which
/// is why a second, live agent is in the snapshot below.)
#[test]
fn an_in_flight_open_holds_its_mark_through_unrelated_snapshots() {
    let mut m = live_plus_dormant();
    m.beacon(1);
    select_dormant(&mut m);
    assert_eq!(
        m.nav("{\"commit\":true}", Some(1)),
        vec![Effect::OpenAgent { uuid: "u-d".into() }]
    );
    // A push lands while the open is still in flight: an unrelated agent
    // binds into the live tab. `u-d` is still dormant and still not stale.
    let mut d = agent("u-d", Status::Idle, None);
    d.commit_ord = 999;
    m.apply_snapshot(snap(2, vec![d, agent("u-other", Status::Idle, Some(1))]));
    assert_eq!(
        status_at(&m, DORMANT_LINE),
        Some(RowStatus::Opening),
        "the row is still launching, so it still says so"
    );
    assert!(
        m.nav("{\"commit\":true}", Some(1)).is_empty(),
        "and the guard still refuses the second press"
    );
    // The tab appears: the open resolved, so the mark retires and the row
    // leaves the dormant block entirely.
    m.apply_tabs(vec![tab(1, 0, "live", true), tab(2, 1, "woken", false)]);
    m.apply_snapshot(snap(
        3,
        vec![
            agent("u-d", Status::Idle, Some(2)),
            agent("u-other", Status::Idle, Some(1)),
        ],
    ));
    assert!(
        keys(&m).iter().all(|k| *k != RowKey::Dormant("u-d".into())),
        "the woken row is live now"
    );
    assert_ne!(status_at(&m, 1), Some(RowStatus::Opening));
}

#[test]
fn commit_without_a_dormant_selection_is_a_noop() {
    // The bind is global; the model decides. No cursor → nothing to
    // wake. Non-executor instances (no fresh tab set) also no-op — their
    // cursor is never set, and the check returns before any open.
    let mut m = live_plus_dormant();
    m.beacon(1);
    assert!(
        m.nav("{\"commit\":true}", Some(1)).is_empty(),
        "no selection"
    );
    select_dormant(&mut m);
    assert!(
        selected(&m)[DORMANT_LINE],
        "a selection must exist, or the next assertion cannot fail"
    );
    assert!(
        m.nav("{\"commit\":true}", None).is_empty(),
        "non-executor never commits"
    );
}

#[test]
fn explicit_picks_select_without_opening() {
    // #100 reverses the original proposal: click and Alt+N on a dormant
    // row SELECT it. The mouse is the main path to dormant rows past
    // Alt+9, so a click that launched would just move the accidental
    // spawn from the keyboard channel into the mouse channel. Both are
    // now the ONLY routes to a dormant row (#112 took the walk away), so
    // this pair covers the whole reachable surface.
    let mut m = one_line_bar(live_plus_dormant());
    assert!(
        m.click(DORMANT_LINE, TALL_PANE).is_empty(),
        "click selects, never opens"
    );
    assert!(
        selected(&m)[DORMANT_LINE],
        "clicked dormant row holds the selection"
    );
    // Alt+N (row payload) on a dormant row — new model, fresh state:
    let mut m = one_line_bar(live_plus_dormant());
    m.beacon(1);
    assert!(select_dormant(&mut m).is_empty(), "Alt+N selects too");
    assert!(selected(&m)[DORMANT_LINE]);
    // A commit after either pick launches — selection and launch are two
    // separate acts on every input path.
    assert_eq!(
        m.nav("{\"commit\":true}", Some(1)),
        vec![Effect::OpenAgent { uuid: "u-d".into() }]
    );
}

/// The overflow incident's SECOND symptom (#148): with the list scrolled,
/// clicks landed one or two rows above the row under the pointer, because
/// the hit test counted from model row 0 while the screen showed a window
/// starting further down. Draw and hit test now read the same offset, so
/// this fixes the visible bug and the invisible one together.
#[test]
fn a_click_lands_on_the_row_under_the_pointer_while_scrolled() {
    // 12 rows (one live, eleven dormant) in a five-line pane. Selecting the
    // last row slides the window to model rows 7..=11.
    let mut m = one_line_bar(overflowing_fleet(11));
    assert_eq!(keys(&m).len(), 12);
    m.nav("{\"row\":12}", Some(1));
    assert!(selected(&m)[11], "the fixture must be scrolled to the end");

    // Line 0 of that pane is model row 7 — the pre-viewport click map read
    // it as row 0, the live tab, seven rows off.
    m.click(0, 5);
    let mut expected = vec![false; 12];
    expected[7] = true;
    assert_eq!(
        selected(&m),
        expected,
        "the top visible line is model row 7"
    );

    // And the bottom line of that same pane is the last row of the list.
    // A fresh model, because the click above MOVED the selection and the
    // view follows the selection — see the next test.
    let mut m = one_line_bar(overflowing_fleet(11));
    m.nav("{\"row\":12}", Some(1));
    m.click(4, 5);
    let mut expected = vec![false; 12];
    expected[11] = true;
    assert_eq!(selected(&m), expected, "the last visible line is row 11");
}

/// A click is a landing like any other, so the view follows it: picking the
/// top visible row gives that row its two rows of lookahead back, which
/// slides the window up under the pointer. Pinned because it is the visible
/// consequence of a viewport derived from the selection alone (#148) — the
/// clicked row stays on screen, which is the invariant that matters.
#[test]
fn the_view_follows_a_click_the_way_it_follows_a_walk() {
    let mut m = one_line_bar(overflowing_fleet(11));
    m.nav("{\"row\":12}", Some(1)); // window 7..=11
    m.click(0, 5); // model row 7
    // The window is now 5..=9, so the row just clicked sits on line 2 —
    // a second click on line 2 is the same row, not a new one.
    m.click(2, 5);
    let mut expected = vec![false; 12];
    expected[7] = true;
    assert_eq!(
        selected(&m),
        expected,
        "the clicked row moved under the pointer"
    );
}

/// A pane with room for the whole fleet keeps the identity mapping: line N
/// is row N. The offset is a consequence of overflow, never a constant.
#[test]
fn a_click_on_an_unscrolled_bar_still_lands_on_its_own_line() {
    let mut m = one_line_bar(overflowing_fleet(11));
    m.click(9, TALL_PANE);
    let mut expected = vec![false; 12];
    expected[9] = true;
    assert_eq!(selected(&m), expected);
}

/// #232's click map. A card owns TWO screen lines, so both of them are the
/// same target — the pointer landing on a card's second line must not
/// select the card below it, which is the #148 failure shape one geometry
/// short. Both terms convert here (`line` AND `pane_height`), so a fleet
/// too tall for the pane scrolls in cards and the hit test counts in the
/// same cards.
#[test]
fn a_click_on_either_line_of_a_card_selects_that_card() {
    // The shipping default: `BarModel::default()` is already `Double`.
    // 12 rows (one live tab, eleven dormant) in an EIGHT-line pane — four
    // cards, model rows 0..=3, because the selection rests at the top.
    let live = vec![
        Effect::SwitchTab { position: 0 },
        Effect::AnnounceVisit { tab_id: 1 },
    ];
    for line in [0, 1] {
        let mut m = overflowing_fleet(11);
        assert_eq!(m.click(line, 8), live, "line {line} is the first card");
    }
    // The fourth card spans lines 6 and 7 — dormant row `u-02`, which a
    // click SELECTS rather than opens (#100).
    for line in [6, 7] {
        let mut m = overflowing_fleet(11);
        assert!(m.click(line, 8).is_empty(), "a dormant click opens nothing");
        let mut expected = vec![false; 12];
        expected[3] = true;
        assert_eq!(selected(&m), expected, "line {line} is the fourth card");
    }
    // Scrolled, in cards: selecting the last row slides the card window to
    // model rows 9..=11 in a six-line (three-card) pane, and line 0 of
    // that pane is model row 9 — the whole #148 lesson, one geometry over.
    let mut m = overflowing_fleet(11);
    m.nav("{\"row\":12}", Some(1));
    assert!(selected(&m)[11], "the fixture must be scrolled to the end");
    m.click(1, 6);
    let mut expected = vec![false; 12];
    expected[9] = true;
    assert_eq!(
        selected(&m),
        expected,
        "the top visible card is model row 9"
    );
    // The legacy arm is untouched: one line, one row, same fixture.
    let mut m = one_line_bar(overflowing_fleet(11));
    assert!(m.click(3, 8).is_empty());
    let mut expected = vec![false; 12];
    expected[3] = true;
    assert_eq!(selected(&m), expected, "Single still maps line 3 to row 3");
}

#[test]
fn click_on_a_live_tab_releases_the_dormant_selection() {
    // Selection follows every input path: picking a live row (mouse or
    // nav) resolves the highlight back to focus truth.
    let mut m = one_line_bar(live_plus_dormant());
    m.click(DORMANT_LINE, TALL_PANE); // select the dormant row
    assert_eq!(
        selected(&m),
        vec![false, true],
        "the dormant selection steals the highlight from the live tab"
    );
    m.click(0, TALL_PANE); // pick the live tab
    assert_eq!(
        selected(&m),
        vec![true, false],
        "live pick releases the dormant selection"
    );
    // The abandoned selection must not be committable.
    m.beacon(1);
    assert!(m.nav("{\"commit\":true}", Some(1)).is_empty());
}

#[test]
fn dormant_landing_peeks_a_collapsed_bar() {
    // §6.6: landing on a dormant row must keep a collapsed bar peeked,
    // same as live-row nav (whose peek rides the visited pipe — dormant
    // landings have no pipe, so the model returns ArmPeek explicitly).
    // The landing is an Alt+N pick now that #112 keeps the walk live-only.
    let mut m = BarModel::default();
    m.toggle(); // collapsed
    m.apply_tabs(vec![tab(1, 0, "live", true)]);
    let mut a = agent("u-d", Status::Idle, None);
    a.commit_ord = 999;
    m.apply_snapshot(AgentSnapshot {
        order: OrderMode::default(),
        today: 0,
        tab_frecency: Default::default(),
        tab_touched: Default::default(),
        // Issue #5: snapshots now carry the store's collapse mode; after
        // the toggle above, the real flow's store says collapsed too —
        // `false` here would (correctly!) heal the bar back to expanded.
        collapsed: true,
        seq: 1,
        agents: vec![a],
        tab_order: Vec::from([(1usize, 500u64)]),
    });
    m.beacon(1);
    let fx = select_dormant(&mut m);
    // The peek is the landing's ONLY effect — the dwell died with #100.
    assert_eq!(fx, vec![Effect::ArmPeek]);
}

#[test]
fn opening_and_stale_glyphs_decorate_dormant_rows() {
    // ↻ while an open is in flight (set by open_effects, Task 9 — poke the
    // set directly here); ✗ when the snapshot says stale. A stale=true
    // snapshot also clears the in-flight mark (the open FAILED — the row
    // must become retryable, not stuck ↻).
    let mut m = BarModel::default();
    let mut a = agent("u1", Status::Idle, None);
    a.stale = true;
    m.set_opening(vec!["u1".into()]);
    m.apply_snapshot(AgentSnapshot {
        order: OrderMode::default(),
        today: 0,
        tab_frecency: Default::default(),
        tab_touched: Default::default(),
        collapsed: false,
        seq: 1,
        agents: vec![a],
        tab_order: Default::default(),
    });
    assert_eq!(status_at(&m, 0), Some(RowStatus::Stale));
    assert!(m.opening().is_empty(), "stale snapshot clears in-flight");
    // In-flight (no stale): ↻.
    let mut m = BarModel::default();
    m.apply_snapshot(AgentSnapshot {
        order: OrderMode::default(),
        today: 0,
        tab_frecency: Default::default(),
        tab_touched: Default::default(),
        collapsed: false,
        seq: 1,
        agents: vec![agent("u2", Status::Idle, None)],
        tab_order: Default::default(),
    });
    m.set_opening(vec!["u2".into()]);
    assert_eq!(status_at(&m, 0), Some(RowStatus::Opening));
}

#[test]
fn virtual_cursor_highlight_follows_the_dormant_walk() {
    // §6.6 C8: landing on a dormant row moves the SELECTION there — that
    // row reads active and the previously-focused live tab drops its
    // highlight (else the stale live highlight lingers and misleads).
    let mut m = live_plus_dormant();
    m.beacon(1);
    // (a) pick the dormant row → it is active, the live tab is not.
    select_dormant(&mut m);
    assert_eq!(keys(&m)[DORMANT_LINE], RowKey::Dormant("u-d".into()));
    assert_eq!(
        selected(&m),
        vec![false, true],
        "dormant selection holds it"
    );
    // (b) picking a live row clears the cursor → the tab highlights again.
    // It must be a PICK: a dir walk would stay in the dormant block now.
    m.nav("{\"row\":1}", Some(1));
    assert_eq!(
        selected(&m),
        vec![true, false],
        "focused tab reclaims the highlight"
    );
}

#[test]
fn stale_cursor_on_a_row_gone_live_self_heals_to_the_tab() {
    // Review minor #7: a dwell-opened row goes LIVE while the cursor still
    // names its uuid. The dormant-key lookup misses, so the highlight
    // falls back to the focused tab — no explicit cursor clear needed.
    let mut m = live_plus_dormant();
    m.beacon(1);
    select_dormant(&mut m); // cursor now on the dormant row
    assert!(selected(&m)[DORMANT_LINE]); // dormant selected
    // The row goes LIVE: u-d binds to a new tab (2). Cursor still names
    // "u-d" but it no longer renders dormant.
    m.apply_tabs(vec![tab(1, 0, "live", false), tab(2, 1, "u-d", true)]);
    m.apply_snapshot(AgentSnapshot {
        order: OrderMode::default(),
        today: 0,
        tab_frecency: Default::default(),
        tab_touched: Default::default(),
        collapsed: false,
        seq: 2,
        agents: vec![agent("u-d", Status::Working, Some(2))],
        tab_order: Vec::from([(1usize, 500u64), (2usize, 600u64)]),
    });
    let rows = m.rows();
    assert!(!keys(&m).contains(&RowKey::Dormant("u-d".into())));
    let active: Vec<_> = rows
        .iter()
        .filter(|(_, r)| r.selected)
        .map(|(k, _)| k.clone())
        .collect();
    assert_eq!(
        active,
        vec![RowKey::Tab(2)],
        "highlight self-heals to the focused tab"
    );
}

#[test]
fn native_switch_beacon_clears_a_pinned_dormant_cursor() {
    // Edge (Fix-1 heal): a committed open FAILS — the row stays dormant
    // with the cursor pinned to it. A NATIVE tab switch (Alt+o / zellij
    // binds) carries no clave-nav, only a visited-pipe beacon. That
    // beacon must resolve the selection back to the focused tab, else the
    // ✗ row keeps the highlight and the real active tab stays suppressed.
    let mut m = BarModel::default();
    m.apply_tabs(vec![tab(1, 0, "live", false), tab(2, 1, "other", true)]);
    let mut a = agent("u-d", Status::Idle, None);
    // Outranks both tabs and still renders last — #112 puts it in the
    // dormant block, below the two live rows.
    a.commit_ord = 999;
    m.apply_snapshot(AgentSnapshot {
        order: OrderMode::default(),
        today: 0,
        tab_frecency: Default::default(),
        tab_touched: Default::default(),
        collapsed: false,
        seq: 1,
        agents: vec![a],
        tab_order: Vec::from([(1usize, 500u64), (2usize, 400u64)]),
    });
    m.beacon(1);
    let fx = m.nav("{\"row\":3}", Some(1)); // Alt+3 → the dormant row
    assert!(fx.is_empty(), "the landing is pure selection");
    assert!(selected(&m)[2], "dormant selected before the native switch");
    // Native switch to tab 2 arrives as a visited-pipe beacon (no nav).
    m.beacon(2);
    let rows = m.rows();
    assert!(!rows[2].1.selected, "dormant row releases the highlight");
    let active: Vec<_> = rows
        .iter()
        .filter(|(_, r)| r.selected)
        .map(|(k, _)| k.clone())
        .collect();
    assert_eq!(active, vec![RowKey::Tab(2)], "focused tab reclaims it");
    // The abandoned selection must not be committable.
    assert!(m.nav("{\"commit\":true}", Some(2)).is_empty());
}

#[test]
fn organic_switch_spends_the_selection_before_the_beacon_lands() {
    // Codex P2 (#128): Alt+o's native switch happens server-side at
    // once, but the departed instance keeps `current_tab == own` until
    // the new bar's visited beacon round-trips. An Alt+Enter broadcast
    // inside that gap reaches the departed bar with its stale executor
    // view — the organic pipe (same keybind, synchronous) must have
    // already spent the selection, or a hidden bar commits a row the
    // visible bar does not show as selected.
    let mut m = live_plus_dormant();
    m.beacon(1);
    select_dormant(&mut m);
    assert!(selected(&m)[DORMANT_LINE]);
    m.set_organic_pending(); // Alt+o pressed; beacon not yet returned
    assert!(
        m.nav("{\"commit\":true}", Some(1)).is_empty(),
        "the beacon-gap commit must find no selection"
    );
}

#[test]
fn gutter_tier_selected_dormant_shows_the_commit_mark() {
    // #100 §4: stale ✗ > opening ↻ > selected-dormant ⏎ > status. The
    // chain is self-truthful — committing turns ⏎ into ↻, and a stale
    // row never offers a launch that would fail.
    let mut m = live_plus_dormant();
    assert_eq!(status_at(&m, DORMANT_LINE), Some(RowStatus::Dormant));
    m.beacon(1);
    select_dormant(&mut m);
    assert_eq!(
        status_at(&m, DORMANT_LINE),
        Some(RowStatus::DormantSelected)
    );
    m.nav("{\"commit\":true}", Some(1)); // launch it
    assert_eq!(
        status_at(&m, DORMANT_LINE),
        Some(RowStatus::Opening),
        "↻ outranks the still-selected cursor"
    );
    // Stale outranks everything: the same selected row gone stale shows ✗
    // (the open failed — apply_snapshot clears `opening`, cursor holds).
    let mut a = agent("u-d", Status::Idle, None);
    a.commit_ord = 999;
    a.stale = true;
    m.apply_snapshot(AgentSnapshot {
        order: OrderMode::default(),
        today: 0,
        tab_frecency: Default::default(),
        tab_touched: Default::default(),
        collapsed: false,
        seq: 2,
        agents: vec![a],
        tab_order: Vec::from([(1usize, 500u64)]),
    });
    assert_eq!(status_at(&m, DORMANT_LINE), Some(RowStatus::Stale));
    // And ✗ means it: the selected-but-stale row REFUSES the commit
    // (ratified live 2026-08-01) — the gutter never offers a launch it
    // won't perform.
    assert!(
        m.nav("{\"commit\":true}", Some(1)).is_empty(),
        "a stale row must refuse the commit"
    );
}

/// D37: a bar that has not yet heard from the store does not know which
/// mode it is in, so it must not switch anything. The pane is BORN at the
/// width its persisted mode wants, so a switch on the assumed-expanded
/// default can only move it away from correct — and then visibly back when
/// `clave snapshot` returns.
#[test]
fn a_bar_awaiting_hydration_never_switches_geometry() {
    let mut m = focused_bar();
    m.await_hydration();
    m.toggle(); // a keypress before hydration is still not a licence
    assert_eq!(m.width_effects(Some(exp_w())), Vec::<Effect>::new());
    assert_eq!(m.width_effects(Some(exp_w())), Vec::<Effect>::new());
    // The snapshot arrives and the mode is authoritative from here on.
    let mut snapshot = snap(1, vec![]);
    snapshot.collapsed = true;
    m.apply_snapshot(snapshot);
    // The pane is painted expanded and the store now says collapsed:
    // one switch, and arriving at the collapsed width ends it.
    assert_eq!(m.width_effects(Some(exp_w())), vec![Effect::SwapWidth]);
    assert_eq!(m.width_effects(Some(col_w())), Vec::<Effect>::new());
    assert_eq!(m.width_cooldown_elapsed(), Vec::<Effect>::new());
    // A keypress AFTER hydration is a licence, and moves the pane.
    m.toggle();
    assert_eq!(m.width_effects(Some(col_w())), vec![Effect::SwapWidth]);
}

/// Finding K (#197 review): the cold-start flash. `clave launch` composes
/// the layout with the store's collapse flag, so a fleet left collapsed is
/// BORN at the collapsed width — and a bar that widened it on hydration and
/// snapped it back is what the field saw on every collapsed cold start.
///
/// That was fixed by seeding a belief, then by a naming switch. It is now
/// structural twice over: the launch layout carries the collapsed width as
/// a fixed column count, and the machine compares the painted width
/// against that same constant — equal from the first paint, so a collapsed
/// cold start owes zellij nothing at all.
#[test]
fn a_collapsed_cold_start_does_not_flash_wide() {
    let mut m = fleet_bar(11, 11);
    m.beacon(11);
    m.await_hydration();
    frame(&mut m, 11); // born at the collapsed width
    let mut snapshot = snap(1, vec![]);
    snapshot.collapsed = true;
    m.apply_snapshot(snapshot);
    assert_eq!(
        m.width_effects(Some(col_w())),
        Vec::<Effect>::new(),
        "a pane born collapsed must not be widened by hydration"
    );
    assert_eq!(
        m.width_effects(Some(col_w())),
        Vec::<Effect>::new(),
        "nor later"
    );
}

/// The other half: an EXPANDED cold start settles the same way, for the
/// same reason rather than because expanded happens to be the default the
/// field started at.
#[test]
fn an_expanded_cold_start_settles_the_same_way() {
    let mut m = fleet_bar(11, 11);
    m.beacon(11);
    m.await_hydration();
    frame(&mut m, 11);
    m.apply_snapshot(snap(1, vec![])); // collapsed: false
    assert_eq!(m.width_effects(Some(exp_w())), Vec::<Effect>::new());
    m.toggle();
    assert_eq!(m.width_effects(Some(exp_w())), vec![Effect::SwapWidth]);
}

// === #137: the collapse-mode repair storm ==============================
// The 2026-08-01 incident: ~12 tabs, repeated Alt+c, and the bar cycled a
// full-width reheal for about a minute. Reproduced under instrumentation on
// 2026-08-07 — 1,413 renders and 634 resizes in three seconds across twelve
// instances, from ten keypresses. The cause was never the width machine:
// the collapse MODE kept moving, because a store round-trip
// is slower than a keypress and every lagging snapshot contradicted newer
// local state. Each contradiction bought a re-assert write (another
// snapshot) and each flip bought a fresh 16-step budget.

/// A snapshot carrying `collapsed`, at `seq`. Nothing else moves, so any
/// behaviour these tests see is the collapse ledger's alone.
fn collapse_snap(seq: u64, collapsed: bool) -> AgentSnapshot {
    AgentSnapshot {
        order: OrderMode::default(),
        today: 0,
        tab_frecency: Default::default(),
        tab_touched: Default::default(),
        collapsed,
        seq,
        agents: vec![],
        tab_order: Default::default(),
    }
}

#[test]
fn a_toggle_burst_books_two_writes_per_press_not_one_per_snapshot() {
    let mut m = BarModel::default();
    m.apply_snapshot(collapse_snap(1, false));
    let mut writes = 0;
    let mut seq = 1u64;
    const PRESSES: usize = 10;
    for _ in 0..PRESSES {
        let before = m.collapsed;
        writes += m
            .toggle()
            .iter()
            .filter(|e| matches!(e, Effect::PersistCollapse { .. }))
            .count();
        // Contradicting snapshots: our write has not landed yet, and the
        // store keeps pushing. Three per press, so a per-snapshot budget
        // shows up as 4x rather than 2x.
        for _ in 0..3 {
            seq += 1;
            writes += m
                .apply_snapshot(collapse_snap(seq, before))
                .iter()
                .filter(|e| matches!(e, Effect::PersistCollapse { .. }))
                .count();
        }
    }
    assert!(
        writes <= 2 * PRESSES,
        "{PRESSES} presses booked {writes} store writes; the re-assert budget is per-snapshot again"
    );
}

/// Codex P2 on PR #152. A press must always be able to repair a store that
/// disagrees with it, however the previous burst ended. Bounding the
/// re-assert to one per BURST used the outstanding debt as the burst
/// boundary — and an unresolved debt never clears, so once one burst ended
/// with the store holding the wrong value, every later press was classified
/// as part of that dead burst and the bar could never write the correction.
/// Store and bar then disagreed for the life of the plugin instance.
#[test]
fn a_press_arriving_on_an_unresolved_debt_can_still_repair_the_store() {
    let mut m = BarModel::default();
    m.apply_snapshot(collapse_snap(1, false));
    m.toggle(); // owes `true`
    assert!(
        m.apply_snapshot(collapse_snap(2, false))
            .iter()
            .any(|e| matches!(e, Effect::PersistCollapse { collapsed: true })),
        "the first contradiction must book the repair"
    );
    assert!(
        !m.apply_snapshot(collapse_snap(3, false))
            .iter()
            .any(|e| matches!(e, Effect::PersistCollapse { .. })),
        "the repair is once per press, not once per snapshot"
    );
    // That debt is never settled — the store ended the burst holding the
    // wrong value, which is exactly the out-of-order landing #5 exists for.
    // A NEW press is a new intent and owes the store a new write.
    m.toggle(); // owes `false`
    assert!(
        m.apply_snapshot(collapse_snap(4, true))
            .iter()
            .any(|e| matches!(e, Effect::PersistCollapse { collapsed: false })),
        "a press arriving on an unresolved debt could never repair the store"
    );
}

/// Last press wins: a burst leaves the bar in the mode the final press
/// asked for, and a snapshot that is merely BEHIND cannot overrule it.
#[test]
fn the_last_press_wins_over_a_lagging_snapshot() {
    let mut m = BarModel::default();
    m.apply_snapshot(collapse_snap(1, false));
    m.toggle(); // -> collapsed
    m.toggle(); // -> expanded
    m.toggle(); // -> collapsed, and this is the press that must stand
    assert!(m.collapsed);
    // Two snapshots still carrying the pre-burst value.
    m.apply_snapshot(collapse_snap(2, false));
    m.apply_snapshot(collapse_snap(3, false));
    assert!(
        m.collapsed,
        "a store one burst behind overruled the user's last press"
    );
    // Once the store catches up, the debt settles and nothing moves.
    m.apply_snapshot(collapse_snap(4, true));
    assert!(m.collapsed);
}

