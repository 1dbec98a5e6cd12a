//! What holds of the bar across calls and across every state: the row
//! order, the walk, the launch discipline, the executor election and the
//! width machine.
use crate::model::{
    agent_with_uuid, rank_pos, rank_sort, ranks_before, row_keyed, spec_apply_snapshot, spec_click,
    spec_commit, spec_dormant_agents, spec_dormant_entries, spec_dormant_key, spec_is_dormant,
    spec_live_block_len, spec_live_entries, spec_live_key, spec_nav_executor, spec_nav_parsed,
    spec_needs_birth_touch, spec_nav_line, spec_pane_of, spec_register, spec_rows, spec_showing_collapsed,
    spec_toggle, spec_walk, spec_width_effects, spent_on, BarModel, EffectView, ModelView,
    RankedView, RowKeyView, TabMeta, WALK_ASK_CAP, spec_bind_effects, spec_bind_scan,
    spec_frames_coherent, spec_may_send, spec_position_of, entry_known, ledger_confirm_all,
    ledger_insert_all, ledger_remove_all, ledger_reset_all, spec_ledger_after,
    spec_collapse_ledger, spec_renames, spec_replace_tables, probe_listing, spec_agent_in_tab,
    spec_arm_fast_tick, spec_fast_tick_elapsed, spec_probe_target, spec_probe_targets,
    spec_speaker, spec_agent_content, spec_announce, spec_apply_tabs, spec_beacon_stranded,
    spec_mark_read, spec_apply_panes, PaneMeta,
};
use crate::cli::{spec_cli_binary, spec_command, PATH_FALLBACK};
use crate::plugin_config::spec_resolve_binary;
use crate::payload::NavFieldsView;
use crate::seqs::{
    any, find, key_str, lemma_any_at, lemma_find_iff, lemma_find_none, lemma_find_some,
    lemma_lookup_after_insert, lemma_not_any, lookup_str, lookup_u32,
};
use crate::types::{Agent, AgentSnapshot, Status};
use crate::seqs::{has_str, text_ne, without_str};
use crate::model::tab_is_active;
use crate::model::{checkout_root, spec_checkout_in};
use crate::rows::utf8_len;
use crate::text::{spec_basename, spec_command_display, spec_decimal, spec_digit, spec_strip_dashes, spec_within};
use crate::pipe::{spec_all_digits, spec_digits_value, spec_is_digit};
use vstd::arithmetic::div_mod::lemma_mod_bound;
use crate::render::RowView;
use crate::seqs::{find_index, lemma_find_at};
use crate::model::{is_dormant_in, uuid_pos, uuid_sort};
use crate::model::{
    ledger_confirm_one, ledger_reset_one, spec_joined_here, BindScan, BindSent, BIND_MAX_TRIES,
};
use crate::rows::{lemma_lex_lt_total_order, lex_lt};
use vstd::prelude::*;

verus! {

broadcast use vstd::seq_lib::to_multiset_insert, vstd::seq_lib::to_multiset_build,
    vstd::seq_lib::to_multiset_contains, vstd::seq_lib::to_multiset_len;

/// A run in ranking order: no row ranks strictly before a row above it.
pub open spec fn rank_sorted(s: Seq<RankedView>) -> bool {
    forall|i: int, j: int| 0 <= i < j < s.len() ==> !ranks_before(#[trigger] s[j], #[trigger] s[i])
}

/// The ranking is a strict order: irreflexive, asymmetric and transitive.
pub proof fn lemma_ranks_before_strict(a: RankedView, b: RankedView, c: RankedView)
    ensures
        !ranks_before(a, a),
        ranks_before(a, b) ==> !ranks_before(b, a),
        ranks_before(a, b) && ranks_before(b, c) ==> ranks_before(a, c),
{
}

/// Where an item goes in a run lies inside the run.
pub proof fn lemma_rank_pos_bound(s: Seq<RankedView>, e: RankedView)
    ensures
        rank_pos(s, e) <= s.len(),
    decreases s.len(),
{
    if s.len() > 0 && !ranks_before(e, s[0]) {
        lemma_rank_pos_bound(s.drop_first(), e);
    }
}

/// Every row before the insertion point ranks at least as high as the item;
/// the row at it ranks strictly lower.
pub proof fn lemma_rank_pos_split(s: Seq<RankedView>, e: RankedView)
    ensures
        forall|i: int| 0 <= i < rank_pos(s, e) ==> !ranks_before(e, #[trigger] s[i]),
        rank_pos(s, e) < s.len() ==> ranks_before(e, s[rank_pos(s, e) as int]),
    decreases s.len(),
{
    if s.len() > 0 && !ranks_before(e, s[0]) {
        let t = s.drop_first();
        lemma_rank_pos_split(t, e);
        lemma_rank_pos_bound(s, e);
        assert forall|i: int| 0 <= i < rank_pos(s, e) implies !ranks_before(e, #[trigger] s[i]) by {
            if i > 0 {
                assert(s[i] == t[i - 1]);
            }
        }
        if rank_pos(s, e) < s.len() {
            assert(s[rank_pos(s, e) as int] == t[rank_pos(t, e) as int]);
        }
    }
}

/// Inserting an item at its rank position keeps a run in ranking order.
proof fn lemma_rank_insert_sorted(t: Seq<RankedView>, e: RankedView)
    requires
        rank_sorted(t),
    ensures
        rank_sorted(t.insert(rank_pos(t, e) as int, e)),
{
    let k = rank_pos(t, e) as int;
    lemma_rank_pos_bound(t, e);
    lemma_rank_pos_split(t, e);
    let u = t.insert(k, e);
    assert forall|i: int, j: int| 0 <= i < j < u.len() implies !ranks_before(
        #[trigger] u[j],
        #[trigger] u[i],
    ) by {
        if j < k {
            assert(u[i] == t[i] && u[j] == t[j]);
        } else if j == k {
            assert(u[i] == t[i]);
        } else if i == k {
            assert(u[j] == t[j - 1]);
            lemma_ranks_before_strict(t[j - 1], e, t[k]);
            if j - 1 > k {
                assert(!ranks_before(t[j - 1], t[k]));
            }
        } else if i < k {
            assert(u[i] == t[i] && u[j] == t[j - 1]);
        } else {
            assert(u[i] == t[i - 1] && u[j] == t[j - 1]);
        }
    }
}

/// The stable sort behind the row order holds exactly the rows it was
/// given, in ranking order.
pub proof fn lemma_rank_sort(s: Seq<RankedView>)
    ensures
        rank_sort(s).len() == s.len(),
        rank_sort(s).to_multiset() == s.to_multiset(),
        rank_sorted(rank_sort(s)),
    decreases s.len(),
{
    if s.len() > 0 {
        let t = rank_sort(s.drop_last());
        lemma_rank_sort(s.drop_last());
        lemma_rank_pos_bound(t, s.last());
        lemma_rank_insert_sorted(t, s.last());
        assert(s.drop_last().push(s.last()) =~= s);
    }
}

/// Every row of a sorted run was a row of the input.
pub proof fn lemma_rank_sort_member(s: Seq<RankedView>, i: int)
    requires
        0 <= i < s.len(),
    ensures
        s.contains(rank_sort(s)[i]),
{
    lemma_rank_sort(s);
    let x = rank_sort(s)[i];
    assert(rank_sort(s).contains(x));
    assert(rank_sort(s).to_multiset().count(x) > 0);
    assert(s.to_multiset().count(x) > 0);
}

/// The blocks of a rendered list, over any state.
proof fn lemma_live_rows_come_first(v: ModelView)
    ensures
        spec_rows(v).len() == v.tabs.len() + spec_dormant_agents(v).len(),
        forall|i: int| 0 <= i < v.tabs.len() ==> (#[trigger] spec_rows(v)[i]).0 is Tab,
        forall|i: int|
            v.tabs.len() <= i < spec_rows(v).len() ==> (#[trigger] spec_rows(v)[i]).0 is Dormant,
        spec_live_block_len(spec_rows(v)) == v.tabs.len(),
{
    let l = spec_live_entries(v);
    let d = spec_dormant_entries(v);
    lemma_rank_sort(l);
    lemma_rank_sort(d);
    let rows = spec_rows(v);
    let cat = rank_sort(l) + rank_sort(d);
    assert(rows.len() == cat.len());
    assert forall|i: int| 0 <= i < v.tabs.len() implies (#[trigger] spec_rows(v)[i]).0 is Tab by {
        lemma_rank_sort_member(l, i);
        let x = rank_sort(l)[i];
        let j = choose|j: int| 0 <= j < l.len() && l[j] == x;
        assert(cat[i] == x);
    }
    assert forall|i: int|
        v.tabs.len() <= i < spec_rows(v).len() implies (#[trigger] spec_rows(v)[i]).0 is Dormant by {
        let k = i - v.tabs.len();
        lemma_rank_sort_member(d, k);
        let x = rank_sort(d)[k];
        let j = choose|j: int| 0 <= j < d.len() && d[j] == x;
        assert(cat[i] == x);
    }
    let p = |e: (RowKeyView, RowView)| e.0 is Dormant;
    if v.tabs.len() < rows.len() {
        assert(rows[v.tabs.len() as int].0 is Dormant);
        lemma_find_at(rows, p, v.tabs.len() as int);
    } else {
        crate::seqs::lemma_find_none(rows, p);
    }
    assert(p == crate::model::row_is_dormant());
}

/// The live rows come first: the rendered list is the bar's tabs, one row
/// each, followed by its dormant rows, and its leading run of live rows is
/// exactly as long as the tab list.
pub proof fn law_live_rows_come_first(m: BarModel)
    ensures
        spec_rows(m@).len() == m@.tabs.len() + spec_dormant_agents(m@).len(),
        forall|i: int| 0 <= i < m@.tabs.len() ==> (#[trigger] spec_rows(m@)[i]).0 is Tab,
        forall|i: int|
            m@.tabs.len() <= i < spec_rows(m@).len() ==> (#[trigger] spec_rows(m@)[i]).0 is Dormant,
        spec_live_block_len(spec_rows(m@)) == m@.tabs.len(),
{
    lemma_live_rows_come_first(m@);
}

/// Each block keeps its rows in ranking order: the live block is the
/// tabs' rows and the dormant block the dormant rows, each sorted by key
/// descending with the stable tiebreak.
pub proof fn law_blocks_follow_the_ranking(m: BarModel)
    ensures
        rank_sorted(rank_sort(spec_live_entries(m@))),
        rank_sort(spec_live_entries(m@)).to_multiset() == spec_live_entries(m@).to_multiset(),
        rank_sorted(rank_sort(spec_dormant_entries(m@))),
        rank_sort(spec_dormant_entries(m@)).to_multiset() == spec_dormant_entries(
            m@,
        ).to_multiset(),
        spec_rows(m@) == (rank_sort(spec_live_entries(m@)) + rank_sort(
            spec_dormant_entries(m@),
        )).map_values(|e: RankedView| (e.2, e.3)),
{
    lemma_rank_sort(spec_live_entries(m@));
    lemma_rank_sort(spec_dormant_entries(m@));
}


/// The cursor sits on a displayed dormant row, so a walk belongs to the
/// dormant block.
pub open spec fn walks_dormant(v: ModelView) -> bool {
    match v.cursor {
        Some(u) => find_index(spec_rows(v), row_keyed(RowKeyView::Dormant(u))) >= 0,
        None => false,
    }
}

/// A walk never leaves its block: it always lands on a row of the list; on
/// a dormant row while the selection sits in the dormant block, and on a
/// live row otherwise, whenever there is one.
pub proof fn law_a_walk_stays_in_its_block(m: BarModel, own: usize, dir: Seq<char>)
    requires
        spec_rows(m@).len() > 0,
    ensures
        match spec_walk(m@, spec_rows(m@), own, dir) {
            Some(l) => 0 <= l < spec_rows(m@).len() && (walks_dormant(m@) ==> spec_rows(
                m@,
            )[l].0 is Dormant) && (!walks_dormant(m@) && m@.tabs.len() > 0 ==> spec_rows(
                m@,
            )[l].0 is Tab),
            None => true,
        },
{
    let v = m@;
    let rows = spec_rows(v);
    lemma_live_rows_come_first(m@);
    let live_len = spec_live_block_len(rows) as int;
    let own_at = find_index(rows, row_keyed(RowKeyView::Tab(own)));
    if walks_dormant(v) {
        let u = v.cursor->0;
        let p = row_keyed(RowKeyView::Dormant(u));
        lemma_find_iff(rows, p);
        lemma_find_some(rows, p);
        let sel = find_index(rows, p);
        assert(rows[sel].0 is Dormant);
        assert(sel >= live_len);
        let len = rows.len() - live_len;
        lemma_mod_bound(sel - live_len + 1, len);
        lemma_mod_bound(sel - live_len + len - 1, len);
    } else if live_len == 0 {
        lemma_mod_bound(1, rows.len() as int);
        lemma_mod_bound(rows.len() - 1, rows.len() as int);
    } else {
        lemma_mod_bound(own_at + 1, live_len);
        lemma_mod_bound(own_at + live_len - 1, live_len);
        lemma_mod_bound(1, live_len);
        lemma_mod_bound(live_len - 1, live_len);
    }
}

/// Every row of the live block names a tab of the frame.
proof fn lemma_live_row_names_a_tab(v: ModelView, i: int)
    requires
        0 <= i < v.tabs.len(),
    ensures
        spec_rows(v)[i].0 is Tab,
        any(v.tabs, crate::model::tab_with_id(spec_rows(v)[i].0->Tab_0)),
{
    let l = spec_live_entries(v);
    let d = spec_dormant_entries(v);
    lemma_live_rows_come_first(v);
    lemma_rank_sort(l);
    lemma_rank_sort(d);
    lemma_rank_sort_member(l, i);
    let x = rank_sort(l)[i];
    let j = choose|j: int| 0 <= j < l.len() && l[j] == x;
    let cat = rank_sort(l) + rank_sort(d);
    assert(cat[i] == x);
    assert(spec_rows(v)[i].0 == x.2);
    assert(x.2 == RowKeyView::Tab(v.tabs[j].tab_id));
    lemma_any_at(v.tabs, crate::model::tab_with_id(v.tabs[j].tab_id), j);
}

/// A walk through the live block closes on itself: from any state whose
/// selection is not on a dormant row, a step in either direction lands on
/// a tab of the frame, bumps the cursor generation exactly once and leaves
/// no dormant selection behind.
pub proof fn law_a_live_walk_lands_on_a_tab(m: BarModel, own: usize, f: NavFieldsView)
    requires
        m@.tabs.len() > 0,
        !walks_dormant(m@),
        f.uuid is None,
        f.commit != Some(true),
        f.row is None,
        f.dir == Some("next"@) || f.dir == Some("prev"@),
    ensures
        spec_nav_parsed(m@, Some(f), Some(own)).0.cursor_gen == crate::model::bump(
            m@.cursor_gen,
        ),
        spec_nav_parsed(m@, Some(f), Some(own)).0.cursor is None,
        spec_nav_parsed(m@, Some(f), Some(own)).0.current_tab is Some,
        any(
            m@.tabs,
            crate::model::tab_with_id(spec_nav_parsed(m@, Some(f), Some(own)).0.current_tab->0),
        ),
{
    let v = m@;
    let rows = spec_rows(v);
    let d = f.dir->0;
    lemma_live_rows_come_first(v);
    assert(rows.len() > 0);
    law_a_walk_stays_in_its_block(m, own, d);
    let l = spec_walk(v, rows, own, d)->0;
    assert(spec_nav_line(v, rows, f, own) == Some(l));
    assert(rows[l].0 is Tab);
    if l >= v.tabs.len() {
        assert(rows[l].0 is Dormant);
    }
    lemma_live_row_names_a_tab(v, l);
    let id = rows[l].0->Tab_0;
    lemma_find_iff(v.tabs, crate::model::tab_with_id(id));
}

/// The effects hold a launch.
pub open spec fn launches(fx: Seq<EffectView>) -> bool {
    exists|i: int| 0 <= i < fx.len() && (#[trigger] fx[i]) is OpenAgent
}

/// Only a commit launches a dormant row: a press that is not a commit,
/// whatever it names and on whichever instance, launches nothing.
pub proof fn law_only_a_commit_launches(
    m: BarModel,
    f: NavFieldsView,
    executor_own_tab: Option<usize>,
)
    requires
        f.commit != Some(true),
    ensures
        !launches(spec_nav_parsed(m@, Some(f), executor_own_tab).1),
{
}

/// A click never launches: it jumps to a live row or selects a dormant one.
pub proof fn law_a_click_never_launches(m: BarModel, line: usize, pane_height: usize)
    ensures
        !launches(spec_click(m@, line, pane_height).1),
{
}

/// A stale row refuses the commit: a selection whose row's directory is
/// gone launches nothing.
pub proof fn law_a_stale_row_never_launches(m: BarModel, a: Agent)
    requires
        m@.cursor matches Some(u) && find(m@.agents, agent_with_uuid(u)) == Some(a),
        a.stale,
    ensures
        !launches(spec_commit(m@).1),
{
}

/// A commit launches a row at most once: the same commit again, before the
/// open resolves, launches nothing.
pub proof fn law_a_commit_launches_once(m: BarModel)
    ensures
        !launches(spec_commit(spec_commit(m@).0).1),
{
    let v = m@;
    let v1 = spec_commit(v).0;
    if let Some(u) = v.cursor {
        if let Some(a) = find(v.agents, agent_with_uuid(u)) {
            if spec_is_dormant(v, a) && !a.stale {
                assert(spec_is_dormant(v1, a) == spec_is_dormant(v, a));
                if v1 != v {
                    assert(v1.opening[v.opening.len() as int] == a.uuid);
                }
            }
        }
    }
}

/// Alt+c twice restores the mode: the second press flips back, persists
/// the mode the bar started in, and neither leaves a peek behind.
pub proof fn law_toggle_twice_restores_the_mode(m: BarModel)
    ensures
        spec_toggle(spec_toggle(m@).0).0.collapsed == m@.collapsed,
        !spec_toggle(spec_toggle(m@).0).0.peeking,
        spec_toggle(spec_toggle(m@).0).1 == seq![
            EffectView::PersistCollapse { collapsed: m@.collapsed },
        ],
{
}

/// A snapshot no newer than the last one accepted changes nothing and
/// asks for nothing.
pub proof fn law_a_stale_snapshot_is_ignored(m: BarModel, snap: AgentSnapshot)
    requires
        snap.seq <= m@.seq,
    ensures
        spec_apply_snapshot(m@, snap) == (m@, Seq::<EffectView>::empty()),
{
}

/// A newer snapshot is taken whole: the bar's fleet, ordinals and sequence
/// number become the snapshot's.
pub proof fn law_a_newer_snapshot_replaces_the_tables(m: BarModel, snap: AgentSnapshot)
    requires
        snap.seq > m@.seq,
    ensures
        spec_apply_snapshot(m@, snap).0.agents == snap.agents@,
        spec_apply_snapshot(m@, snap).0.tab_order == snap.tab_order@,
        spec_apply_snapshot(m@, snap).0.seq == snap.seq,
        !spec_apply_snapshot(m@, snap).0.awaiting_hydration,
{
}

/// One beacon elects one executor: two instances that heard the same
/// beacon cannot both act, each for a different tab.
pub proof fn law_one_beacon_elects_one_executor(a: BarModel, b: BarModel)
    requires
        a@.current_tab == b@.current_tab,
    ensures
        spec_nav_executor(a@) is Some && spec_nav_executor(b@) is Some ==> spec_nav_executor(a@)
            == spec_nav_executor(b@),
{
}

/// A uuid press does the same on every instance, executor or not: the
/// registered pane is broadcast truth.
pub proof fn law_a_uuid_press_is_the_same_everywhere(
    m: BarModel,
    f: NavFieldsView,
    e1: Option<usize>,
    e2: Option<usize>,
)
    requires
        f.uuid is Some,
    ensures
        spec_nav_parsed(m@, Some(f), e1) == spec_nav_parsed(m@, Some(f), e2),
{
}

/// Only the executor answers a row pick, a walk or a commit: every other
/// instance leaves its state alone and asks for nothing.
pub proof fn law_only_the_executor_acts(m: BarModel, f: NavFieldsView)
    requires
        f.uuid is None,
    ensures
        spec_nav_parsed(m@, Some(f), None) == (m@, Seq::<EffectView>::empty()),
{
}

/// The tables every ranking key is computed from.
pub open spec fn ranking_tables(v: ModelView) -> (
    crate::types::OrderMode,
    Seq<(usize, u64)>,
    Seq<Agent>,
    Seq<(usize, u64)>,
) {
    (v.order, v.tab_order, v.agents, v.tab_frecency)
}

/// Ranking keys are a function of the ranking tables.
proof fn lemma_keys_follow_the_tables(v1: ModelView, v2: ModelView, t: TabMeta, a: Agent)
    requires
        ranking_tables(v1) == ranking_tables(v2),
    ensures
        spec_live_key(v1, t) == spec_live_key(v2, t),
        spec_dormant_key(v1, a) == spec_dormant_key(v2, a),
{
}

proof fn lemma_click_keeps_the_tables(v: ModelView, line: usize, pane_height: usize)
    ensures
        ranking_tables(spec_click(v, line, pane_height).0) == ranking_tables(v),
{
}

proof fn lemma_nav_keeps_the_tables(v: ModelView, f: Option<NavFieldsView>, e: Option<usize>)
    ensures
        ranking_tables(spec_nav_parsed(v, f, e).0) == ranking_tables(v),
{
}

/// Focus is not a commitment: clicks and navigation presses never move a
/// row, since every ranking key is the same afterwards.
pub proof fn law_focus_never_reorders(
    m: BarModel,
    line: usize,
    pane_height: usize,
    f: Option<NavFieldsView>,
    executor_own_tab: Option<usize>,
    t: TabMeta,
    a: Agent,
)
    ensures
        spec_live_key(spec_click(m@, line, pane_height).0, t) == spec_live_key(m@, t),
        spec_dormant_key(spec_click(m@, line, pane_height).0, a) == spec_dormant_key(m@, a),
        spec_live_key(spec_nav_parsed(m@, f, executor_own_tab).0, t) == spec_live_key(m@, t),
        spec_dormant_key(spec_nav_parsed(m@, f, executor_own_tab).0, a) == spec_dormant_key(
            m@,
            a,
        ),
{
    lemma_click_keeps_the_tables(m@, line, pane_height);
    lemma_nav_keeps_the_tables(m@, f, executor_own_tab);
    lemma_keys_follow_the_tables(spec_click(m@, line, pane_height).0, m@, t, a);
    lemma_keys_follow_the_tables(spec_nav_parsed(m@, f, executor_own_tab).0, m@, t, a);
}

/// The width machine is deaf while a swap is in flight: a paint judged
/// then asks for nothing.
pub proof fn law_no_swap_while_one_is_in_flight(m: BarModel, own_cols: Option<usize>)
    requires
        m@.swap_in_flight,
    ensures
        spec_width_effects(m@, own_cols).1.len() == 0,
{
}

/// Swap asks are capped per intent: an ask happens only below the cap and
/// counts one against the intent it serves, so a bar that never reaches
/// its width stops asking.
pub proof fn law_swap_asks_are_capped(m: BarModel, own_cols: Option<usize>)
    ensures
        spec_width_effects(m@, own_cols).1.len() > 0 ==> spent_on(
            m@.walk_spent,
            spec_showing_collapsed(m@),
        ) < WALK_ASK_CAP && spent_on(
            spec_width_effects(m@, own_cols).0.walk_spent,
            spec_showing_collapsed(m@),
        ) == spent_on(m@.walk_spent, spec_showing_collapsed(m@)) + 1,
{
}

/// The birth stamp is owed at most once per tab: asking again answers no.
pub proof fn law_a_birth_touch_is_owed_once(m: BarModel, tab_id: usize)
    ensures
        !spec_needs_birth_touch(spec_needs_birth_touch(m@, tab_id).0, tab_id).1,
{
    let touched = m@.birth_touched;
    assert(touched.push(tab_id)[touched.len() as int] == tab_id);
}

/// A register broadcast is read back: the uuid's registered pane is the
/// one it named.
pub proof fn law_a_registered_pane_is_read_back(m: BarModel, uuid: String, pane_id: u32)
    ensures
        spec_pane_of(spec_register(m@, uuid, pane_id), uuid@) == Some(pane_id),
{
    lemma_lookup_after_insert(m@.uuid_to_pane, uuid, pane_id, uuid@);
}


/// A bind a pass decided: it names our own tab, for the uuid of a row whose
/// ledger record allows a send.
pub open spec fn bind_decided(v: ModelView, own_tab: usize, agents: Seq<Agent>, e: EffectView) -> bool {
    &&& e is Bind
    &&& e->Bind_tab_id == own_tab
    &&& exists|k: int|
        0 <= k < agents.len() && (#[trigger] agents[k]).uuid@ == e->Bind_uuid && spec_may_send(
            lookup_str(v.bind_sent, agents[k].uuid@),
            own_tab,
            v.seq,
        ).0
}

/// A ledger record a pass wrote: our own tab, at the current store seq, for
/// a row's uuid.
pub open spec fn send_recorded(
    v: ModelView,
    own_tab: usize,
    agents: Seq<Agent>,
    e: (String, crate::model::BindSent),
) -> bool {
    &&& e.1.tab_id == own_tab
    &&& e.1.at_seq == v.seq
    &&& spec_may_send(lookup_str(v.bind_sent, e.0@), own_tab, v.seq).0
    &&& e.1.tries == spec_may_send(lookup_str(v.bind_sent, e.0@), own_tab, v.seq).1 + 1
    &&& e.1.confirms == 0
    &&& exists|k: int| 0 <= k < agents.len() && (#[trigger] agents[k]).uuid == e.0
}

/// The pass's records hold a record for this uuid.
pub open spec fn records(sent: Seq<(String, crate::model::BindSent)>, uuid: Seq<char>) -> bool {
    exists|j: int| 0 <= j < sent.len() && (#[trigger] sent[j]).0@ == uuid
}

/// What one pass decides, row by row: each bind is decided as above, each
/// record is written as above, and each bind has its record.
proof fn lemma_scan_binds(v: ModelView, own_tab: usize, own_position: Option<usize>, agents: Seq<Agent>)
    ensures
        forall|i: int|
            0 <= i < spec_bind_scan(v, own_tab, own_position, agents).out.len() ==> bind_decided(
                v,
                own_tab,
                agents,
                #[trigger] spec_bind_scan(v, own_tab, own_position, agents).out[i],
            ),
        forall|i: int|
            0 <= i < spec_bind_scan(v, own_tab, own_position, agents).sent.len() ==> send_recorded(
                v,
                own_tab,
                agents,
                #[trigger] spec_bind_scan(v, own_tab, own_position, agents).sent[i],
            ),
        forall|i: int|
            0 <= i < spec_bind_scan(v, own_tab, own_position, agents).out.len() ==> records(
                spec_bind_scan(v, own_tab, own_position, agents).sent,
                (#[trigger] spec_bind_scan(v, own_tab, own_position, agents).out[i])->Bind_uuid,
            ),
    decreases agents.len(),
{
    if agents.len() > 0 {
        let rest = agents.drop_last();
        lemma_scan_binds(v, own_tab, own_position, rest);
        let sc = spec_bind_scan(v, own_tab, own_position, rest);
        let sc2 = spec_bind_scan(v, own_tab, own_position, agents);
        let n = agents.len() - 1;
        assert(agents[n] == agents.last());
        assert forall|i: int| 0 <= i < sc2.out.len() implies bind_decided(
            v,
            own_tab,
            agents,
            #[trigger] sc2.out[i],
        ) by {
            if i < sc.out.len() {
                assert(sc2.out[i] == sc.out[i]);
                let e = sc.out[i];
                assert(bind_decided(v, own_tab, rest, e));
                let k = choose|k: int|
                    0 <= k < rest.len() && (#[trigger] rest[k]).uuid@ == e->Bind_uuid
                        && spec_may_send(lookup_str(v.bind_sent, rest[k].uuid@), own_tab, v.seq).0;
                assert(agents[k] == rest[k]);
            } else {
                assert(agents[n].uuid@ == sc2.out[i]->Bind_uuid);
            }
        }
        assert forall|i: int| 0 <= i < sc2.sent.len() implies send_recorded(
            v,
            own_tab,
            agents,
            #[trigger] sc2.sent[i],
        ) by {
            if i < sc.sent.len() {
                assert(sc2.sent[i] == sc.sent[i]);
                assert(send_recorded(v, own_tab, rest, sc.sent[i]));
                let k = choose|k: int| 0 <= k < rest.len() && (#[trigger] rest[k]).uuid == sc.sent[i].0;
                assert(agents[k] == rest[k]);
            } else {
                assert(agents[n].uuid == sc2.sent[i].0);
            }
        }
        assert forall|i: int| 0 <= i < sc2.out.len() implies records(
            sc2.sent,
            (#[trigger] sc2.out[i])->Bind_uuid,
        ) by {
            if i < sc.out.len() {
                assert(sc2.out[i] == sc.out[i]);
                assert(records(sc.sent, sc.out[i]->Bind_uuid));
                let j = choose|j: int| 0 <= j < sc.sent.len() && (#[trigger] sc.sent[j]).0@ == sc.out[i]->Bind_uuid;
                assert(sc2.sent[j] == sc.sent[j]);
            } else {
                let j = sc2.sent.len() - 1;
                assert(sc2.sent[j].0@ == sc2.out[i]->Bind_uuid);
            }
        }
    }
}

/// A bind names our own tab only, and an incoherent frame emits nothing:
/// the bind leg never reports a join it could not witness.
pub proof fn law_binds_name_only_our_own_tab(m: BarModel, own_tab: usize)
    ensures
        forall|i: int|
            0 <= i < spec_bind_effects(m@, own_tab).1.len() ==> (#[trigger] spec_bind_effects(
                m@,
                own_tab,
            ).1[i]) is Bind && spec_bind_effects(m@, own_tab).1[i]->Bind_tab_id == own_tab,
        !spec_frames_coherent(m@) ==> spec_bind_effects(m@, own_tab).1.len() == 0,
{
    reveal(spec_bind_effects);
    let v = m@;
    if spec_frames_coherent(v) {
        lemma_scan_binds(v, own_tab, spec_position_of(v, own_tab), v.agents);
        let out = spec_bind_effects(v, own_tab).1;
        assert forall|i: int| 0 <= i < out.len() implies (#[trigger] out[i]) is Bind && out[i]->Bind_tab_id == own_tab by {
            assert(bind_decided(v, own_tab, v.agents, out[i]));
        }
    }
}


/// The first match in a run extended by one item.
proof fn lemma_find_push<A>(s: Seq<A>, x: A, p: spec_fn(A) -> bool)
    ensures
        find(s.push(x), p) == if any(s, p) {
            find(s, p)
        } else if p(x) {
            Some(x)
        } else {
            None
        },
        any(s.push(x), p) == (any(s, p) || p(x)),
{
    let t = s.push(x);
    if any(s, p) {
        lemma_find_some(s, p);
        let i = find_index(s, p);
        assert forall|j: int| 0 <= j < i implies !p(#[trigger] t[j]) by {
            assert(t[j] == s[j]);
        }
        lemma_find_at(t, p, i);
        lemma_any_at(t, p, i);
    } else {
        lemma_not_any(s, p);
        if p(x) {
            assert forall|j: int| 0 <= j < s.len() implies !p(#[trigger] t[j]) by {
                assert(t[j] == s[j]);
            }
            lemma_find_at(t, p, s.len() as int);
            lemma_any_at(t, p, s.len() as int);
        } else {
            assert forall|j: int| 0 <= j < t.len() implies !p(#[trigger] t[j]) by {
                if j < s.len() {
                    assert(t[j] == s[j]);
                }
            }
            lemma_find_none(t, p);
        }
    }
}

/// Filtering a ledger keeps what a uuid looks up to, when every entry of
/// that uuid passes the filter.
proof fn lemma_lookup_after_filter(
    l: Seq<(String, crate::model::BindSent)>,
    p: spec_fn((String, crate::model::BindSent)) -> bool,
    k: Seq<char>,
)
    requires
        forall|i: int| 0 <= i < l.len() && (#[trigger] l[i]).0@ == k ==> p(l[i]),
    ensures
        find(l.filter(p), key_str::<crate::model::BindSent>(k)) == find(
            l,
            key_str::<crate::model::BindSent>(k),
        ),
        lookup_str(l.filter(p), k) == lookup_str(l, k),
    decreases l.len(),
{
    let key = key_str::<crate::model::BindSent>(k);
    reveal_with_fuel(Seq::filter, 1);
    if l.len() == 0 {
        assert(l.filter(p) =~= l);
    } else {
        let t = l.drop_last();
        let x = l.last();
        assert forall|i: int| 0 <= i < t.len() && (#[trigger] t[i]).0@ == k implies p(t[i]) by {
            assert(t[i] == l[i]);
        }
        lemma_lookup_after_filter(t, p, k);
        assert(l =~= t.push(x));
        let f = t.filter(p);
        lemma_find_push(t, x, key);
        lemma_find_iff(t, key);
        lemma_find_iff(f, key);
        assert(find(f, key) == find(t, key));
        assert(any(f, key) == any(t, key));
        if p(x) {
            assert(l.filter(p) == f.push(x));
            lemma_find_push(f, x, key);
            assert(find(f.push(x), key) == find(t.push(x), key));
        } else {
            assert(l.filter(p) == f);
            assert(l[l.len() - 1] == x);
            assert(!key(x));
            if !any(t, key) {
                lemma_find_iff(t, key);
            }
            assert(find(t.push(x), key) == find(t, key));
        }
    }
}

/// After the records of a pass are written, a uuid the pass recorded looks
/// up to one of its records.
proof fn lemma_lookup_after_records(
    l: Seq<(String, crate::model::BindSent)>,
    sent: Seq<(String, crate::model::BindSent)>,
    k: Seq<char>,
)
    requires
        records(sent, k),
    ensures
        exists|j: int|
            0 <= j < sent.len() && (#[trigger] sent[j]).0@ == k && lookup_str(
                ledger_insert_all(l, sent),
                k,
            ) == Some(sent[j].1),
    decreases sent.len(),
{
    let n = sent.len() - 1;
    let prev = ledger_insert_all(l, sent.drop_last());
    lemma_lookup_after_insert(prev, sent[n].0, sent[n].1, k);
    if sent[n].0@ != k {
        let j = choose|j: int| 0 <= j < sent.len() && (#[trigger] sent[j]).0@ == k;
        assert(sent.drop_last()[j] == sent[j]);
        lemma_lookup_after_records(l, sent.drop_last(), k);
        let j2 = choose|j2: int|
            0 <= j2 < sent.drop_last().len() && (#[trigger] sent.drop_last()[j2]).0@ == k
                && lookup_str(prev, k) == Some(sent.drop_last()[j2].1);
        assert(sent[j2] == sent.drop_last()[j2]);
    }
}

/// Binds never repeat without store progress: a second pass over the same
/// state, the store's seq unchanged, re-sends none of the first pass's
/// binds. A quiescent store costs no repeated subprocesses however many
/// frames arrive.
pub proof fn law_binds_never_repeat_without_store_progress(m: BarModel, own_tab: usize)
    ensures
        forall|i: int, j: int|
            0 <= i < spec_bind_effects(spec_bind_effects(m@, own_tab).0, own_tab).1.len() && 0 <= j
                < spec_bind_effects(m@, own_tab).1.len() ==> (#[trigger] spec_bind_effects(
                spec_bind_effects(m@, own_tab).0,
                own_tab,
            ).1[i]) != (#[trigger] spec_bind_effects(m@, own_tab).1[j]),
{
    reveal(spec_bind_effects);
    let v = m@;
    if spec_frames_coherent(v) {
        let pos = spec_position_of(v, own_tab);
        let sc1 = spec_bind_scan(v, own_tab, pos, v.agents);
        let v1 = spec_bind_effects(v, own_tab).0;
        assert(v1 == ModelView { bind_sent: spec_ledger_after(v, sc1), ..v });
        assert(spec_frames_coherent(v1) == spec_frames_coherent(v));
        assert(spec_position_of(v1, own_tab) == pos);
        let sc2 = spec_bind_scan(v1, own_tab, pos, v.agents);
        lemma_scan_binds(v, own_tab, pos, v.agents);
        lemma_scan_binds(v1, own_tab, pos, v.agents);
        let fx1 = sc1.out;
        let fx2 = sc2.out;
        assert forall|i: int, j: int| 0 <= i < fx2.len() && 0 <= j < fx1.len() implies (
        #[trigger] fx2[i]) != (#[trigger] fx1[j]) by {
            if fx2[i] == fx1[j] {
                let u = fx1[j]->Bind_uuid;
                assert(records(sc1.sent, u));
                assert(bind_decided(v1, own_tab, v.agents, fx2[i]));
                let k = choose|k: int|
                    0 <= k < v.agents.len() && (#[trigger] v.agents[k]).uuid@ == u && spec_may_send(
                        lookup_str(v1.bind_sent, v.agents[k].uuid@),
                        own_tab,
                        v1.seq,
                    ).0;
                let base = ledger_confirm_all(
                    ledger_reset_all(ledger_remove_all(v.bind_sent, sc1.clear), sc1.diverged),
                    sc1.confirmed,
                    v.seq,
                );
                lemma_lookup_after_records(base, sc1.sent, u);
                let jj = choose|jj: int|
                    0 <= jj < sc1.sent.len() && (#[trigger] sc1.sent[jj]).0@ == u && lookup_str(
                        ledger_insert_all(base, sc1.sent),
                        u,
                    ) == Some(sc1.sent[jj].1);
                assert(send_recorded(v, own_tab, v.agents, sc1.sent[jj]));
                let ins = ledger_insert_all(base, sc1.sent);
                assert forall|q: int| 0 <= q < ins.len() && (#[trigger] ins[q]).0@ == u implies entry_known(
                    v.agents,
                )(ins[q]) by {
                    lemma_any_at(v.agents, agent_with_uuid(u), k);
                }
                lemma_lookup_after_filter(ins, entry_known(v.agents), u);
            }
        }
    }
}


/// The effects hold a write of the collapse mode.
pub open spec fn persists(fx: Seq<EffectView>) -> bool {
    exists|i: int| 0 <= i < fx.len() && (#[trigger] fx[i]) is PersistCollapse
}

/// The rename pass only appends tab renames to the effects it is given.
proof fn lemma_renames_append_renames(
    agents: Seq<Agent>,
    renamed: Seq<(String, String)>,
    read: Seq<String>,
    fx: Seq<EffectView>,
)
    ensures
        spec_renames(agents, renamed, read, fx).2.len() >= fx.len(),
        forall|i: int| 0 <= i < fx.len() ==> (#[trigger] spec_renames(agents, renamed, read, fx).2[i]) == fx[i],
        forall|i: int|
            fx.len() <= i < spec_renames(agents, renamed, read, fx).2.len() ==> (
            #[trigger] spec_renames(agents, renamed, read, fx).2[i]) is RenameTab,
    decreases agents.len(),
{
    if agents.len() > 0 {
        lemma_renames_append_renames(agents.drop_last(), renamed, read, fx);
    }
}

/// An accepted snapshot writes the collapse mode exactly when its collapse
/// ledger does, and the ledger's state is all it leaves behind for the
/// next one.
proof fn lemma_snapshot_persists(v: ModelView, snap: AgentSnapshot)
    ensures
        persists(spec_apply_snapshot(v, snap).1) ==> snap.seq > v.seq && persists(
            spec_collapse_ledger(spec_replace_tables(v, snap), snap.collapsed).1,
        ),
        snap.seq > v.seq ==> spec_apply_snapshot(v, snap).0.pending_collapse == spec_collapse_ledger(
            spec_replace_tables(v, snap),
            snap.collapsed,
        ).0.pending_collapse && spec_apply_snapshot(v, snap).0.collapse_reasserted
            == spec_collapse_ledger(spec_replace_tables(v, snap), snap.collapsed).0.collapse_reasserted
            && spec_apply_snapshot(v, snap).0.collapsed == spec_collapse_ledger(
            spec_replace_tables(v, snap),
            snap.collapsed,
        ).0.collapsed,
        snap.seq <= v.seq ==> spec_apply_snapshot(v, snap).0 == v,
{
    if snap.seq > v.seq {
        let v1 = spec_replace_tables(v, snap);
        let (v2, fx) = spec_collapse_ledger(v1, snap.collapsed);
        lemma_renames_append_renames(v2.agents, v2.renamed, v2.read_locally, fx);
        let out = spec_apply_snapshot(v, snap).1;
        assert(out == spec_renames(v2.agents, v2.renamed, v2.read_locally, fx).2);
        if persists(out) {
            let i = choose|i: int| 0 <= i < out.len() && (#[trigger] out[i]) is PersistCollapse;
            assert(i < fx.len());
            assert(fx[i] is PersistCollapse);
        }
    }
}

/// A press is re-asserted at most once: two snapshots in a row never both
/// write the collapse mode, so conflicting instances cannot ping-pong the
/// store.
pub proof fn law_a_press_is_reasserted_at_most_once(
    m: BarModel,
    first: AgentSnapshot,
    second: AgentSnapshot,
)
    ensures
        !(persists(spec_apply_snapshot(m@, first).1) && persists(
            spec_apply_snapshot(spec_apply_snapshot(m@, first).0, second).1,
        )),
{
    let v = m@;
    let v1 = spec_apply_snapshot(v, first).0;
    lemma_snapshot_persists(v, first);
    lemma_snapshot_persists(v1, second);
}

/// The bar owes the store the very mode it shows.
pub open spec fn owes_its_own_mode(v: ModelView) -> bool {
    match v.pending_collapse {
        Some(want) => v.collapsed == want,
        None => true,
    }
}

/// The user's press stands until the store confirms it: a press leaves
/// the bar owing the mode it now shows, and no snapshot moves a bar that
/// still owes its mode; the one that carries it settles the debt.
pub proof fn law_a_press_stands_until_the_store_confirms_it(m: BarModel, snap: AgentSnapshot)
    ensures
        owes_its_own_mode(spec_toggle(m@).0),
        spec_toggle(m@).0.pending_collapse is Some,
        owes_its_own_mode(m@) && m@.pending_collapse is Some ==> spec_apply_snapshot(
            m@,
            snap,
        ).0.collapsed == m@.collapsed && owes_its_own_mode(spec_apply_snapshot(m@, snap).0),
        m@.pending_collapse == Some(snap.collapsed) && snap.seq > m@.seq ==> spec_apply_snapshot(
            m@,
            snap,
        ).0.pending_collapse is None,
{
    lemma_snapshot_persists(m@, snap);
}


/// The pane speaks for this tab, no agent is bound to it, and the pane has
/// not exited and is not standing down.
pub open spec fn speaks_live(v: ModelView, t: TabMeta, id: u32) -> bool {
    &&& spec_agent_in_tab(v, t.tab_id) is None
    &&& match spec_speaker(v, t.position) {
        Some(p) => p.pane_id == id && !p.exited,
        None => false,
    }
    &&& lookup_u32(v.probe_backoff, id) is None
}

/// The pane a probe target names: the live speaker of one of the tabs.
pub open spec fn probes_a_live_speaker(v: ModelView, tabs: Seq<TabMeta>, id: u32) -> bool {
    exists|k: int| 0 <= k < tabs.len() && speaks_live(v, #[trigger] tabs[k], id)
}

proof fn lemma_probe_listing(v: ModelView, tabs: Seq<TabMeta>)
    ensures
        forall|i: int|
            0 <= i < probe_listing(v, tabs).len() ==> probes_a_live_speaker(
                v,
                tabs,
                #[trigger] probe_listing(v, tabs)[i],
            ),
        probe_listing(v, tabs).len() <= tabs.len(),
    decreases tabs.len(),
{
    if tabs.len() > 0 {
        let rest = tabs.drop_last();
        lemma_probe_listing(v, rest);
        let out = probe_listing(v, tabs);
        let n = tabs.len() - 1;
        assert(tabs[n] == tabs.last());
        assert forall|i: int| 0 <= i < out.len() implies probes_a_live_speaker(
            v,
            tabs,
            #[trigger] out[i],
        ) by {
            if i < probe_listing(v, rest).len() {
                assert(out[i] == probe_listing(v, rest)[i]);
                assert(probes_a_live_speaker(v, rest, out[i]));
                let k = choose|k: int| 0 <= k < rest.len() && speaks_live(v, #[trigger] rest[k], out[i]);
                assert(tabs[k] == rest[k]);
            } else {
                assert(spec_probe_target(v, tabs[n]) == Some(out[i]));
            }
        }
    }
}

/// Only live terminal speakers are probed: every pane the OS is asked
/// about speaks for a tab no agent is bound to, has not exited, and is not
/// standing down after a failed probe; a bar still awaiting hydration asks
/// about no one.
pub proof fn law_only_live_terminal_speakers_are_probed(m: BarModel)
    ensures
        forall|i: int|
            0 <= i < spec_probe_targets(m@).len() ==> probes_a_live_speaker(
                m@,
                m@.tabs,
                #[trigger] spec_probe_targets(m@)[i],
            ),
        m@.awaiting_hydration ==> spec_probe_targets(m@).len() == 0,
{
    lemma_probe_listing(m@, m@.tabs);
}

/// The fast band holds one timer: a claim while one is in flight arms
/// nothing, and only the expiry frees the band for the next claim.
pub proof fn law_the_fast_band_holds_one_timer(m: BarModel)
    ensures
        !spec_arm_fast_tick(spec_arm_fast_tick(m@).0).1,
        spec_arm_fast_tick(spec_fast_tick_elapsed(m@).0).1,
        spec_arm_fast_tick(m@).1 <==> m@.fast_armed_at is None,
{
}

/// Every CLI command runs the configured binary: whichever effect asks,
/// the command line starts with the binary the configuration names, and
/// with the bare name only when it names none.
pub proof fn law_every_cli_command_runs_the_configured_binary(
    config: Map<String, String>,
    e: EffectView,
    display_cols: Option<usize>,
    collapsed: bool,
)
    requires
        !(e is AnnounceVisit),
        !(e is ReanchorVisit),
    ensures
        spec_command(spec_cli_binary(config), e, display_cols, collapsed) matches Some(argv) ==> argv.len()
            >= 1 && argv[0] == spec_cli_binary(config),
        spec_resolve_binary(config) is None ==> spec_cli_binary(config) == PATH_FALLBACK@,
{
}


/// One colour per repo, wherever it appears: two rows of one repo wear the
/// same ink whatever else differs between them, a row outside any repo
/// wears none, and a row of a repo in the fleet always wears one.
pub proof fn law_one_colour_per_repo(
    m: BarModel,
    a: Agent,
    b: Agent,
    dormant_a: bool,
    dormant_b: bool,
    selected_a: bool,
    selected_b: bool,
)
    requires
        a.repo_root@ == b.repo_root@,
    ensures
        spec_agent_content(m@, a, dormant_a, selected_a)->Agent_repo_ink == spec_agent_content(
            m@,
            b,
            dormant_b,
            selected_b,
        )->Agent_repo_ink,
        a.repo_root@.len() == 0 ==> spec_agent_content(m@, a, dormant_a, selected_a)->Agent_repo_ink
            is None,
        a.repo_root@.len() > 0 && m@.agents.contains(a) ==> spec_agent_content(
            m@,
            a,
            dormant_a,
            selected_a,
        )->Agent_repo_ink is Some,
{
    if a.repo_root@.len() > 0 && m@.agents.contains(a) {
        let j = choose|j: int| 0 <= j < m@.agents.len() && m@.agents[j] == a;
        assert(m@.agents[j].repo_root@ == a.repo_root@);
    }
}


/// One number ranks a row whether it is live or dormant: an agent bound to
/// a tab ranks by the same key as its dormant row would, so closing the
/// tab moves the row to the other block without changing what ranks it.
pub proof fn law_a_rows_rank_survives_going_dormant(m: BarModel, t: TabMeta, a: Agent)
    requires
        spec_agent_in_tab(m@, t.tab_id) == Some(a),
    ensures
        spec_live_key(m@, t) == spec_dormant_key(m@, a),
{
    let v = m@;
    crate::seqs::lemma_find_iff(v.agents, crate::model::bound_to(t.tab_id));
    crate::seqs::lemma_find_some(v.agents, crate::model::bound_to(t.tab_id));
    assert(a.tab_id == Some(t.tab_id));
}


/// The effects hold the ungated birth announce.
pub open spec fn announces(fx: Seq<EffectView>) -> bool {
    exists|i: int| 0 <= i < fx.len() && (#[trigger] fx[i]) is AnnounceVisit
}

/// Announces are bounded: a tab frame broadcasts at most one beacon; the
/// ungated birth announce fires only on a bar that has not announced yet,
/// and once a bar has announced it stays announced; a re-anchor needs an
/// Alt+o or a stranded beacon.
pub proof fn law_announces_are_bounded(m: BarModel, tabs: Seq<TabMeta>, claims: Seq<usize>)
    ensures
        announces(spec_apply_tabs(m@, tabs, claims).1) ==> !m@.birth_announced,
        m@.birth_announced ==> spec_apply_tabs(m@, tabs, claims).0.birth_announced,
        forall|i: int, j: int|
            0 <= i < j < spec_apply_tabs(m@, tabs, claims).1.len() ==> !(
            (#[trigger] spec_apply_tabs(m@, tabs, claims).1[i]) is AnnounceVisit
                || spec_apply_tabs(m@, tabs, claims).1[i] is ReanchorVisit) || !(
            (#[trigger] spec_apply_tabs(m@, tabs, claims).1[j]) is AnnounceVisit
                || spec_apply_tabs(m@, tabs, claims).1[j] is ReanchorVisit),
        (exists|i: int|
            0 <= i < spec_apply_tabs(m@, tabs, claims).1.len() && (#[trigger] spec_apply_tabs(
                m@,
                tabs,
                claims,
            ).1[i]) is ReanchorVisit) ==> m@.organic_pending || spec_beacon_stranded(
            ModelView { tabs, witnessed_dead: claims, ..m@ },
        ),
{
    let v1 = ModelView { tabs, witnessed_dead: claims, ..m@ };
    let stranded = spec_beacon_stranded(v1);
    let (v2, fx) = spec_announce(v1, stranded);
    let v3 = ModelView { reanchor_owed: spec_beacon_stranded(v2), ..v2 };
    let (v4, fx2) = spec_mark_read(v3, fx);
    assert(fx.len() <= 1);
    assert(forall|i: int| fx.len() <= i < fx2.len() ==> (#[trigger] fx2[i]) is MarkRead);
    assert(forall|i: int| 0 <= i < fx.len() ==> (#[trigger] fx2[i]) == fx[i]);
}


proof fn lemma_frames_keep_the_tables(m: ModelView, tabs: Seq<TabMeta>, claims: Seq<usize>, panes: Seq<PaneMeta>)
    ensures
        ranking_tables(spec_apply_tabs(m, tabs, claims).0) == ranking_tables(m),
        ranking_tables(spec_apply_panes(m, panes).0) == ranking_tables(m),
{
}

/// Frames never re-rank: a tab frame (a close included) or a pane manifest
/// leaves every row's ranking key as it was, so the rows that remain keep
/// their relative order and only a snapshot moves a row.
pub proof fn law_frames_never_rerank(
    m: BarModel,
    tabs: Seq<TabMeta>,
    claims: Seq<usize>,
    panes: Seq<PaneMeta>,
    t: TabMeta,
    a: Agent,
)
    ensures
        spec_live_key(spec_apply_tabs(m@, tabs, claims).0, t) == spec_live_key(m@, t),
        spec_dormant_key(spec_apply_tabs(m@, tabs, claims).0, a) == spec_dormant_key(m@, a),
        spec_live_key(spec_apply_panes(m@, panes).0, t) == spec_live_key(m@, t),
        spec_dormant_key(spec_apply_panes(m@, panes).0, a) == spec_dormant_key(m@, a),
{
    lemma_frames_keep_the_tables(m@, tabs, claims, panes);
    lemma_keys_follow_the_tables(spec_apply_tabs(m@, tabs, claims).0, m@, t, a);
    lemma_keys_follow_the_tables(spec_apply_panes(m@, panes).0, m@, t, a);
}


/// A tab frame as zellij delivers it: no two tabs share an id or a
/// position.
pub open spec fn distinct_frame(tabs: Seq<TabMeta>) -> bool {
    forall|i: int, j: int|
        0 <= i < j < tabs.len() ==> (#[trigger] tabs[i]).tab_id != (#[trigger] tabs[j]).tab_id
            && tabs[i].position != tabs[j].position
}

/// Where a tab stands in a frame.
pub open spec fn tab_index(tabs: Seq<TabMeta>, id: usize) -> int {
    find_index(tabs, crate::model::tab_with_id(id))
}

/// Where a row stands in a rendered list.
pub open spec fn row_index(rows: Seq<(RowKeyView, RowView)>, k: RowKeyView) -> int {
    find_index(rows, row_keyed(k))
}

/// A live tab's row stands where its entry stands in the sorted live block.
proof fn lemma_live_row_index(v: ModelView, a: usize)
    requires
        distinct_frame(v.tabs),
        any(v.tabs, crate::model::tab_with_id(a)),
    ensures
        0 <= row_index(spec_rows(v), RowKeyView::Tab(a)) < v.tabs.len(),
        0 <= tab_index(v.tabs, a) < v.tabs.len(),
        v.tabs[tab_index(v.tabs, a)].tab_id == a,
        rank_sort(spec_live_entries(v))[row_index(spec_rows(v), RowKeyView::Tab(a))]
            == spec_live_entries(v)[tab_index(v.tabs, a)],
{
    let l = spec_live_entries(v);
    let r = rank_sort(l);
    let rows = spec_rows(v);
    let key = RowKeyView::Tab(a);
    let p = crate::model::tab_with_id(a);
    crate::seqs::lemma_find_some(v.tabs, p);
    let ia = tab_index(v.tabs, a);
    let e = l[ia];
    assert(e.2 == key);
    lemma_rank_sort(l);
    lemma_live_rows_come_first(v);
    // Every entry of the sorted block keyed by the tab is the tab's entry.
    assert forall|j: int| 0 <= j < r.len() && (#[trigger] r[j]).2 == key implies r[j] == e by {
        lemma_rank_sort_member(l, j);
        let i2 = choose|i2: int| 0 <= i2 < l.len() && l[i2] == r[j];
        assert(v.tabs[i2].tab_id == a);
        if i2 != ia {
            if i2 < ia {
                assert(v.tabs[i2].tab_id != v.tabs[ia].tab_id);
            } else {
                assert(v.tabs[ia].tab_id != v.tabs[i2].tab_id);
            }
        }
    }
    // The tab's entry is in the sorted block, so its key is listed.
    assert(l.contains(e));
    assert(l.to_multiset().count(e) > 0);
    assert(r.to_multiset().count(e) > 0);
    assert(r.contains(e));
    let j0 = choose|j0: int| 0 <= j0 < r.len() && r[j0] == e;
    assert(rows[j0].0 == key);
    lemma_any_at(rows, row_keyed(key), j0);
    lemma_find_some(rows, row_keyed(key));
    let js = row_index(rows, key);
    assert(rows[js].0 == key);
    if js >= v.tabs.len() {
        assert(rows[js].0 is Dormant);
    }
    assert(rows[js].0 == r[js].2);
}


/// Two live rows stand in ranking order: the one whose entry ranks first
/// is listed first.
proof fn lemma_live_rows_in_rank_order(v: ModelView, a: usize, b: usize)
    requires
        distinct_frame(v.tabs),
        a != b,
        any(v.tabs, crate::model::tab_with_id(a)),
        any(v.tabs, crate::model::tab_with_id(b)),
    ensures
        (row_index(spec_rows(v), RowKeyView::Tab(a)) < row_index(spec_rows(v), RowKeyView::Tab(b)))
            == ranks_before(
            spec_live_entries(v)[tab_index(v.tabs, a)],
            spec_live_entries(v)[tab_index(v.tabs, b)],
        ),
{
    let l = spec_live_entries(v);
    let r = rank_sort(l);
    lemma_live_row_index(v, a);
    lemma_live_row_index(v, b);
    lemma_rank_sort(l);
    let ia = tab_index(v.tabs, a);
    let ib = tab_index(v.tabs, b);
    let ja = row_index(spec_rows(v), RowKeyView::Tab(a));
    let jb = row_index(spec_rows(v), RowKeyView::Tab(b));
    let ea = l[ia];
    let eb = l[ib];
    assert(ia != ib);
    if ia < ib {
        assert(v.tabs[ia].position != v.tabs[ib].position);
    } else {
        assert(v.tabs[ib].position != v.tabs[ia].position);
    }
    assert(ea.1 != eb.1);
    assert(ja != jb);
    if ja < jb {
        assert(!ranks_before(r[jb], r[ja]));
    } else {
        assert(!ranks_before(r[ja], r[jb]));
        lemma_ranks_before_strict(ea, eb, ea);
    }
}

/// A live tab's ranking key reads nothing of its position.
proof fn lemma_live_key_ignores_position(v1: ModelView, v2: ModelView, t1: TabMeta, t2: TabMeta)
    requires
        ranking_tables(v1) == ranking_tables(v2),
        t1.tab_id == t2.tab_id,
    ensures
        spec_live_key(v1, t1) == spec_live_key(v2, t2),
{
}

/// Closing a tab never reorders its neighbours: two tabs present before
/// and after a tab frame, whose positions keep their order, keep the
/// order of their rows.
pub proof fn law_a_close_keeps_the_neighbours_order(
    m: BarModel,
    tabs: Seq<TabMeta>,
    claims: Seq<usize>,
    a: usize,
    b: usize,
)
    requires
        distinct_frame(m@.tabs),
        distinct_frame(tabs),
        a != b,
        any(m@.tabs, crate::model::tab_with_id(a)),
        any(m@.tabs, crate::model::tab_with_id(b)),
        any(tabs, crate::model::tab_with_id(a)),
        any(tabs, crate::model::tab_with_id(b)),
        (m@.tabs[tab_index(m@.tabs, a)].position < m@.tabs[tab_index(m@.tabs, b)].position) == (
        tabs[tab_index(tabs, a)].position < tabs[tab_index(tabs, b)].position),
    ensures
        (row_index(spec_rows(m@), RowKeyView::Tab(a)) < row_index(spec_rows(m@), RowKeyView::Tab(b)))
            == (row_index(spec_rows(spec_apply_tabs(m@, tabs, claims).0), RowKeyView::Tab(a))
            < row_index(spec_rows(spec_apply_tabs(m@, tabs, claims).0), RowKeyView::Tab(b))),
{
    let v = m@;
    let w = spec_apply_tabs(v, tabs, claims).0;
    assert(w.tabs == tabs);
    lemma_frames_keep_the_tables(v, tabs, claims, Seq::empty());
    lemma_live_rows_in_rank_order(v, a, b);
    lemma_live_rows_in_rank_order(w, a, b);
    lemma_live_row_index(v, a);
    lemma_live_row_index(v, b);
    lemma_live_row_index(w, a);
    lemma_live_row_index(w, b);
    let ta = v.tabs[tab_index(v.tabs, a)];
    let tb = v.tabs[tab_index(v.tabs, b)];
    let ua = tabs[tab_index(tabs, a)];
    let ub = tabs[tab_index(tabs, b)];
    lemma_live_key_ignores_position(v, w, ta, ua);
    lemma_live_key_ignores_position(v, w, tb, ub);
    assert(spec_live_entries(v)[tab_index(v.tabs, a)].0 == spec_live_entries(w)[tab_index(tabs, a)].0);
    assert(spec_live_entries(v)[tab_index(v.tabs, b)].0 == spec_live_entries(w)[tab_index(tabs, b)].0);
}

/// The agents hold no uuid twice.
pub open spec fn distinct_uuids(s: Seq<Agent>) -> bool {
    forall|i: int, j: int|
        0 <= i < j < s.len() ==> (#[trigger] s[i]).uuid@ != (#[trigger] s[j]).uuid@
}

/// A run in uuid order: no agent's uuid sorts before that of one above it.
pub open spec fn uuid_sorted(s: Seq<Agent>) -> bool {
    forall|i: int, j: int|
        0 <= i < j < s.len() ==> !lex_lt((#[trigger] s[j]).uuid@, (#[trigger] s[i]).uuid@)
}

/// Where an agent goes in a run lies inside the run.
proof fn lemma_uuid_pos_bound(s: Seq<Agent>, a: Agent)
    ensures
        uuid_pos(s, a) <= s.len(),
    decreases s.len(),
{
    if s.len() > 0 && !lex_lt(a.uuid@, s[0].uuid@) {
        lemma_uuid_pos_bound(s.drop_first(), a);
    }
}

/// Every agent before the insertion point sorts no later than the new one;
/// the agent at it sorts strictly later.
proof fn lemma_uuid_pos_split(s: Seq<Agent>, a: Agent)
    ensures
        forall|i: int| 0 <= i < uuid_pos(s, a) ==> !lex_lt(a.uuid@, (#[trigger] s[i]).uuid@),
        uuid_pos(s, a) < s.len() ==> lex_lt(a.uuid@, s[uuid_pos(s, a) as int].uuid@),
    decreases s.len(),
{
    if s.len() > 0 && !lex_lt(a.uuid@, s[0].uuid@) {
        let t = s.drop_first();
        lemma_uuid_pos_split(t, a);
        lemma_uuid_pos_bound(s, a);
        assert forall|i: int| 0 <= i < uuid_pos(s, a) implies !lex_lt(
            a.uuid@,
            (#[trigger] s[i]).uuid@,
        ) by {
            if i > 0 {
                assert(s[i] == t[i - 1]);
            }
        }
        if uuid_pos(s, a) < s.len() {
            assert(s[uuid_pos(s, a) as int] == t[uuid_pos(t, a) as int]);
        }
    }
}

/// Inserting an agent at its uuid position keeps a run in uuid order.
proof fn lemma_uuid_insert_sorted(t: Seq<Agent>, a: Agent)
    requires
        uuid_sorted(t),
    ensures
        uuid_sorted(t.insert(uuid_pos(t, a) as int, a)),
{
    let k = uuid_pos(t, a) as int;
    lemma_uuid_pos_bound(t, a);
    lemma_uuid_pos_split(t, a);
    let u = t.insert(k, a);
    assert forall|i: int, j: int| 0 <= i < j < u.len() implies !lex_lt(
        (#[trigger] u[j]).uuid@,
        (#[trigger] u[i]).uuid@,
    ) by {
        if j < k {
            assert(u[i] == t[i] && u[j] == t[j]);
        } else if j == k {
            assert(u[i] == t[i]);
        } else if i == k {
            assert(u[j] == t[j - 1]);
            lemma_lex_lt_total_order(t[j - 1].uuid@, a.uuid@, t[k].uuid@);
            lemma_lex_lt_total_order(a.uuid@, t[k].uuid@, a.uuid@);
            if j - 1 > k {
                assert(!lex_lt(t[j - 1].uuid@, t[k].uuid@));
            }
        } else if i < k {
            assert(u[i] == t[i] && u[j] == t[j - 1]);
        } else {
            assert(u[i] == t[i - 1] && u[j] == t[j - 1]);
        }
    }
}

/// The uuid sort behind the dormant block holds exactly the agents it was
/// given, in uuid order, and keeps their uuids distinct.
#[verifier::spinoff_prover]
#[verifier::rlimit(40)]
pub proof fn lemma_uuid_sort(s: Seq<Agent>)
    ensures
        uuid_sort(s).len() == s.len(),
        uuid_sorted(uuid_sort(s)),
        forall|k: int| 0 <= k < s.len() ==> uuid_sort(s).contains(#[trigger] s[k]),
        forall|k: int| 0 <= k < s.len() ==> s.contains(#[trigger] uuid_sort(s)[k]),
        distinct_uuids(s) ==> distinct_uuids(uuid_sort(s)),
    decreases s.len(),
{
    if s.len() > 0 {
        let p = s.drop_last();
        let t = uuid_sort(p);
        let x = s.last();
        lemma_uuid_sort(p);
        lemma_uuid_pos_bound(t, x);
        lemma_uuid_insert_sorted(t, x);
        let k = uuid_pos(t, x) as int;
        let r = t.insert(k, x);
        assert(r == uuid_sort(s));
        assert forall|i: int| 0 <= i < s.len() implies r.contains(#[trigger] s[i]) by {
            if i == s.len() - 1 {
                assert(r[k] == x);
            } else {
                assert(p[i] == s[i]);
                assert(t.contains(p[i]));
                let j = choose|j: int| 0 <= j < t.len() && t[j] == p[i];
                if j < k {
                    assert(r[j] == t[j]);
                } else {
                    assert(r[j + 1] == t[j]);
                }
            }
        }
        assert forall|i: int| 0 <= i < r.len() implies s.contains(#[trigger] r[i]) by {
            if i == k {
                assert(s[s.len() - 1] == x);
            } else {
                let j = if i < k {
                    i
                } else {
                    i - 1
                };
                assert(r[i] == t[j]);
                assert(p.contains(t[j]));
                let q = choose|q: int| 0 <= q < p.len() && p[q] == t[j];
                assert(s[q] == p[q]);
            }
        }
        if distinct_uuids(s) {
            assert forall|i: int, j: int| 0 <= i < j < p.len() implies (#[trigger] p[i]).uuid@
                != (#[trigger] p[j]).uuid@ by {
                assert(p[i] == s[i] && p[j] == s[j]);
            }
            assert forall|i: int, j: int| 0 <= i < j < r.len() implies (#[trigger] r[i]).uuid@
                != (#[trigger] r[j]).uuid@ by {
                if i == k || j == k {
                    let o = if i == k {
                        j
                    } else {
                        i
                    };
                    let jt = if o < k {
                        o
                    } else {
                        o - 1
                    };
                    assert(r[o] == t[jt]);
                    assert(p.contains(t[jt]));
                    let q = choose|q: int| 0 <= q < p.len() && p[q] == t[jt];
                    assert(s[q] == p[q]);
                    assert(s[q].uuid@ != s[s.len() - 1].uuid@);
                } else {
                    let it = if i < k {
                        i
                    } else {
                        i - 1
                    };
                    let jt = if j < k {
                        j
                    } else {
                        j - 1
                    };
                    assert(r[i] == t[it] && r[j] == t[jt]);
                    assert(it < jt);
                }
            }
        }
    }
}

/// Filtering keeps uuids distinct.
proof fn lemma_filter_keeps_distinct_uuids(s: Seq<Agent>, f: spec_fn(Agent) -> bool)
    requires
        distinct_uuids(s),
    ensures
        distinct_uuids(s.filter(f)),
    decreases s.len(),
{
    reveal(Seq::filter);
    if s.len() > 0 {
        let p = s.drop_last();
        assert forall|i: int, j: int| 0 <= i < j < p.len() implies (#[trigger] p[i]).uuid@
            != (#[trigger] p[j]).uuid@ by {
            assert(p[i] == s[i] && p[j] == s[j]);
        }
        lemma_filter_keeps_distinct_uuids(p, f);
        let sub = p.filter(f);
        if f(s.last()) {
            let r = sub.push(s.last());
            assert(s.filter(f) == r);
            assert forall|i: int, j: int| 0 <= i < j < r.len() implies (#[trigger] r[i]).uuid@
                != (#[trigger] r[j]).uuid@ by {
                if j == r.len() - 1 {
                    assert(r[i] == sub[i]);
                    assert(sub.contains(sub[i]));
                    p.lemma_filter_contains_rev(f, sub[i]);
                    let q = choose|q: int| 0 <= q < p.len() && p[q] == sub[i];
                    assert(s[q] == p[q]);
                } else {
                    assert(r[i] == sub[i] && r[j] == sub[j]);
                }
            }
        } else {
            assert(s.filter(f) == sub);
        }
    }
}

/// Where a dormant agent stands in uuid order.
pub open spec fn dormant_index(v: ModelView, u: Seq<char>) -> int {
    find_index(spec_dormant_agents(v), agent_with_uuid(u))
}

/// A dormant agent's row stands where its entry stands in the sorted
/// dormant block.
proof fn lemma_dormant_row_index(v: ModelView, a: Agent)
    requires
        distinct_uuids(v.agents),
        v.agents.contains(a),
        spec_is_dormant(v, a),
    ensures
        0 <= dormant_index(v, a.uuid@) < spec_dormant_agents(v).len(),
        spec_dormant_agents(v)[dormant_index(v, a.uuid@)] == a,
        distinct_uuids(spec_dormant_agents(v)),
        uuid_sorted(spec_dormant_agents(v)),
        spec_dormant_agents(v).len() <= v.agents.len(),
        v.tabs.len() <= row_index(spec_rows(v), RowKeyView::Dormant(a.uuid@)) < spec_rows(v).len(),
        rank_sort(spec_dormant_entries(v))[row_index(spec_rows(v), RowKeyView::Dormant(a.uuid@))
            - v.tabs.len()] == spec_dormant_entries(v)[dormant_index(v, a.uuid@)],
{
    let f = v.agents.filter(is_dormant_in(v));
    let d = spec_dormant_agents(v);
    lemma_filter_keeps_distinct_uuids(v.agents, is_dormant_in(v));
    lemma_uuid_sort(f);
    v.agents.lemma_filter_len(is_dormant_in(v));
    let ia = choose|ia: int| 0 <= ia < v.agents.len() && v.agents[ia] == a;
    v.agents.lemma_filter_contains(is_dormant_in(v), ia);
    let k = choose|k: int| 0 <= k < f.len() && f[k] == a;
    assert(d.contains(f[k]));
    let da = choose|da: int| 0 <= da < d.len() && d[da] == a;
    lemma_any_at(d, agent_with_uuid(a.uuid@), da);
    lemma_find_some(d, agent_with_uuid(a.uuid@));
    let di = dormant_index(v, a.uuid@);
    if di < da {
        assert(d[di].uuid@ != d[da].uuid@);
    } else if da < di {
        assert(d[da].uuid@ != d[di].uuid@);
    }
    let l = spec_live_entries(v);
    let dd = spec_dormant_entries(v);
    let r = rank_sort(dd);
    let key = RowKeyView::Dormant(a.uuid@);
    let e = dd[di];
    assert(e.2 == key);
    lemma_rank_sort(l);
    lemma_rank_sort(dd);
    lemma_live_rows_come_first(v);
    // Every entry of the sorted block keyed by the agent is the agent's entry.
    assert forall|j: int| 0 <= j < r.len() && (#[trigger] r[j]).2 == key implies r[j] == e by {
        lemma_rank_sort_member(dd, j);
        let i2 = choose|i2: int| 0 <= i2 < dd.len() && dd[i2] == r[j];
        assert(d[i2].uuid@ == a.uuid@);
        if i2 < di {
            assert(d[i2].uuid@ != d[di].uuid@);
        } else if di < i2 {
            assert(d[di].uuid@ != d[i2].uuid@);
        }
    }
    assert(dd.contains(e));
    assert(dd.to_multiset().count(e) > 0);
    assert(r.to_multiset().count(e) > 0);
    assert(r.contains(e));
    let j0 = choose|j0: int| 0 <= j0 < r.len() && r[j0] == e;
    let rows = spec_rows(v);
    let n = v.tabs.len() as int;
    let cat = rank_sort(l) + r;
    assert(cat[n + j0] == e);
    assert(rows[n + j0].0 == key);
    lemma_any_at(rows, row_keyed(key), n + j0);
    lemma_find_some(rows, row_keyed(key));
    let js = row_index(rows, key);
    assert(rows[js].0 == key);
    if js < n {
        assert(rows[js].0 is Tab);
    }
    assert(rows[js].0 == cat[js].2);
    assert(cat[js] == r[js - n]);
}

/// Two dormant rows stand in ranking order, and their places in uuid order
/// follow their uuids.
proof fn lemma_dormant_rows_in_rank_order(v: ModelView, a: Agent, b: Agent)
    requires
        distinct_uuids(v.agents),
        v.agents.len() <= usize::MAX,
        v.agents.contains(a),
        v.agents.contains(b),
        a.uuid@ != b.uuid@,
        spec_is_dormant(v, a),
        spec_is_dormant(v, b),
    ensures
        (row_index(spec_rows(v), RowKeyView::Dormant(a.uuid@)) < row_index(
            spec_rows(v),
            RowKeyView::Dormant(b.uuid@),
        )) == ranks_before(
            spec_dormant_entries(v)[dormant_index(v, a.uuid@)],
            spec_dormant_entries(v)[dormant_index(v, b.uuid@)],
        ),
        (dormant_index(v, a.uuid@) < dormant_index(v, b.uuid@)) == lex_lt(a.uuid@, b.uuid@),
        dormant_index(v, a.uuid@) != dormant_index(v, b.uuid@),
        spec_dormant_entries(v)[dormant_index(v, a.uuid@)].0 == spec_dormant_key(v, a),
        spec_dormant_entries(v)[dormant_index(v, a.uuid@)].1 == usize::MAX - dormant_index(
            v,
            a.uuid@,
        ),
        spec_dormant_entries(v)[dormant_index(v, b.uuid@)].0 == spec_dormant_key(v, b),
        spec_dormant_entries(v)[dormant_index(v, b.uuid@)].1 == usize::MAX - dormant_index(
            v,
            b.uuid@,
        ),
{
    let d = spec_dormant_agents(v);
    let dd = spec_dormant_entries(v);
    let r = rank_sort(dd);
    lemma_dormant_row_index(v, a);
    lemma_dormant_row_index(v, b);
    lemma_rank_sort(dd);
    lemma_live_rows_come_first(v);
    assert(dd.len() == d.len());
    let ia = dormant_index(v, a.uuid@);
    let ib = dormant_index(v, b.uuid@);
    let n = v.tabs.len() as int;
    let ja = row_index(spec_rows(v), RowKeyView::Dormant(a.uuid@)) - n;
    let jb = row_index(spec_rows(v), RowKeyView::Dormant(b.uuid@)) - n;
    let ea = dd[ia];
    let eb = dd[ib];
    assert(ia != ib);
    assert(ea.1 != eb.1);
    assert(ea.2 != eb.2);
    assert(ja != jb);
    if ja < jb {
        assert(!ranks_before(r[jb], r[ja]));
    } else {
        assert(!ranks_before(r[ja], r[jb]));
        lemma_ranks_before_strict(ea, eb, ea);
    }
    lemma_lex_lt_total_order(a.uuid@, b.uuid@, a.uuid@);
    if ia < ib {
        assert(!lex_lt(d[ib].uuid@, d[ia].uuid@));
    } else {
        assert(!lex_lt(d[ia].uuid@, d[ib].uuid@));
    }
}

/// Closing a tab never reorders the dormant rows either: two rows dormant
/// before and after a tab frame keep their order, the frame leaving every
/// ranking key and the uuid order as they were.
pub proof fn law_a_close_keeps_the_dormant_order(
    m: BarModel,
    tabs: Seq<TabMeta>,
    claims: Seq<usize>,
    a: Agent,
    b: Agent,
)
    requires
        distinct_uuids(m@.agents),
        m@.agents.len() <= usize::MAX,
        m@.agents.contains(a),
        m@.agents.contains(b),
        a.uuid@ != b.uuid@,
        spec_is_dormant(m@, a),
        spec_is_dormant(m@, b),
        spec_is_dormant(spec_apply_tabs(m@, tabs, claims).0, a),
        spec_is_dormant(spec_apply_tabs(m@, tabs, claims).0, b),
    ensures
        (row_index(spec_rows(m@), RowKeyView::Dormant(a.uuid@)) < row_index(
            spec_rows(m@),
            RowKeyView::Dormant(b.uuid@),
        )) == (row_index(
            spec_rows(spec_apply_tabs(m@, tabs, claims).0),
            RowKeyView::Dormant(a.uuid@),
        ) < row_index(
            spec_rows(spec_apply_tabs(m@, tabs, claims).0),
            RowKeyView::Dormant(b.uuid@),
        )),
{
    let v = m@;
    let w = spec_apply_tabs(v, tabs, claims).0;
    lemma_frames_keep_the_tables(v, tabs, claims, Seq::empty());
    assert(w.agents == v.agents);
    lemma_dormant_rows_in_rank_order(v, a, b);
    lemma_dormant_rows_in_rank_order(w, a, b);
    lemma_keys_follow_the_tables(v, w, v.tabs[0], a);
    lemma_keys_follow_the_tables(v, w, v.tabs[0], b);
    let ev_a = spec_dormant_entries(v)[dormant_index(v, a.uuid@)];
    let ev_b = spec_dormant_entries(v)[dormant_index(v, b.uuid@)];
    let ew_a = spec_dormant_entries(w)[dormant_index(w, a.uuid@)];
    let ew_b = spec_dormant_entries(w)[dormant_index(w, b.uuid@)];
    assert(ev_a.0 == ew_a.0 && ev_b.0 == ew_b.0);
    assert((ev_a.1 < ev_b.1) == (ew_a.1 < ew_b.1));
    assert(ranks_before(ev_a, ev_b) == ranks_before(ew_a, ew_b));
}

/// Two agents that differ at most in their status.
pub open spec fn same_but_status(a: Agent, b: Agent) -> bool {
    Agent { status: b.status, ..a } == b
}

/// Two agent tables that differ at most in their agents' statuses.
pub open spec fn same_but_statuses(s1: Seq<Agent>, s2: Seq<Agent>) -> bool {
    s1.len() == s2.len() && forall|i: int|
        0 <= i < s1.len() ==> same_but_status(#[trigger] s1[i], s2[i])
}

/// First-match search answers alike over two runs that the predicates
/// judge alike, element by element.
proof fn lemma_find_index_alike<A, B>(
    s1: Seq<A>,
    p1: spec_fn(A) -> bool,
    s2: Seq<B>,
    p2: spec_fn(B) -> bool,
)
    requires
        s1.len() == s2.len(),
        forall|i: int| 0 <= i < s1.len() ==> p1(#[trigger] s1[i]) == p2(s2[i]),
    ensures
        find_index(s1, p1) == find_index(s2, p2),
        any(s1, p1) == any(s2, p2),
{
    lemma_find_iff(s1, p1);
    lemma_find_iff(s2, p2);
    if any(s1, p1) {
        lemma_find_some(s1, p1);
        let k = find_index(s1, p1);
        assert forall|j: int| 0 <= j < k implies !p2(#[trigger] s2[j]) by {
            assert(!p1(s1[j]));
        }
        lemma_find_at(s2, p2, k);
        lemma_any_at(s2, p2, k);
    } else {
        lemma_not_any(s1, p1);
        assert forall|j: int| 0 <= j < s2.len() implies !p2(#[trigger] s2[j]) by {
            assert(!p1(s1[j]));
        }
        lemma_find_none(s1, p1);
        lemma_find_none(s2, p2);
    }
}

/// Statuses never re-rank, and neither does focus: two snapshots that
/// differ only in their agents' statuses leave every row with the same
/// ranking key, and a beacon or a visit leaves the keys as they were.
pub proof fn law_statuses_and_focus_never_rerank(
    m: BarModel,
    s1: AgentSnapshot,
    s2: AgentSnapshot,
    t: TabMeta,
    i: int,
    tab_id: usize,
)
    requires
        s1.seq == s2.seq,
        s1.order == s2.order,
        s1.tab_order@ == s2.tab_order@,
        s1.tab_frecency@ == s2.tab_frecency@,
        same_but_statuses(s1.agents@, s2.agents@),
        0 <= i < s1.agents@.len(),
    ensures
        spec_live_key(spec_apply_snapshot(m@, s1).0, t) == spec_live_key(
            spec_apply_snapshot(m@, s2).0,
            t,
        ),
        spec_dormant_key(spec_apply_snapshot(m@, s1).0, s1.agents@[i]) == spec_dormant_key(
            spec_apply_snapshot(m@, s2).0,
            s2.agents@[i],
        ),
        spec_live_key(crate::model::spec_beacon(m@, tab_id), t) == spec_live_key(m@, t),
        spec_live_key(crate::model::spec_visited(m@, tab_id).0, t) == spec_live_key(m@, t),
        forall|a: Agent|
            spec_dormant_key(#[trigger] crate::model::spec_beacon(m@, tab_id), a) == spec_dormant_key(
                m@,
                a,
            ) && spec_dormant_key(crate::model::spec_visited(m@, tab_id).0, a) == spec_dormant_key(
                m@,
                a,
            ),
{
    let v = m@;
    let w1 = spec_apply_snapshot(v, s1).0;
    let w2 = spec_apply_snapshot(v, s2).0;
    if s1.seq > v.seq {
        assert(w1.agents == s1.agents@);
        assert(w2.agents == s2.agents@);
        assert(w1.order == w2.order && w1.tab_order == w2.tab_order && w1.tab_frecency
            == w2.tab_frecency);
        let p = crate::model::bound_to(t.tab_id);
        lemma_find_index_alike(w1.agents, p, w2.agents, p);
        lemma_find_iff(w1.agents, p);
        lemma_find_iff(w2.agents, p);
        if any(w1.agents, p) {
            lemma_find_some(w1.agents, p);
            lemma_find_some(w2.agents, p);
            let k = find_index(w1.agents, p);
            assert(same_but_status(w1.agents[k], w2.agents[k]));
        }
        assert(same_but_status(s1.agents@[i], s2.agents@[i]));
    }
    lemma_keys_follow_the_tables(crate::model::spec_beacon(v, tab_id), v, t, s1.agents@[i]);
    lemma_keys_follow_the_tables(crate::model::spec_visited(v, tab_id).0, v, t, s1.agents@[i]);
    assert forall|a: Agent|
        spec_dormant_key(#[trigger] crate::model::spec_beacon(v, tab_id), a) == spec_dormant_key(v, a)
            && spec_dormant_key(crate::model::spec_visited(v, tab_id).0, a) == spec_dormant_key(v, a) by {
        lemma_keys_follow_the_tables(crate::model::spec_beacon(v, tab_id), v, t, a);
        lemma_keys_follow_the_tables(crate::model::spec_visited(v, tab_id).0, v, t, a);
    }
}

/// The birth announce: a bar that has not announced yet announces the
/// first active tab of a frame (unless the beacon already names it), takes
/// the beacon there, spends the claim and clears any pending Alt+o; a frame
/// with no active tab announces nothing and keeps the claim for a later
/// frame.
pub proof fn law_the_birth_announce_waits_for_an_active_tab(
    m: BarModel,
    tabs: Seq<TabMeta>,
    claims: Seq<usize>,
)
    requires
        !m@.birth_announced,
    ensures
        match crate::model::spec_active_tab_id(ModelView { tabs, ..m@ }) {
            Some(act) => {
                &&& spec_apply_tabs(m@, tabs, claims).0.birth_announced
                &&& !spec_apply_tabs(m@, tabs, claims).0.organic_pending
                &&& spec_apply_tabs(m@, tabs, claims).0.current_tab == Some(act)
                &&& (m@.current_tab != Some(act) ==> spec_apply_tabs(m@, tabs, claims).1.len() > 0
                    && spec_apply_tabs(m@, tabs, claims).1[0] == EffectView::AnnounceVisit {
                    tab_id: act,
                })
            },
            None => {
                &&& !spec_apply_tabs(m@, tabs, claims).0.birth_announced
                &&& !announces(spec_apply_tabs(m@, tabs, claims).1)
            },
        },
{
    let v1 = ModelView { tabs, witnessed_dead: claims, ..m@ };
    assert(crate::model::spec_active_tab_id(v1) == crate::model::spec_active_tab_id(
        ModelView { tabs, ..m@ },
    ));
    let stranded = spec_beacon_stranded(v1);
    let (v2, fx) = spec_announce(v1, stranded);
    let v3 = ModelView { reanchor_owed: spec_beacon_stranded(v2), ..v2 };
    let (v4, fx2) = spec_mark_read(v3, fx);
    assert(v4.birth_announced == v2.birth_announced && v4.current_tab == v2.current_tab
        && v4.organic_pending == v2.organic_pending);
    assert(fx2.len() >= fx.len());
    assert(forall|i: int| 0 <= i < fx.len() ==> (#[trigger] fx2[i]) == fx[i]);
    assert(forall|i: int| fx.len() <= i < fx2.len() ==> (#[trigger] fx2[i]) is MarkRead);
    if crate::model::spec_active_tab_id(v1) is None {
        assert(fx.len() == 0);
        assert(!announces(fx2));
    }
}

/// The uuid of the Done agent in a state's first active tab, if there is
/// one: the row that focus marks read.
pub open spec fn done_in_focus(v: ModelView) -> Option<Seq<char>> {
    match find(v.tabs, tab_is_active()) {
        Some(t) => match spec_agent_in_tab(v, t.tab_id) {
            Some(a) => if a.status == Status::Done {
                Some(a.uuid@)
            } else {
                None
            },
            None => None,
        },
        None => None,
    }
}

/// The effects mark `u` read.
pub open spec fn marks_read(fx: Seq<EffectView>, u: Seq<char>) -> bool {
    exists|i: int| 0 <= i < fx.len() && (#[trigger] fx[i]) == EffectView::MarkRead { uuid: u }
}

/// A row is marked read once: a tab frame marks the Done agent of its
/// active tab read exactly when this bar has not read it yet, and nothing
/// else; afterwards that agent is read, and a frame never un-reads anyone.
pub proof fn law_a_done_row_is_marked_read_once(
    m: BarModel,
    tabs: Seq<TabMeta>,
    claims: Seq<usize>,
    u: Seq<char>,
)
    ensures
        marks_read(spec_apply_tabs(m@, tabs, claims).1, u) == (done_in_focus(
            ModelView { tabs, ..m@ },
        ) == Some(u) && !has_str(m@.read_locally, u)),
        done_in_focus(ModelView { tabs, ..m@ }) == Some(u) ==> has_str(
            spec_apply_tabs(m@, tabs, claims).0.read_locally,
            u,
        ),
        has_str(m@.read_locally, u) ==> has_str(spec_apply_tabs(m@, tabs, claims).0.read_locally, u),
{
    lemma_marked_read_once(m@, tabs, claims, u);
}

/// The frame step behind the law above, over any state.
proof fn lemma_marked_read_once(
    v: ModelView,
    tabs: Seq<TabMeta>,
    claims: Seq<usize>,
    u: Seq<char>,
)
    ensures
        marks_read(spec_apply_tabs(v, tabs, claims).1, u) == (done_in_focus(
            ModelView { tabs, ..v },
        ) == Some(u) && !has_str(v.read_locally, u)),
        done_in_focus(ModelView { tabs, ..v }) == Some(u) ==> has_str(
            spec_apply_tabs(v, tabs, claims).0.read_locally,
            u,
        ),
        has_str(v.read_locally, u) ==> has_str(spec_apply_tabs(v, tabs, claims).0.read_locally, u),
{
    let v1 = ModelView { tabs, witnessed_dead: claims, ..v };
    let stranded = spec_beacon_stranded(v1);
    let (v2, fx) = spec_announce(v1, stranded);
    let v3 = ModelView { reanchor_owed: spec_beacon_stranded(v2), ..v2 };
    let (v4, fx2) = spec_mark_read(v3, fx);
    let w = spec_apply_tabs(v, tabs, claims).0;
    assert(w.read_locally == v4.read_locally);
    assert(v3.read_locally == v.read_locally && v3.tabs == tabs && v3.agents == v.agents);
    assert(done_in_focus(v3) == done_in_focus(ModelView { tabs, ..v }));
    assert(forall|i: int| 0 <= i < fx.len() ==> !((#[trigger] fx[i]) is MarkRead));
    match find(v3.tabs, tab_is_active()) {
        Some(t) => match spec_agent_in_tab(v3, t.tab_id) {
            Some(a) => {
                if a.status == Status::Done && !has_str(v3.read_locally, a.uuid@) {
                    let n = v3.read_locally.len() as int;
                    assert(v4.read_locally[n]@ == a.uuid@);
                    assert(fx2[fx.len() as int] == EffectView::MarkRead { uuid: a.uuid@ });
                    if has_str(v.read_locally, u) {
                        let k = choose|k: int|
                            0 <= k < v.read_locally.len() && (#[trigger] v.read_locally[k])@ == u;
                        assert(v4.read_locally[k]@ == u);
                    }
                    if marks_read(fx2, u) {
                        let k = choose|k: int|
                            0 <= k < fx2.len() && (#[trigger] fx2[k]) == EffectView::MarkRead {
                                uuid: u,
                            };
                        if k < fx.len() {
                            assert(fx2[k] == fx[k]);
                        }
                    }
                } else {
                    if marks_read(fx2, u) {
                        let k = choose|k: int|
                            0 <= k < fx2.len() && (#[trigger] fx2[k]) == EffectView::MarkRead {
                                uuid: u,
                            };
                    }
                }
            },
            None => {
                if marks_read(fx2, u) {
                    let k = choose|k: int|
                        0 <= k < fx2.len() && (#[trigger] fx2[k]) == EffectView::MarkRead {
                            uuid: u,
                        };
                }
            },
        },
        None => {
            if marks_read(fx2, u) {
                let k = choose|k: int|
                    0 <= k < fx2.len() && (#[trigger] fx2[k]) == EffectView::MarkRead { uuid: u };
            }
        },
    }
}

/// A string survives dropping `k` only when it is not `k` and was there.
proof fn lemma_has_without(s: Seq<String>, k: Seq<char>, x: Seq<char>)
    ensures
        has_str(without_str(s, k), x) ==> x != k && has_str(s, x),
{
    if has_str(without_str(s, k), x) {
        let f = without_str(s, k);
        let i = choose|i: int| 0 <= i < f.len() && (#[trigger] f[i])@ == x;
        s.lemma_filter_pred(text_ne(k), i);
        assert(f.contains(f[i]));
        s.lemma_filter_contains_rev(text_ne(k), f[i]);
        let j = choose|j: int| 0 <= j < s.len() && s[j] == f[i];
        assert(s[j]@ == x);
    }
}

/// After the rename bookkeeping, a uuid still read is one no row of the
/// run shows other than Done.
proof fn lemma_renames_keep_only_done_reads(
    agents: Seq<Agent>,
    renamed: Seq<(String, String)>,
    read: Seq<String>,
    fx: Seq<EffectView>,
    x: Seq<char>,
)
    ensures
        has_str(spec_renames(agents, renamed, read, fx).1, x) ==> has_str(read, x) && forall|j: int|
            0 <= j < agents.len() && (#[trigger] agents[j]).uuid@ == x ==> agents[j].status
                == Status::Done,
    decreases agents.len(),
{
    if agents.len() > 0 {
        let (r, d, f) = spec_renames(agents.drop_last(), renamed, read, fx);
        lemma_renames_keep_only_done_reads(agents.drop_last(), renamed, read, fx, x);
        let a = agents.last();
        if a.status != Status::Done {
            lemma_has_without(d, a.uuid@, x);
        }
        if has_str(spec_renames(agents, renamed, read, fx).1, x) {
            assert forall|j: int|
                0 <= j < agents.len() && (#[trigger] agents[j]).uuid@ == x implies agents[j].status
                == Status::Done by {
                if j < agents.len() - 1 {
                    assert(agents.drop_last()[j] == agents[j]);
                }
            }
        }
    }
}

/// A read mark lasts until the store shows the row other than Done: an
/// accepted snapshot in which some row with the uuid is not Done clears
/// it, and so the next time that row is Done in focus it is marked again.
pub proof fn law_a_read_mark_lasts_until_the_row_leaves_done(
    m: BarModel,
    snap: AgentSnapshot,
    u: Seq<char>,
    i: int,
)
    requires
        snap.seq > m@.seq,
        0 <= i < snap.agents@.len(),
        snap.agents@[i].uuid@ == u,
        snap.agents@[i].status != Status::Done,
    ensures
        !has_str(spec_apply_snapshot(m@, snap).0.read_locally, u),
{
    let v1 = crate::model::spec_replace_tables(m@, snap);
    let (v2, fx) = crate::model::spec_collapse_ledger(v1, snap.collapsed);
    assert(v2.agents == snap.agents@);
    lemma_renames_keep_only_done_reads(v2.agents, v2.renamed, v2.read_locally, fx, u);
}

/// The effects hold a bind of `u` to `own_tab`.
pub open spec fn binds(fx: Seq<EffectView>, u: Seq<char>, own_tab: usize) -> bool {
    exists|i: int|
        0 <= i < fx.len() && (#[trigger] fx[i]) == EffectView::Bind { uuid: u, tab_id: own_tab }
}

/// A bind spends one try of its episode: a pass binds a row only when its
/// ledger allows it (no record for our tab yet, or a strictly newer store
/// seq than the last send with tries left under the cap), and afterwards the
/// ledger records the send at the current seq with one more try, never more
/// than the cap. So no two binds go out at one seq, and an episode binds at
/// most `BIND_MAX_TRIES` times until the store confirms or the row leaves.
pub proof fn law_a_bind_spends_one_try(m: BarModel, own_tab: usize, u: Seq<char>)
    requires
        binds(spec_bind_effects(m@, own_tab).1, u, own_tab),
    ensures
        spec_may_send(lookup_str(m@.bind_sent, u), own_tab, m@.seq).0,
        lookup_str(spec_bind_effects(m@, own_tab).0.bind_sent, u) == Some(
            crate::model::BindSent {
                tab_id: own_tab,
                at_seq: m@.seq,
                tries: (spec_may_send(lookup_str(m@.bind_sent, u), own_tab, m@.seq).1 + 1) as u32,
                confirms: 0,
            },
        ),
        spec_may_send(lookup_str(m@.bind_sent, u), own_tab, m@.seq).1 + 1
            <= crate::model::BIND_MAX_TRIES,
{
    lemma_bind_spends_one_try(m@, own_tab, u);
}

/// The pass step behind the law above, over any state.
proof fn lemma_bind_spends_one_try(v: ModelView, own_tab: usize, u: Seq<char>)
    requires
        binds(spec_bind_effects(v, own_tab).1, u, own_tab),
    ensures
        spec_may_send(lookup_str(v.bind_sent, u), own_tab, v.seq).0,
        lookup_str(spec_bind_effects(v, own_tab).0.bind_sent, u) == Some(
            crate::model::BindSent {
                tab_id: own_tab,
                at_seq: v.seq,
                tries: (spec_may_send(lookup_str(v.bind_sent, u), own_tab, v.seq).1 + 1) as u32,
                confirms: 0,
            },
        ),
        spec_may_send(lookup_str(v.bind_sent, u), own_tab, v.seq).1 + 1
            <= crate::model::BIND_MAX_TRIES,
{
    reveal(spec_bind_effects);
    if !spec_frames_coherent(v) {
        assert(spec_bind_effects(v, own_tab).1.len() == 0);
    }
    let pos = spec_position_of(v, own_tab);
    let sc1 = spec_bind_scan(v, own_tab, pos, v.agents);
    lemma_scan_binds(v, own_tab, pos, v.agents);
    let fx = spec_bind_effects(v, own_tab).1;
    assert(fx == sc1.out);
    let i = choose|i: int|
        0 <= i < fx.len() && (#[trigger] fx[i]) == EffectView::Bind { uuid: u, tab_id: own_tab };
    assert(bind_decided(v, own_tab, v.agents, fx[i]));
    assert(records(sc1.sent, u));
    let k = choose|k: int|
        0 <= k < v.agents.len() && (#[trigger] v.agents[k]).uuid@ == u && spec_may_send(
            lookup_str(v.bind_sent, v.agents[k].uuid@),
            own_tab,
            v.seq,
        ).0;
    let base = ledger_confirm_all(
        ledger_reset_all(ledger_remove_all(v.bind_sent, sc1.clear), sc1.diverged),
        sc1.confirmed,
        v.seq,
    );
    lemma_lookup_after_records(base, sc1.sent, u);
    let jj = choose|jj: int|
        0 <= jj < sc1.sent.len() && (#[trigger] sc1.sent[jj]).0@ == u && lookup_str(
            ledger_insert_all(base, sc1.sent),
            u,
        ) == Some(sc1.sent[jj].1);
    assert(send_recorded(v, own_tab, v.agents, sc1.sent[jj]));
    let ins = ledger_insert_all(base, sc1.sent);
    assert forall|q: int| 0 <= q < ins.len() && (#[trigger] ins[q]).0@ == u implies entry_known(
        v.agents,
    )(ins[q]) by {
        lemma_any_at(v.agents, agent_with_uuid(u), k);
    }
    lemma_lookup_after_filter(ins, entry_known(v.agents), u);
}

/// Only the bind pass writes the bind ledger: snapshots, tab frames and
/// pane manifests leave every row's tries as they were, so the cap a pass
/// enforces holds across any run of them.
pub proof fn law_only_the_bind_pass_writes_the_ledger(
    m: BarModel,
    snap: AgentSnapshot,
    tabs: Seq<TabMeta>,
    claims: Seq<usize>,
    panes: Seq<PaneMeta>,
)
    ensures
        spec_apply_snapshot(m@, snap).0.bind_sent == m@.bind_sent,
        spec_apply_tabs(m@, tabs, claims).0.bind_sent == m@.bind_sent,
        spec_apply_panes(m@, panes).0.bind_sent == m@.bind_sent,
{
}

/// What one pass's lists hold: each cleared uuid belongs to a row whose
/// pane is not here, each confirmed one to a row bound to our tab, and
/// each record to a bind the pass emitted.
proof fn lemma_scan_lists(v: ModelView, own_tab: usize, own_position: Option<usize>, agents: Seq<Agent>)
    ensures
        forall|j: int|
            0 <= j < spec_bind_scan(v, own_tab, own_position, agents).clear.len() ==> exists|k: int|
                0 <= k < agents.len() && (#[trigger] agents[k]).uuid@ == (#[trigger] spec_bind_scan(
                    v,
                    own_tab,
                    own_position,
                    agents,
                ).clear[j])@ && !spec_joined_here(v, agents[k], own_position),
        forall|j: int|
            0 <= j < spec_bind_scan(v, own_tab, own_position, agents).confirmed.len() ==> exists|
                k: int,
            |
                0 <= k < agents.len() && (#[trigger] agents[k]).uuid@ == (#[trigger] spec_bind_scan(
                    v,
                    own_tab,
                    own_position,
                    agents,
                ).confirmed[j])@ && agents[k].tab_id == Some(own_tab),
        forall|j: int|
            0 <= j < spec_bind_scan(v, own_tab, own_position, agents).sent.len() ==> binds(
                spec_bind_scan(v, own_tab, own_position, agents).out,
                (#[trigger] spec_bind_scan(v, own_tab, own_position, agents).sent[j]).0@,
                own_tab,
            ),
    decreases agents.len(),
{
    if agents.len() > 0 {
        let rest = agents.drop_last();
        lemma_scan_lists(v, own_tab, own_position, rest);
        let sc = spec_bind_scan(v, own_tab, own_position, rest);
        let sc2 = spec_bind_scan(v, own_tab, own_position, agents);
        let n = agents.len() - 1;
        assert(agents[n] == agents.last());
        assert forall|j: int| 0 <= j < sc2.clear.len() implies exists|k: int|
            0 <= k < agents.len() && (#[trigger] agents[k]).uuid@ == (#[trigger] sc2.clear[j])@
                && !spec_joined_here(v, agents[k], own_position) by {
            if j < sc.clear.len() {
                assert(sc2.clear[j] == sc.clear[j]);
                let k = choose|k: int|
                    0 <= k < rest.len() && (#[trigger] rest[k]).uuid@ == (#[trigger] sc.clear[j])@
                        && !spec_joined_here(v, rest[k], own_position);
                assert(agents[k] == rest[k]);
            } else {
                assert(agents[n].uuid@ == sc2.clear[j]@);
            }
        }
        assert forall|j: int| 0 <= j < sc2.confirmed.len() implies exists|k: int|
            0 <= k < agents.len() && (#[trigger] agents[k]).uuid@ == (#[trigger] sc2.confirmed[j])@
                && agents[k].tab_id == Some(own_tab) by {
            if j < sc.confirmed.len() {
                assert(sc2.confirmed[j] == sc.confirmed[j]);
                let k = choose|k: int|
                    0 <= k < rest.len() && (#[trigger] rest[k]).uuid@ == (
                    #[trigger] sc.confirmed[j])@ && rest[k].tab_id == Some(own_tab);
                assert(agents[k] == rest[k]);
            } else {
                assert(agents[n].uuid@ == sc2.confirmed[j]@);
            }
        }
        assert forall|j: int| 0 <= j < sc2.sent.len() implies binds(
            sc2.out,
            (#[trigger] sc2.sent[j]).0@,
            own_tab,
        ) by {
            if j < sc.sent.len() {
                assert(sc2.sent[j] == sc.sent[j]);
                assert(binds(sc.out, sc.sent[j].0@, own_tab));
                let i = choose|i: int|
                    0 <= i < sc.out.len() && (#[trigger] sc.out[i]) == EffectView::Bind {
                        uuid: sc.sent[j].0@,
                        tab_id: own_tab,
                    };
                assert(sc2.out[i] == sc.out[i]);
            } else {
                let i = sc2.out.len() - 1;
                assert(sc2.out[i] == EffectView::Bind { uuid: sc2.sent[j].0@, tab_id: own_tab });
            }
        }
    }
}

/// Rewriting one entry's record under the same key changes what that key
/// looks up to when it is the key's first entry, and nothing else.
proof fn lemma_lookup_after_rewrite(l: Seq<(String, BindSent)>, i: int, r: BindSent, u: Seq<char>)
    requires
        0 <= i < l.len(),
    ensures
        lookup_str(l.update(i, (l[i].0, r)), u) == (if find_index(l, key_str::<BindSent>(u)) == i {
            Some(r)
        } else {
            lookup_str(l, u)
        }),
{
    let p = key_str::<BindSent>(u);
    let l2 = l.update(i, (l[i].0, r));
    lemma_find_index_alike(l, p, l2, p);
    lemma_find_iff(l, p);
    lemma_find_iff(l2, p);
    if any(l, p) {
        lemma_find_some(l, p);
        lemma_find_some(l2, p);
    } else {
        lemma_find_iff(l2, p);
    }
}

/// Dropping an entry of another key leaves what `u` looks up to.
proof fn lemma_lookup_after_drop(l: Seq<(String, BindSent)>, i: int, u: Seq<char>)
    requires
        0 <= i < l.len(),
        l[i].0@ != u,
    ensures
        lookup_str(l.remove(i), u) == lookup_str(l, u),
{
    let p = key_str::<BindSent>(u);
    let l2 = l.remove(i);
    lemma_find_iff(l, p);
    if any(l, p) {
        lemma_find_some(l, p);
        let f = find_index(l, p);
        if f < i {
            assert forall|j: int| 0 <= j < f implies !p(#[trigger] l2[j]) by {
                assert(l2[j] == l[j]);
            }
            lemma_find_at(l2, p, f);
        } else {
            assert(f > i);
            assert(l2[f - 1] == l[f]);
            assert forall|j: int| 0 <= j < f - 1 implies !p(#[trigger] l2[j]) by {
                if j < i {
                    assert(l2[j] == l[j]);
                } else {
                    assert(l2[j] == l[j + 1]);
                }
            }
            lemma_find_at(l2, p, f - 1);
        }
    } else {
        lemma_not_any(l, p);
        assert forall|j: int| 0 <= j < l2.len() implies !p(#[trigger] l2[j]) by {
            if j < i {
                assert(l2[j] == l[j]);
            } else {
                assert(l2[j] == l[j + 1]);
            }
        }
        lemma_find_none(l2, p);
    }
}

/// A record with its run of confirmations reset.
pub open spec fn reset_record(o: Option<BindSent>) -> Option<BindSent> {
    match o {
        Some(r) => Some(BindSent { confirms: 0, ..r }),
        None => None,
    }
}

/// Resetting the confirmations of one uuid's entry.
proof fn lemma_lookup_after_reset_one(l: Seq<(String, BindSent)>, k: Seq<char>, u: Seq<char>)
    ensures
        lookup_str(ledger_reset_one(l, k), u) == if k == u {
            reset_record(lookup_str(l, u))
        } else {
            lookup_str(l, u)
        },
{
    let i = find_index(l, key_str::<BindSent>(k));
    lemma_find_iff(l, key_str::<BindSent>(k));
    lemma_find_iff(l, key_str::<BindSent>(u));
    if i >= 0 {
        lemma_find_some(l, key_str::<BindSent>(k));
        lemma_lookup_after_rewrite(l, i, BindSent { confirms: 0, ..l[i].1 }, u);
        if k != u && find_index(l, key_str::<BindSent>(u)) == i {
            lemma_find_some(l, key_str::<BindSent>(u));
        }
        if k == u {
            lemma_find_some(l, key_str::<BindSent>(u));
        }
    }
}

/// Resetting the confirmations of a run of uuids.
proof fn lemma_lookup_after_reset_all(l: Seq<(String, BindSent)>, keys: Seq<String>, u: Seq<char>)
    ensures
        lookup_str(crate::model::ledger_reset_all(l, keys), u) == if has_str(keys, u) {
            reset_record(lookup_str(l, u))
        } else {
            lookup_str(l, u)
        },
    decreases keys.len(),
{
    if keys.len() > 0 {
        let rest = keys.drop_last();
        lemma_lookup_after_reset_all(l, rest, u);
        lemma_lookup_after_reset_one(crate::model::ledger_reset_all(l, rest), keys.last()@, u);
        if has_str(keys, u) && !has_str(rest, u) {
            let j = choose|j: int| 0 <= j < keys.len() && (#[trigger] keys[j])@ == u;
            if j < rest.len() {
                assert(rest[j] == keys[j]);
            }
        }
        if has_str(rest, u) {
            let j = choose|j: int| 0 <= j < rest.len() && (#[trigger] rest[j])@ == u;
            assert(keys[j] == rest[j]);
        }
    }
}

/// Confirming a run of other uuids leaves `u`'s entry.
proof fn lemma_lookup_after_confirm_all(
    l: Seq<(String, BindSent)>,
    keys: Seq<String>,
    seq: u64,
    u: Seq<char>,
)
    requires
        !has_str(keys, u),
    ensures
        lookup_str(crate::model::ledger_confirm_all(l, keys, seq), u) == lookup_str(l, u),
    decreases keys.len(),
{
    if keys.len() > 0 {
        let rest = keys.drop_last();
        assert(!has_str(rest, u)) by {
            if has_str(rest, u) {
                let j = choose|j: int| 0 <= j < rest.len() && (#[trigger] rest[j])@ == u;
                assert(keys[j] == rest[j]);
            }
        }
        lemma_lookup_after_confirm_all(l, rest, seq, u);
        let m = crate::model::ledger_confirm_all(l, rest, seq);
        let k = keys.last()@;
        assert(k != u) by {
            assert(keys[keys.len() - 1]@ == k);
        }
        let i = find_index(m, key_str::<BindSent>(k));
        lemma_find_iff(m, key_str::<BindSent>(k));
        if i >= 0 {
            lemma_find_some(m, key_str::<BindSent>(k));
            let r = m[i].1;
            let r1 = if seq > r.at_seq {
                BindSent {
                    at_seq: seq,
                    confirms: if r.confirms < u32::MAX {
                        (r.confirms + 1) as u32
                    } else {
                        r.confirms
                    },
                    ..r
                }
            } else {
                r
            };
            if r1.confirms >= crate::model::BIND_CONFIRMS_TO_RESET {
                lemma_lookup_after_drop(m, i, u);
            } else {
                lemma_lookup_after_rewrite(m, i, r1, u);
                if find_index(m, key_str::<BindSent>(u)) == i {
                    lemma_find_iff(m, key_str::<BindSent>(u));
                    lemma_find_some(m, key_str::<BindSent>(u));
                }
            }
        }
    }
}

/// Dropping the entries of other uuids leaves `u`'s entry.
proof fn lemma_lookup_after_remove_all(l: Seq<(String, BindSent)>, keys: Seq<String>, u: Seq<char>)
    requires
        !has_str(keys, u),
    ensures
        lookup_str(crate::model::ledger_remove_all(l, keys), u) == lookup_str(l, u),
    decreases keys.len(),
{
    if keys.len() > 0 {
        let rest = keys.drop_last();
        assert(!has_str(rest, u)) by {
            if has_str(rest, u) {
                let j = choose|j: int| 0 <= j < rest.len() && (#[trigger] rest[j])@ == u;
                assert(keys[j] == rest[j]);
            }
        }
        lemma_lookup_after_remove_all(l, rest, u);
        let m = crate::model::ledger_remove_all(l, rest);
        assert(keys[keys.len() - 1]@ != u);
        lemma_lookup_after_filter(m, crate::model::entry_not(keys.last()@), u);
    }
}

/// Recording sends for other uuids leaves `u`'s entry.
proof fn lemma_lookup_after_other_records(
    l: Seq<(String, BindSent)>,
    sent: Seq<(String, BindSent)>,
    u: Seq<char>,
)
    requires
        !records(sent, u),
    ensures
        lookup_str(ledger_insert_all(l, sent), u) == lookup_str(l, u),
    decreases sent.len(),
{
    if sent.len() > 0 {
        let rest = sent.drop_last();
        assert(!records(rest, u)) by {
            if records(rest, u) {
                let j = choose|j: int| 0 <= j < rest.len() && (#[trigger] rest[j]).0@ == u;
                assert(sent[j] == rest[j]);
            }
        }
        lemma_lookup_after_other_records(l, rest, u);
        assert(sent[sent.len() - 1].0@ != u);
        lemma_lookup_after_insert(ledger_insert_all(l, rest), sent.last().0, sent.last().1, u);
    }
}

/// The tries spent on a uuid's episode for our tab.
pub open spec fn tries_for(l: Seq<(String, BindSent)>, u: Seq<char>, own_tab: usize) -> nat {
    match lookup_str(l, u) {
        Some(r) => if r.tab_id == own_tab {
            r.tries as nat
        } else {
            0
        },
        None => 0,
    }
}

/// An episode binds at most `BIND_MAX_TRIES` times: while a row's pane sits
/// in our tab and the store does not bind it there, every bind pass leaves
/// the episode's record on our tab, and its tries grow by exactly the
/// binds the pass emitted for the row, never past the cap. Since the other
/// inputs never touch the ledger, the tries count every bind of the row
/// since the episode began.
pub proof fn law_an_episode_binds_at_most_the_cap(m: BarModel, own_tab: usize, u: Seq<char>)
    requires
        spec_frames_coherent(m@),
        exists|k: int| 0 <= k < m@.agents.len() && (#[trigger] m@.agents[k]).uuid@ == u,
        forall|k: int|
            0 <= k < m@.agents.len() && (#[trigger] m@.agents[k]).uuid@ == u ==> spec_joined_here(
                m@,
                m@.agents[k],
                spec_position_of(m@, own_tab),
            ) && m@.agents[k].tab_id != Some(own_tab),
        tries_for(m@.bind_sent, u, own_tab) <= BIND_MAX_TRIES,
    ensures
        lookup_str(spec_bind_effects(m@, own_tab).0.bind_sent, u) matches Some(r) && r.tab_id
            == own_tab,
        tries_for(spec_bind_effects(m@, own_tab).0.bind_sent, u, own_tab) == tries_for(
            m@.bind_sent,
            u,
            own_tab,
        ) + if binds(spec_bind_effects(m@, own_tab).1, u, own_tab) {
            1nat
        } else {
            0nat
        },
        tries_for(spec_bind_effects(m@, own_tab).0.bind_sent, u, own_tab) <= BIND_MAX_TRIES,
{
    lemma_episode_step(m@, own_tab, u);
}

/// The pass step behind the law above, over any state.
proof fn lemma_episode_step(v: ModelView, own_tab: usize, u: Seq<char>)
    requires
        spec_frames_coherent(v),
        exists|k: int| 0 <= k < v.agents.len() && (#[trigger] v.agents[k]).uuid@ == u,
        forall|k: int|
            0 <= k < v.agents.len() && (#[trigger] v.agents[k]).uuid@ == u ==> spec_joined_here(
                v,
                v.agents[k],
                spec_position_of(v, own_tab),
            ) && v.agents[k].tab_id != Some(own_tab),
        tries_for(v.bind_sent, u, own_tab) <= BIND_MAX_TRIES,
    ensures
        lookup_str(spec_bind_effects(v, own_tab).0.bind_sent, u) matches Some(r) && r.tab_id
            == own_tab,
        tries_for(spec_bind_effects(v, own_tab).0.bind_sent, u, own_tab) == tries_for(
            v.bind_sent,
            u,
            own_tab,
        ) + if binds(spec_bind_effects(v, own_tab).1, u, own_tab) {
            1nat
        } else {
            0nat
        },
        tries_for(spec_bind_effects(v, own_tab).0.bind_sent, u, own_tab) <= BIND_MAX_TRIES,
{
    reveal(spec_bind_effects);
    let pos = spec_position_of(v, own_tab);
    let sc = spec_bind_scan(v, own_tab, pos, v.agents);
    lemma_scan_binds(v, own_tab, pos, v.agents);
    lemma_scan_lists(v, own_tab, pos, v.agents);
    let k0 = choose|k: int| 0 <= k < v.agents.len() && (#[trigger] v.agents[k]).uuid@ == u;
    let fx = spec_bind_effects(v, own_tab).1;
    assert(fx == sc.out);
    let w = spec_bind_effects(v, own_tab).0;
    assert(w.bind_sent == spec_ledger_after(v, sc));
    if binds(fx, u, own_tab) {
        lemma_bind_spends_one_try(v, own_tab, u);
    } else {
        // No bind for the row: its record is not among the sends, and it is
        // neither cleared nor confirmed.
        assert(!records(sc.sent, u)) by {
            if records(sc.sent, u) {
                let j = choose|j: int| 0 <= j < sc.sent.len() && (#[trigger] sc.sent[j]).0@ == u;
                assert(binds(sc.out, sc.sent[j].0@, own_tab));
            }
        }
        assert(!has_str(sc.clear, u)) by {
            if has_str(sc.clear, u) {
                let j = choose|j: int| 0 <= j < sc.clear.len() && (#[trigger] sc.clear[j])@ == u;
                let k = choose|k: int|
                    0 <= k < v.agents.len() && (#[trigger] v.agents[k]).uuid@ == (
                    #[trigger] sc.clear[j])@ && !spec_joined_here(v, v.agents[k], pos);
            }
        }
        assert(!has_str(sc.confirmed, u)) by {
            if has_str(sc.confirmed, u) {
                let j = choose|j: int|
                    0 <= j < sc.confirmed.len() && (#[trigger] sc.confirmed[j])@ == u;
                let k = choose|k: int|
                    0 <= k < v.agents.len() && (#[trigger] v.agents[k]).uuid@ == (
                    #[trigger] sc.confirmed[j])@ && v.agents[k].tab_id == Some(own_tab);
            }
        }
        // The row was joined here and diverged, yet the pass did not send:
        // its record says our tab with tries already spent up to now.
        let prev = lookup_str(v.bind_sent, u);
        assert(!spec_may_send(prev, own_tab, v.seq).0) by {
            if spec_may_send(prev, own_tab, v.seq).0 {
                lemma_scan_may_send_binds(v, own_tab, pos, v.agents, k0);
            }
        }
        let l1 = crate::model::ledger_remove_all(v.bind_sent, sc.clear);
        lemma_lookup_after_remove_all(v.bind_sent, sc.clear, u);
        let l2 = crate::model::ledger_reset_all(l1, sc.diverged);
        lemma_lookup_after_reset_all(l1, sc.diverged, u);
        let l3 = ledger_confirm_all(l2, sc.confirmed, v.seq);
        lemma_lookup_after_confirm_all(l2, sc.confirmed, v.seq, u);
        let l4 = ledger_insert_all(l3, sc.sent);
        lemma_lookup_after_other_records(l3, sc.sent, u);
        assert forall|q: int| 0 <= q < l4.len() && (#[trigger] l4[q]).0@ == u implies entry_known(
            v.agents,
        )(l4[q]) by {
            lemma_any_at(v.agents, agent_with_uuid(u), k0);
        }
        lemma_lookup_after_filter(l4, entry_known(v.agents), u);
    }
}

/// A row joined here and diverged makes the pass bind it whenever its
/// ledger allows a send.
proof fn lemma_scan_may_send_binds(
    v: ModelView,
    own_tab: usize,
    own_position: Option<usize>,
    agents: Seq<Agent>,
    k: int,
)
    requires
        0 <= k < agents.len(),
        spec_joined_here(v, agents[k], own_position),
        agents[k].tab_id != Some(own_tab),
        spec_may_send(lookup_str(v.bind_sent, agents[k].uuid@), own_tab, v.seq).0,
    ensures
        binds(spec_bind_scan(v, own_tab, own_position, agents).out, agents[k].uuid@, own_tab),
    decreases agents.len(),
{
    let rest = agents.drop_last();
    let sc = spec_bind_scan(v, own_tab, own_position, rest);
    let sc2 = spec_bind_scan(v, own_tab, own_position, agents);
    if k == agents.len() - 1 {
        let i = sc2.out.len() - 1;
        assert(sc2.out[i] == EffectView::Bind { uuid: agents[k].uuid@, tab_id: own_tab });
    } else {
        assert(rest[k] == agents[k]);
        lemma_scan_may_send_binds(v, own_tab, own_position, rest, k);
        let i = choose|i: int|
            0 <= i < sc.out.len() && (#[trigger] sc.out[i]) == EffectView::Bind {
                uuid: agents[k].uuid@,
                tab_id: own_tab,
            };
        assert(sc2.out[i] == sc.out[i]);
    }
}

/// Two ranked rows agree on all the order reads: key, tiebreak and row key.
pub open spec fn same_rank(a: RankedView, b: RankedView) -> bool {
    a.0 == b.0 && a.1 == b.1 && a.2 == b.2
}

/// Two runs of ranked rows agree row by row on all the order reads.
pub open spec fn same_ranks(s1: Seq<RankedView>, s2: Seq<RankedView>) -> bool {
    s1.len() == s2.len() && forall|i: int| 0 <= i < s1.len() ==> same_rank(#[trigger] s1[i], s2[i])
}

/// Where a row goes in a run reads only the order.
proof fn lemma_rank_pos_same(t1: Seq<RankedView>, e1: RankedView, t2: Seq<RankedView>, e2: RankedView)
    requires
        same_ranks(t1, t2),
        same_rank(e1, e2),
    ensures
        rank_pos(t1, e1) == rank_pos(t2, e2),
    decreases t1.len(),
{
    if t1.len() > 0 {
        assert(same_rank(t1[0], t2[0]));
        assert(ranks_before(e1, t1[0]) == ranks_before(e2, t2[0]));
        let r1 = t1.drop_first();
        let r2 = t2.drop_first();
        assert forall|i: int| 0 <= i < r1.len() implies same_rank(#[trigger] r1[i], r2[i]) by {
            assert(same_rank(t1[i + 1], t2[i + 1]));
        }
        lemma_rank_pos_same(r1, e1, r2, e2);
    }
}

/// The stable sort reads only the order: runs that agree on it sort alike.
proof fn lemma_rank_sort_same(s1: Seq<RankedView>, s2: Seq<RankedView>)
    requires
        same_ranks(s1, s2),
    ensures
        same_ranks(rank_sort(s1), rank_sort(s2)),
    decreases s1.len(),
{
    if s1.len() > 0 {
        let p1 = s1.drop_last();
        let p2 = s2.drop_last();
        assert forall|i: int| 0 <= i < p1.len() implies same_rank(#[trigger] p1[i], p2[i]) by {
            assert(same_rank(s1[i], s2[i]));
        }
        lemma_rank_sort_same(p1, p2);
        let t1 = rank_sort(p1);
        let t2 = rank_sort(p2);
        lemma_rank_sort(p1);
        lemma_rank_sort(p2);
        assert(same_rank(s1.last(), s2.last()));
        lemma_rank_pos_same(t1, s1.last(), t2, s2.last());
        lemma_rank_pos_bound(t1, s1.last());
        let k = rank_pos(t1, s1.last()) as int;
        let u1 = t1.insert(k, s1.last());
        let u2 = t2.insert(k, s2.last());
        assert forall|i: int| 0 <= i < u1.len() implies same_rank(#[trigger] u1[i], u2[i]) by {
            if i < k {
                assert(same_rank(t1[i], t2[i]));
            } else if i > k {
                assert(same_rank(t1[i - 1], t2[i - 1]));
            }
        }
    }
}

/// Where an agent goes in a run sorted by uuid reads only uuids.
proof fn lemma_uuid_pos_same(t1: Seq<Agent>, a1: Agent, t2: Seq<Agent>, a2: Agent)
    requires
        same_but_statuses(t1, t2),
        same_but_status(a1, a2),
    ensures
        uuid_pos(t1, a1) == uuid_pos(t2, a2),
    decreases t1.len(),
{
    if t1.len() > 0 {
        assert(same_but_status(t1[0], t2[0]));
        let r1 = t1.drop_first();
        let r2 = t2.drop_first();
        assert forall|i: int| 0 <= i < r1.len() implies same_but_status(#[trigger] r1[i], r2[i]) by {
            assert(same_but_status(t1[i + 1], t2[i + 1]));
        }
        lemma_uuid_pos_same(r1, a1, r2, a2);
    }
}

/// The uuid sort reads only uuids.
proof fn lemma_uuid_sort_same(s1: Seq<Agent>, s2: Seq<Agent>)
    requires
        same_but_statuses(s1, s2),
    ensures
        same_but_statuses(uuid_sort(s1), uuid_sort(s2)),
    decreases s1.len(),
{
    if s1.len() > 0 {
        let p1 = s1.drop_last();
        let p2 = s2.drop_last();
        assert forall|i: int| 0 <= i < p1.len() implies same_but_status(#[trigger] p1[i], p2[i]) by {
            assert(same_but_status(s1[i], s2[i]));
        }
        lemma_uuid_sort_same(p1, p2);
        let t1 = uuid_sort(p1);
        let t2 = uuid_sort(p2);
        lemma_uuid_sort(p1);
        lemma_uuid_sort(p2);
        assert(same_but_status(s1.last(), s2.last()));
        lemma_uuid_pos_same(t1, s1.last(), t2, s2.last());
        lemma_uuid_pos_bound(t1, s1.last());
        let k = uuid_pos(t1, s1.last()) as int;
        let u1 = t1.insert(k, s1.last());
        let u2 = t2.insert(k, s2.last());
        assert forall|i: int| 0 <= i < u1.len() implies same_but_status(#[trigger] u1[i], u2[i]) by {
            if i < k {
                assert(same_but_status(t1[i], t2[i]));
            } else if i > k {
                assert(same_but_status(t1[i - 1], t2[i - 1]));
            }
        }
    }
}

/// Filtering by a test that judges related agents alike keeps the runs
/// related.
proof fn lemma_filter_same(
    s1: Seq<Agent>,
    s2: Seq<Agent>,
    f1: spec_fn(Agent) -> bool,
    f2: spec_fn(Agent) -> bool,
)
    requires
        same_but_statuses(s1, s2),
        forall|i: int| 0 <= i < s1.len() ==> f1(#[trigger] s1[i]) == f2(s2[i]),
    ensures
        same_but_statuses(s1.filter(f1), s2.filter(f2)),
    decreases s1.len(),
{
    reveal(Seq::filter);
    if s1.len() > 0 {
        let p1 = s1.drop_last();
        let p2 = s2.drop_last();
        assert forall|i: int| 0 <= i < p1.len() implies same_but_status(#[trigger] p1[i], p2[i]) by {
            assert(same_but_status(s1[i], s2[i]));
        }
        assert forall|i: int| 0 <= i < p1.len() implies f1(#[trigger] p1[i]) == f2(p2[i]) by {
            assert(f1(s1[i]) == f2(s2[i]));
        }
        lemma_filter_same(p1, p2, f1, f2);
        assert(same_but_status(s1.last(), s2.last()));
        assert(f1(s1[s1.len() - 1]) == f2(s2[s2.len() - 1]));
        let q1 = p1.filter(f1);
        let q2 = p2.filter(f2);
        if f1(s1.last()) {
            let r1 = q1.push(s1.last());
            let r2 = q2.push(s2.last());
            assert(s1.filter(f1) == r1);
            assert(s2.filter(f2) == r2);
            assert forall|i: int| 0 <= i < r1.len() implies same_but_status(#[trigger] r1[i], r2[i]) by {
                if i < q1.len() {
                    assert(same_but_status(q1[i], q2[i]));
                }
            }
        } else {
            assert(s1.filter(f1) == q1);
            assert(s2.filter(f2) == q2);
        }
    }
}

/// Two states that the row order cannot tell apart: the same tabs at the
/// same positions (whichever is active), the same panes and registrations,
/// the same ranking tables, and agents that differ only in status.
pub open spec fn order_alike(v1: ModelView, v2: ModelView) -> bool {
    &&& v1.tabs.len() == v2.tabs.len()
    &&& forall|i: int|
        0 <= i < v1.tabs.len() ==> (#[trigger] v1.tabs[i]).tab_id == v2.tabs[i].tab_id
            && v1.tabs[i].position == v2.tabs[i].position
    &&& v1.panes == v2.panes
    &&& v1.uuid_to_pane == v2.uuid_to_pane
    &&& v1.order == v2.order
    &&& v1.tab_order == v2.tab_order
    &&& v1.tab_frecency == v2.tab_frecency
    &&& same_but_statuses(v1.agents, v2.agents)
}

/// Related states bind the same agent, up to its status, to each tab.
proof fn lemma_agent_in_tab_same(v1: ModelView, v2: ModelView, id: usize)
    requires
        same_but_statuses(v1.agents, v2.agents),
    ensures
        spec_agent_in_tab(v1, id) is Some == spec_agent_in_tab(v2, id) is Some,
        spec_agent_in_tab(v1, id) is Some ==> same_but_status(
            spec_agent_in_tab(v1, id)->0,
            spec_agent_in_tab(v2, id)->0,
        ),
{
    let p = crate::model::bound_to(id);
    assert forall|i: int| 0 <= i < v1.agents.len() implies p(#[trigger] v1.agents[i]) == p(
        v2.agents[i],
    ) by {
        assert(same_but_status(v1.agents[i], v2.agents[i]));
    }
    lemma_find_index_alike(v1.agents, p, v2.agents, p);
    lemma_find_iff(v1.agents, p);
    lemma_find_iff(v2.agents, p);
    if any(v1.agents, p) {
        lemma_find_some(v1.agents, p);
        lemma_find_some(v2.agents, p);
        let k = find_index(v1.agents, p);
        assert(same_but_status(v1.agents[k], v2.agents[k]));
    }
}

/// Neither focus nor status moves a row: states that differ only in which
/// tab is active, in the beacon and the selection, and in the agents'
/// statuses list the same rows in the same order.
pub proof fn law_focus_and_status_never_reorder(m1: BarModel, m2: BarModel)
    requires
        order_alike(m1@, m2@),
    ensures
        spec_rows(m1@).map_values(|r: (RowKeyView, RowView)| r.0) == spec_rows(m2@).map_values(
            |r: (RowKeyView, RowView)| r.0,
        ),
{
    let v1 = m1@;
    let v2 = m2@;
    // The live block.
    let l1 = spec_live_entries(v1);
    let l2 = spec_live_entries(v2);
    assert forall|i: int| 0 <= i < l1.len() implies same_rank(#[trigger] l1[i], l2[i]) by {
        let t1 = v1.tabs[i];
        let t2 = v2.tabs[i];
        lemma_agent_in_tab_same(v1, v2, t1.tab_id);
    }
    lemma_rank_sort_same(l1, l2);
    // The dormant block.
    let f1 = v1.agents.filter(is_dormant_in(v1));
    let f2 = v2.agents.filter(is_dormant_in(v2));
    assert forall|i: int| 0 <= i < v1.agents.len() implies is_dormant_in(v1)(
        #[trigger] v1.agents[i],
    ) == is_dormant_in(v2)(v2.agents[i]) by {
        let a1 = v1.agents[i];
        let a2 = v2.agents[i];
        assert(same_but_status(a1, a2));
        match a1.tab_id {
            Some(id) => {
                let p = crate::model::tab_with_id(id);
                assert forall|j: int| 0 <= j < v1.tabs.len() implies p(#[trigger] v1.tabs[j]) == p(
                    v2.tabs[j],
                ) by {}
                lemma_find_index_alike(v1.tabs, p, v2.tabs, p);
            },
            None => {},
        }
    }
    lemma_filter_same(v1.agents, v2.agents, is_dormant_in(v1), is_dormant_in(v2));
    lemma_uuid_sort_same(f1, f2);
    let d1 = spec_dormant_entries(v1);
    let d2 = spec_dormant_entries(v2);
    let da1 = spec_dormant_agents(v1);
    let da2 = spec_dormant_agents(v2);
    assert forall|i: int| 0 <= i < d1.len() implies same_rank(#[trigger] d1[i], d2[i]) by {
        assert(same_but_status(da1[i], da2[i]));
    }
    lemma_rank_sort_same(d1, d2);
    lemma_rank_sort(l1);
    lemma_rank_sort(l2);
    lemma_rank_sort(d1);
    lemma_rank_sort(d2);
    let c1 = rank_sort(l1) + rank_sort(d1);
    let c2 = rank_sort(l2) + rank_sort(d2);
    assert forall|i: int| 0 <= i < c1.len() implies (#[trigger] c1[i]).2 == c2[i].2 by {
        if i < rank_sort(l1).len() {
            assert(same_rank(rank_sort(l1)[i], rank_sort(l2)[i]));
        } else {
            let j = i - rank_sort(l1).len();
            assert(same_rank(rank_sort(d1)[j], rank_sort(d2)[j]));
        }
    }
    assert(spec_rows(v1).map_values(|r: (RowKeyView, RowView)| r.0) =~= spec_rows(v2).map_values(
        |r: (RowKeyView, RowView)| r.0,
    ));
}

/// One input to the bar, as a run of the bind leg sees it.
pub ghost enum BarStep {
    /// A bind pass of this instance.
    BindPass,
    /// A store snapshot.
    Snapshot(AgentSnapshot),
    /// A tab frame and the death claims it leaves.
    Tabs(Seq<TabMeta>, Seq<usize>),
    /// A pane manifest.
    Panes(Seq<PaneMeta>),
}

/// One step of a run.
pub open spec fn bar_step(v: ModelView, own_tab: usize, s: BarStep) -> (ModelView, Seq<EffectView>) {
    match s {
        BarStep::BindPass => spec_bind_effects(v, own_tab),
        BarStep::Snapshot(snap) => spec_apply_snapshot(v, snap),
        BarStep::Tabs(tabs, claims) => spec_apply_tabs(v, tabs, claims),
        BarStep::Panes(panes) => spec_apply_panes(v, panes),
    }
}

/// The state after a run of steps.
pub open spec fn run_state(v: ModelView, own_tab: usize, steps: Seq<BarStep>) -> ModelView
    decreases steps.len(),
{
    if steps.len() == 0 {
        v
    } else {
        bar_step(run_state(v, own_tab, steps.drop_last()), own_tab, steps.last()).0
    }
}

/// How many steps of a run bind `u` to our tab.
pub open spec fn run_binds(v: ModelView, own_tab: usize, steps: Seq<BarStep>, u: Seq<char>) -> nat
    decreases steps.len(),
{
    if steps.len() == 0 {
        0
    } else {
        run_binds(v, own_tab, steps.drop_last(), u) + if binds(
            bar_step(run_state(v, own_tab, steps.drop_last()), own_tab, steps.last()).1,
            u,
            own_tab,
        ) {
            1nat
        } else {
            0nat
        }
    }
}

/// The row keyed `u` sits in our tab but the store binds it elsewhere.
pub open spec fn diverged_here(v: ModelView, own_tab: usize, u: Seq<char>) -> bool {
    &&& spec_frames_coherent(v)
    &&& exists|k: int| 0 <= k < v.agents.len() && (#[trigger] v.agents[k]).uuid@ == u
    &&& forall|k: int|
        0 <= k < v.agents.len() && (#[trigger] v.agents[k]).uuid@ == u ==> spec_joined_here(
            v,
            v.agents[k],
            spec_position_of(v, own_tab),
        ) && v.agents[k].tab_id != Some(own_tab)
}

/// An episode binds at most `BIND_MAX_TRIES` times over a whole run: from
/// a state with no tries spent on `u` for our tab, through any run of bind
/// passes, snapshots, tab frames and pane manifests in which every bind
/// pass finds `u`'s pane in our tab and the store binding it elsewhere, the
/// run emits exactly as many binds of `u` as the ledger counts, and never
/// more than the cap.
pub proof fn law_an_unwinnable_bind_stops_at_the_cap(
    m: BarModel,
    own_tab: usize,
    u: Seq<char>,
    steps: Seq<BarStep>,
)
    requires
        tries_for(m@.bind_sent, u, own_tab) == 0,
        forall|i: int|
            0 <= i < steps.len() && (#[trigger] steps[i]) is BindPass ==> diverged_here(
                run_state(m@, own_tab, steps.take(i)),
                own_tab,
                u,
            ),
    ensures
        run_binds(m@, own_tab, steps, u) == tries_for(run_state(m@, own_tab, steps).bind_sent, u, own_tab),
        run_binds(m@, own_tab, steps, u) <= BIND_MAX_TRIES,
{
    lemma_run_counts_tries(m@, own_tab, u, steps);
}

/// The run law by induction on the run.
#[verifier::spinoff_prover]
#[verifier::rlimit(40)]
proof fn lemma_run_counts_tries(v: ModelView, own_tab: usize, u: Seq<char>, steps: Seq<BarStep>)
    requires
        tries_for(v.bind_sent, u, own_tab) == 0,
        forall|i: int|
            0 <= i < steps.len() && (#[trigger] steps[i]) is BindPass ==> diverged_here(
                run_state(v, own_tab, steps.take(i)),
                own_tab,
                u,
            ),
    ensures
        run_binds(v, own_tab, steps, u) == tries_for(run_state(v, own_tab, steps).bind_sent, u, own_tab),
        run_binds(v, own_tab, steps, u) <= BIND_MAX_TRIES,
    decreases steps.len(),
{
    if steps.len() > 0 {
        let rest = steps.drop_last();
        assert forall|i: int|
            0 <= i < rest.len() && (#[trigger] rest[i]) is BindPass implies diverged_here(
            run_state(v, own_tab, rest.take(i)),
            own_tab,
            u,
        ) by {
            assert(steps[i] == rest[i]);
            assert(steps.take(i) =~= rest.take(i));
        }
        lemma_run_counts_tries(v, own_tab, u, rest);
        let w = run_state(v, own_tab, rest);
        let n = steps.len() - 1;
        assert(steps.take(n) =~= rest);
        match steps.last() {
            BarStep::BindPass => {
                assert(steps[n] is BindPass);
                assert(diverged_here(w, own_tab, u));
                lemma_episode_step(w, own_tab, u);
            },
            BarStep::Snapshot(snap) => {
                assert(spec_apply_snapshot(w, snap).0.bind_sent == w.bind_sent);
                assert(!binds(spec_apply_snapshot(w, snap).1, u, own_tab)) by {
                    lemma_no_binds_outside_the_pass_snapshot(w, snap, u, own_tab);
                }
            },
            BarStep::Tabs(tabs, claims) => {
                assert(spec_apply_tabs(w, tabs, claims).0.bind_sent == w.bind_sent);
                assert(!binds(spec_apply_tabs(w, tabs, claims).1, u, own_tab)) by {
                    lemma_no_binds_outside_the_pass_tabs(w, tabs, claims, u, own_tab);
                }
            },
            BarStep::Panes(panes) => {
                assert(spec_apply_panes(w, panes).0.bind_sent == w.bind_sent);
                assert(!binds(spec_apply_panes(w, panes).1, u, own_tab)) by {
                    lemma_no_binds_outside_the_pass_panes(w, panes, u, own_tab);
                }
            },
        }
    }
}

/// The rename bookkeeping only appends renames to the effects.
proof fn lemma_renames_only_rename(
    agents: Seq<Agent>,
    renamed: Seq<(String, String)>,
    read: Seq<String>,
    fx: Seq<EffectView>,
)
    ensures
        spec_renames(agents, renamed, read, fx).2.len() >= fx.len(),
        forall|i: int| 0 <= i < fx.len() ==> #[trigger] spec_renames(agents, renamed, read, fx).2[i] == fx[i],
        forall|i: int|
            fx.len() <= i < spec_renames(agents, renamed, read, fx).2.len() ==> (
            #[trigger] spec_renames(agents, renamed, read, fx).2[i]) is RenameTab,
    decreases agents.len(),
{
    if agents.len() > 0 {
        lemma_renames_only_rename(agents.drop_last(), renamed, read, fx);
    }
}

/// A snapshot emits no bind.
proof fn lemma_no_binds_outside_the_pass_snapshot(
    v: ModelView,
    snap: AgentSnapshot,
    u: Seq<char>,
    own_tab: usize,
)
    ensures
        !binds(spec_apply_snapshot(v, snap).1, u, own_tab),
{
    if snap.seq > v.seq {
        let v1 = crate::model::spec_replace_tables(v, snap);
        let (v2, fx) = crate::model::spec_collapse_ledger(v1, snap.collapsed);
        assert(forall|i: int| 0 <= i < fx.len() ==> (#[trigger] fx[i]) is PersistCollapse);
        lemma_renames_only_rename(v2.agents, v2.renamed, v2.read_locally, fx);
        let out = spec_apply_snapshot(v, snap).1;
        assert(out == spec_renames(v2.agents, v2.renamed, v2.read_locally, fx).2);
        if binds(out, u, own_tab) {
            let i = choose|i: int|
                0 <= i < out.len() && (#[trigger] out[i]) == EffectView::Bind { uuid: u, tab_id: own_tab };
            if i < fx.len() {
                assert(out[i] == fx[i]);
            }
        }
    }
}

/// A tab frame emits no bind.
#[verifier::spinoff_prover]
proof fn lemma_no_binds_outside_the_pass_tabs(
    v: ModelView,
    tabs: Seq<TabMeta>,
    claims: Seq<usize>,
    u: Seq<char>,
    own_tab: usize,
)
    ensures
        !binds(spec_apply_tabs(v, tabs, claims).1, u, own_tab),
{
    let v1 = ModelView { tabs, witnessed_dead: claims, ..v };
    lemma_after_frame_is_mark_read(v1);
    let out = spec_apply_tabs(v, tabs, claims).1;
    assert(out == crate::model::spec_after_frame(v1).1);
    if binds(out, u, own_tab) {
        let i = choose|i: int|
            0 <= i < out.len() && (#[trigger] out[i]) == EffectView::Bind { uuid: u, tab_id: own_tab };
        assert(!(out[i] is Bind));
    }
}

/// The effects of a tab frame are those of its beacon and unread steps.
proof fn lemma_after_frame_is_mark_read(v1: ModelView)
    ensures
        forall|i: int|
            0 <= i < crate::model::spec_after_frame(v1).1.len() ==> !((
            #[trigger] crate::model::spec_after_frame(v1).1[i]) is Bind),
{
    let stranded = spec_beacon_stranded(v1);
    let (v2, fx) = spec_announce(v1, stranded);
    let v3 = ModelView { reanchor_owed: spec_beacon_stranded(v2), ..v2 };
    let (v4, fx2) = spec_mark_read(v3, fx);
    assert(fx.len() <= 1);
    assert forall|i: int| 0 <= i < fx2.len() implies !((#[trigger] fx2[i]) is Bind) by {
        if i < fx.len() {
            assert(fx2[i] == fx[i]);
        }
    }
}

/// A pane manifest emits no bind.
proof fn lemma_no_binds_outside_the_pass_panes(v: ModelView, panes: Seq<PaneMeta>, u: Seq<char>, own_tab: usize)
    ensures
        !binds(spec_apply_panes(v, panes).1, u, own_tab),
{
    let out = spec_apply_panes(v, panes).1;
    assert(forall|i: int| 0 <= i < out.len() ==> (#[trigger] out[i]) is ReanchorVisit);
}

/// A frame on a bar that has announced announces nothing and keeps the
/// claim spent.
proof fn lemma_after_frame_keeps_birth(v1: ModelView)
    requires
        v1.birth_announced,
    ensures
        crate::model::spec_after_frame(v1).0.birth_announced,
        !announces(crate::model::spec_after_frame(v1).1),
{
    let stranded = spec_beacon_stranded(v1);
    let (v2, fx) = spec_announce(v1, stranded);
    let v3 = ModelView { reanchor_owed: spec_beacon_stranded(v2), ..v2 };
    let (v4, fx2) = spec_mark_read(v3, fx);
    assert(fx.len() <= 1);
    assert(forall|i: int| 0 <= i < fx.len() ==> !((#[trigger] fx[i]) is AnnounceVisit));
    assert forall|i: int| 0 <= i < fx2.len() implies !((#[trigger] fx2[i]) is AnnounceVisit) by {
        if i < fx.len() {
            assert(fx2[i] == fx[i]);
        }
    }
}

/// Any step on a bar that has announced announces nothing and keeps the
/// claim spent.
#[verifier::spinoff_prover]
#[verifier::rlimit(40)]
proof fn lemma_step_keeps_birth(v: ModelView, own_tab: usize, s: BarStep)
    requires
        v.birth_announced,
    ensures
        bar_step(v, own_tab, s).0.birth_announced,
        !announces(bar_step(v, own_tab, s).1),
{
    match s {
        BarStep::BindPass => {
            reveal(spec_bind_effects);
            if spec_frames_coherent(v) {
                let pos = spec_position_of(v, own_tab);
                lemma_scan_binds(v, own_tab, pos, v.agents);
                let out = spec_bind_scan(v, own_tab, pos, v.agents).out;
                assert(forall|i: int| 0 <= i < out.len() ==> bind_decided(v, own_tab, v.agents, #[trigger] out[i]));
            }
        },
        BarStep::Snapshot(snap) => {
            if snap.seq > v.seq {
                let v1 = crate::model::spec_replace_tables(v, snap);
                let (v2, fx) = crate::model::spec_collapse_ledger(v1, snap.collapsed);
                assert(forall|i: int| 0 <= i < fx.len() ==> (#[trigger] fx[i]) is PersistCollapse);
                lemma_renames_only_rename(v2.agents, v2.renamed, v2.read_locally, fx);
                let out = spec_apply_snapshot(v, snap).1;
                assert forall|i: int| 0 <= i < out.len() implies !((#[trigger] out[i]) is AnnounceVisit) by {
                    if i < fx.len() {
                        assert(out[i] == fx[i]);
                    }
                }
            }
        },
        BarStep::Tabs(tabs, claims) => {
            let v1 = ModelView { tabs, witnessed_dead: claims, ..v };
            lemma_after_frame_keeps_birth(v1);
        },
        BarStep::Panes(panes) => {
            let out = spec_apply_panes(v, panes).1;
            assert(forall|i: int| 0 <= i < out.len() ==> (#[trigger] out[i]) is ReanchorVisit);
        },
    }
}

/// The birth announce is spent for good: once a bar has announced, no
/// later input of any kind (bind pass, snapshot, tab frame, pane manifest)
/// announces again, and the claim stays spent.
pub proof fn law_the_birth_announce_is_spent_for_good(m: BarModel, own_tab: usize, steps: Seq<BarStep>)
    requires
        m@.birth_announced,
    ensures
        run_state(m@, own_tab, steps).birth_announced,
        forall|i: int|
            0 <= i < steps.len() ==> !announces(
                #[trigger] bar_step(run_state(m@, own_tab, steps.take(i)), own_tab, steps[i]).1,
            ),
{
    lemma_run_keeps_birth(m@, own_tab, steps);
}

/// The law above by induction on the run.
#[verifier::spinoff_prover]
#[verifier::rlimit(40)]
proof fn lemma_run_keeps_birth(v: ModelView, own_tab: usize, steps: Seq<BarStep>)
    requires
        v.birth_announced,
    ensures
        run_state(v, own_tab, steps).birth_announced,
        forall|i: int|
            0 <= i < steps.len() ==> !announces(
                #[trigger] bar_step(run_state(v, own_tab, steps.take(i)), own_tab, steps[i]).1,
            ),
    decreases steps.len(),
{
    if steps.len() > 0 {
        let rest = steps.drop_last();
        lemma_run_keeps_birth(v, own_tab, rest);
        let w = run_state(v, own_tab, rest);
        lemma_step_keeps_birth(w, own_tab, steps.last());
        assert forall|i: int| 0 <= i < steps.len() implies !announces(
            #[trigger] bar_step(run_state(v, own_tab, steps.take(i)), own_tab, steps[i]).1,
        ) by {
            if i < rest.len() {
                assert(steps[i] == rest[i]);
                assert(steps.take(i) =~= rest.take(i));
            } else {
                assert(steps.take(i) =~= rest);
            }
        }
    }
}

/// Dropping another string keeps a string.
proof fn lemma_has_after_without(s: Seq<String>, k: Seq<char>, x: Seq<char>)
    requires
        has_str(s, x),
        x != k,
    ensures
        has_str(without_str(s, k), x),
{
    let j = choose|j: int| 0 <= j < s.len() && (#[trigger] s[j])@ == x;
    s.lemma_filter_contains(text_ne(k), j);
    let f = without_str(s, k);
    let i = choose|i: int| 0 <= i < f.len() && f[i] == s[j];
    assert(f[i]@ == x);
}

/// The rename bookkeeping keeps a read uuid every row of which is Done.
proof fn lemma_renames_keep_done_reads(
    agents: Seq<Agent>,
    renamed: Seq<(String, String)>,
    read: Seq<String>,
    fx: Seq<EffectView>,
    x: Seq<char>,
)
    requires
        has_str(read, x),
        forall|j: int| 0 <= j < agents.len() && (#[trigger] agents[j]).uuid@ == x ==> agents[j].status
            == Status::Done,
    ensures
        has_str(spec_renames(agents, renamed, read, fx).1, x),
    decreases agents.len(),
{
    if agents.len() > 0 {
        let rest = agents.drop_last();
        assert forall|j: int| 0 <= j < rest.len() && (#[trigger] rest[j]).uuid@ == x implies rest[j].status
            == Status::Done by {
            assert(agents[j] == rest[j]);
        }
        lemma_renames_keep_done_reads(rest, renamed, read, fx, x);
        let (r, d, f) = spec_renames(rest, renamed, read, fx);
        let a = agents.last();
        assert(agents[agents.len() - 1] == a);
        if a.status != Status::Done {
            lemma_has_after_without(d, a.uuid@, x);
        }
    }
}

/// The store shows the row `u` as Done wherever it shows it (or the
/// snapshot is not accepted).
pub open spec fn keeps_done(v: ModelView, snap: AgentSnapshot, u: Seq<char>) -> bool {
    snap.seq <= v.seq || forall|j: int|
        0 <= j < snap.agents@.len() && (#[trigger] snap.agents@[j]).uuid@ == u ==> snap.agents@[j].status
            == Status::Done
}

/// One step on a bar that has read `u`: no mark for `u`, and `u` stays
/// read unless the step is a snapshot that shows it other than Done.
#[verifier::spinoff_prover]
#[verifier::rlimit(40)]
proof fn lemma_step_keeps_read(v: ModelView, own_tab: usize, s: BarStep, u: Seq<char>)
    requires
        has_str(v.read_locally, u),
        s matches BarStep::Snapshot(snap) ==> keeps_done(v, snap, u),
    ensures
        has_str(bar_step(v, own_tab, s).0.read_locally, u),
        !marks_read(bar_step(v, own_tab, s).1, u),
{
    match s {
        BarStep::BindPass => {
            reveal(spec_bind_effects);
            if spec_frames_coherent(v) {
                let pos = spec_position_of(v, own_tab);
                lemma_scan_binds(v, own_tab, pos, v.agents);
                let out = spec_bind_scan(v, own_tab, pos, v.agents).out;
                assert(forall|i: int| 0 <= i < out.len() ==> bind_decided(v, own_tab, v.agents, #[trigger] out[i]));
            }
        },
        BarStep::Snapshot(snap) => {
            if snap.seq > v.seq {
                let v1 = crate::model::spec_replace_tables(v, snap);
                let (v2, fx) = crate::model::spec_collapse_ledger(v1, snap.collapsed);
                assert(forall|i: int| 0 <= i < fx.len() ==> (#[trigger] fx[i]) is PersistCollapse);
                lemma_renames_only_rename(v2.agents, v2.renamed, v2.read_locally, fx);
                lemma_renames_keep_done_reads(v2.agents, v2.renamed, v2.read_locally, fx, u);
                let out = spec_apply_snapshot(v, snap).1;
                assert forall|i: int| 0 <= i < out.len() implies !((#[trigger] out[i]) is MarkRead) by {
                    if i < fx.len() {
                        assert(out[i] == fx[i]);
                    }
                }
            }
        },
        BarStep::Tabs(tabs, claims) => {
            lemma_marked_read_once(v, tabs, claims, u);
        },
        BarStep::Panes(panes) => {
            let out = spec_apply_panes(v, panes).1;
            assert(forall|i: int| 0 <= i < out.len() ==> (#[trigger] out[i]) is ReanchorVisit);
        },
    }
}

/// A read row stays read: once this bar has read `u`, no input of any kind
/// marks `u` read again, and `u` stays read, for as long as every accepted
/// snapshot shows the row Done.
pub proof fn law_a_read_row_is_never_marked_again(m: BarModel, own_tab: usize, steps: Seq<BarStep>, u: Seq<char>)
    requires
        has_str(m@.read_locally, u),
        forall|i: int|
            0 <= i < steps.len() ==> (#[trigger] steps[i] matches BarStep::Snapshot(snap) ==> keeps_done(
                run_state(m@, own_tab, steps.take(i)),
                snap,
                u,
            )),
    ensures
        has_str(run_state(m@, own_tab, steps).read_locally, u),
        forall|i: int|
            0 <= i < steps.len() ==> !marks_read(
                #[trigger] bar_step(run_state(m@, own_tab, steps.take(i)), own_tab, steps[i]).1,
                u,
            ),
{
    lemma_run_keeps_read(m@, own_tab, steps, u);
}

/// The law above by induction on the run.
#[verifier::spinoff_prover]
#[verifier::rlimit(40)]
proof fn lemma_run_keeps_read(v: ModelView, own_tab: usize, steps: Seq<BarStep>, u: Seq<char>)
    requires
        has_str(v.read_locally, u),
        forall|i: int|
            0 <= i < steps.len() ==> (#[trigger] steps[i] matches BarStep::Snapshot(snap) ==> keeps_done(
                run_state(v, own_tab, steps.take(i)),
                snap,
                u,
            )),
    ensures
        has_str(run_state(v, own_tab, steps).read_locally, u),
        forall|i: int|
            0 <= i < steps.len() ==> !marks_read(
                #[trigger] bar_step(run_state(v, own_tab, steps.take(i)), own_tab, steps[i]).1,
                u,
            ),
    decreases steps.len(),
{
    if steps.len() > 0 {
        let rest = steps.drop_last();
        let n = steps.len() - 1;
        assert forall|i: int|
            0 <= i < rest.len() implies (#[trigger] rest[i] matches BarStep::Snapshot(snap) ==> keeps_done(
            run_state(v, own_tab, rest.take(i)),
            snap,
            u,
        )) by {
            assert(steps[i] == rest[i]);
            assert(steps.take(i) =~= rest.take(i));
        }
        lemma_run_keeps_read(v, own_tab, rest, u);
        let w = run_state(v, own_tab, rest);
        assert(steps.take(n) =~= rest);
        assert(steps[n] == steps.last());
        lemma_step_keeps_read(w, own_tab, steps.last(), u);
        assert forall|i: int| 0 <= i < steps.len() implies !marks_read(
            #[trigger] bar_step(run_state(v, own_tab, steps.take(i)), own_tab, steps[i]).1,
            u,
        ) by {
            if i < rest.len() {
                assert(steps[i] == rest[i]);
                assert(steps.take(i) =~= rest.take(i));
            }
        }
    }
}

// ── what the checkout match, the shell test and the CLI lines are for ───────

/// The checkout a pane's working directory belongs to: the longest root
/// wins. When some agent's checkout (its worktree, else its repo root)
/// contains the directory, the chosen agent is one of the fleet's, its
/// checkout contains the directory, and no other containing checkout has a
/// longer root, so a worktree under the main checkout claims its own panes.
/// When no checkout contains it, none is chosen.
pub proof fn law_the_longest_checkout_claims_a_directory(agents: Seq<Agent>, cwd: Seq<char>)
    ensures
        match spec_checkout_in(agents, cwd) {
            Some(a) => {
                &&& agents.contains(a)
                &&& checkout_root(a).len() > 0
                &&& spec_within(cwd, checkout_root(a))
                &&& forall|j: int|
                    0 <= j < agents.len() && checkout_root(#[trigger] agents[j]).len() > 0
                        && spec_within(cwd, checkout_root(agents[j])) ==> utf8_len(
                        checkout_root(agents[j]),
                    ) <= utf8_len(checkout_root(a))
            },
            None => forall|j: int|
                0 <= j < agents.len() ==> !(checkout_root(#[trigger] agents[j]).len() > 0
                    && spec_within(cwd, checkout_root(agents[j]))),
        },
    decreases agents.len(),
{
    if agents.len() > 0 {
        let rest = agents.drop_last();
        law_the_longest_checkout_claims_a_directory(rest, cwd);
        let n = agents.len() - 1;
        assert(agents[n] == agents.last());
        assert forall|j: int| 0 <= j < rest.len() implies rest[j] == agents[j] by {}
        match spec_checkout_in(rest, cwd) {
            Some(b) => {
                let jb = choose|jb: int| 0 <= jb < rest.len() && rest[jb] == b;
                assert(agents[jb] == b);
            },
            None => {},
        }
        match spec_checkout_in(agents, cwd) {
            Some(a) => {
                if a == agents[n] {
                    assert(agents.contains(a));
                }
            },
            None => {},
        }
    }
}

/// The argv0 names that are a shell sitting at its prompt.
pub open spec fn shell_names() -> Seq<Seq<char>> {
    seq!["zsh"@, "bash"@, "fish"@, "sh"@, "dash"@, "nu"@, "ksh"@, "tcsh"@, "pwsh"@]
}

/// A shell at its prompt runs no command: whatever its arguments, a
/// foreground process whose program (path and login dash stripped) is one
/// of the shells displays nothing, so the row keeps its last real command
/// and reads idle.
pub proof fn law_a_shell_prompt_shows_no_command(argv: Seq<Seq<char>>)
    requires
        argv.len() > 0,
        shell_names().contains(spec_strip_dashes(spec_basename(argv[0]))),
    ensures
        spec_command_display(argv) is None,
{
    let b = spec_strip_dashes(spec_basename(argv[0]));
    let i = choose|i: int| 0 <= i < shell_names().len() && shell_names()[i] == b;
    assert(shell_names()[i] == b);
}

/// The bar's collapse write names the mode the user chose: the command is
/// the CLI's `collapse` with a third word that is `true` exactly when the
/// bar collapsed, so a collapse and an expand never write the same line.
pub proof fn law_a_collapse_write_names_the_mode(
    bin: Seq<char>,
    c: bool,
    display_cols: Option<usize>,
    collapsed: bool,
)
    ensures
        spec_command(bin, EffectView::PersistCollapse { collapsed: c }, display_cols, collapsed)
            matches Some(argv) && argv.len() == 3 && argv[0] == bin && argv[1] == "collapse"@ && (
        argv[2] == "true"@ <==> c) && (argv[2] == "false"@ <==> !c),
        spec_command(bin, EffectView::PersistCollapse { collapsed: c }, display_cols, collapsed)
            != spec_command(
            bin,
            EffectView::PersistCollapse { collapsed: !c },
            display_cols,
            collapsed,
        ),
{
    reveal_strlit("true");
    reveal_strlit("false");
    assert("true"@ != "false"@) by {
        assert("true"@.len() != "false"@.len());
    }
    let a = spec_command(bin, EffectView::PersistCollapse { collapsed: c }, display_cols, collapsed)->0;
    let b = spec_command(bin, EffectView::PersistCollapse { collapsed: !c }, display_cols, collapsed)->0;
    assert(a[2] != b[2]);
}

/// A number's decimal text is all digits and spells the number back.
pub proof fn lemma_decimal_spells(n: nat)
    ensures
        spec_all_digits(spec_decimal(n)),
        spec_digits_value(spec_decimal(n)) == n,
    decreases n,
{
    let d = n % 10;
    assert(spec_digit(d) as u32 - '0' as u32 == d && spec_is_digit(spec_digit(d))) by {
        assert(d < 10);
    }
    if n < 10 {
        let s = spec_decimal(n);
        assert(s.drop_last() =~= Seq::<char>::empty());
        assert(spec_digits_value(Seq::<char>::empty()) == 0);
    } else {
        lemma_decimal_spells(n / 10);
        let p = spec_decimal(n / 10);
        let s = spec_decimal(n);
        assert(s.drop_last() =~= p);
        assert(s.last() == spec_digit(d));
        assert forall|i: int| 0 <= i < s.len() implies spec_is_digit(#[trigger] s[i]) by {
            if i < p.len() {
                assert(s[i] == p[i]);
            }
        }
        vstd::arithmetic::div_mod::lemma_fundamental_div_mod(n as int, 10);
    }
}

/// A bind line tells the store which row joins which tab: it is the CLI's
/// `bind` with the row's uuid third and, fourth, a run of decimal digits
/// spelling the tab id.
pub proof fn law_a_bind_line_names_the_row_then_the_tab(
    bin: Seq<char>,
    uuid: Seq<char>,
    tab_id: usize,
    display_cols: Option<usize>,
    collapsed: bool,
)
    ensures
        spec_command(bin, EffectView::Bind { uuid, tab_id }, display_cols, collapsed) matches Some(
            argv,
        ) && argv.len() == 4 && argv[0] == bin && argv[1] == "bind"@ && argv[2] == uuid
            && spec_all_digits(argv[3]) && argv[3].len() > 0 && spec_digits_value(argv[3])
            == tab_id,
{
    lemma_decimal_spells(tab_id as nat);
}

} // verus!
