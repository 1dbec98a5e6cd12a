//! What the shell runs for each effect: the command lines of the `clave`
//! CLI and of the beacon pipe, and which instance may run them. Every CLI
//! command starts with the binary the plugin configuration names; the PATH
//! fallback is the one place a bare name is used.
use crate::model::{BarModel, Effect, EffectView};
use crate::plugin_config::{resolve_binary, spec_resolve_binary};
use crate::text::{push_decimal, spec_decimal, string_of};
use std::collections::BTreeMap;
use vstd::prelude::*;

verus! {

/// The CLI a bar shells out to when its configuration names none.
pub const PATH_FALLBACK: &'static str = "clave";

/// The CLI a configuration selects: the configured binary, else the PATH
/// fallback.
pub open spec fn spec_cli_binary(config: Map<String, String>) -> Seq<char> {
    match spec_resolve_binary(config) {
        Some(b) => b,
        None => PATH_FALLBACK@,
    }
}

/// The binary every CLI command of this bar starts with.
pub fn cli_binary(config: &BTreeMap<String, String>) -> (r: String)
    ensures
        r@ == spec_cli_binary(config@),
{
    match resolve_binary(config) {
        Some(b) => b,
        None => text(PATH_FALLBACK),
    }
}

/// An owned copy of a text.
fn text(s: &str) -> (r: String)
    ensures
        r@ == s@,
{
    let cs = crate::text::chars_of(s);
    string_of(cs.as_slice())
}

/// A number as its decimal text.
fn decimal(n: usize) -> (r: String)
    ensures
        r@ == spec_decimal(n as nat),
{
    let mut cs: Vec<char> = Vec::new();
    push_decimal(&mut cs, n as u64);
    assert(cs@ =~= spec_decimal(n as nat));
    string_of(cs.as_slice())
}

/// A boolean as the CLI spells it.
pub open spec fn spec_flag(b: bool) -> Seq<char> {
    if b {
        "true"@
    } else {
        "false"@
    }
}

/// The command line an effect runs, if it runs one: the CLI's under the
/// bar's binary, or the beacon pipe under `zellij`. `display_cols` and
/// `collapsed` are what a launch passes on about the bar that asks.
pub open spec fn spec_command(
    bin: Seq<char>,
    e: EffectView,
    display_cols: Option<usize>,
    collapsed: bool,
) -> Option<Seq<Seq<char>>> {
    match e {
        EffectView::MarkRead { uuid } => Some(seq![bin, "focus"@, uuid]),
        EffectView::Touch { tab_id } => Some(seq![bin, "touch"@, spec_decimal(tab_id as nat)]),
        EffectView::Bind { uuid, tab_id } => Some(
            seq![bin, "bind"@, uuid, spec_decimal(tab_id as nat)],
        ),
        EffectView::PruneTabs { stale_ids } => Some(
            seq![bin, "prune-tabs"@] + stale_ids.map_values(|id: usize| spec_decimal(id as nat)),
        ),
        EffectView::OpenAgent { uuid } => Some(
            seq![bin, "open"@, uuid] + match display_cols {
                Some(c) => seq!["--display-cols"@, spec_decimal(c as nat)],
                None => Seq::empty(),
            } + if collapsed {
                seq!["--collapsed"@]
            } else {
                Seq::empty()
            },
        ),
        EffectView::PersistCollapse { collapsed: c } => Some(seq![bin, "collapse"@, spec_flag(c)]),
        EffectView::AnnounceVisit { tab_id } => Some(
            seq![
                "zellij"@,
                "pipe"@,
                "--name"@,
                "clave-visited"@,
                "--"@,
                spec_decimal(tab_id as nat),
            ],
        ),
        EffectView::ReanchorVisit { tab_id } => Some(
            seq![
                "zellij"@,
                "pipe"@,
                "--name"@,
                "clave-visited"@,
                "--"@,
                spec_decimal(tab_id as nat),
            ],
        ),
        _ => None,
    }
}

/// A command line as plain values.
pub open spec fn argv_view(argv: Seq<String>) -> Seq<Seq<char>> {
    argv.map_values(|a: String| a@)
}

/// Appends a text to a command line.
fn push_arg(argv: &mut Vec<String>, a: String)
    ensures
        argv_view(final(argv)@) == argv_view(old(argv)@).push(a@),
{
    argv.push(a);
    assert(argv_view(argv@) =~= argv_view(old(argv)@).push(a@));
}

/// The command line an effect runs, if any.
pub fn command(bin: &String, e: &Effect, display_cols: Option<usize>, collapsed: bool) -> (r: Option<
    Vec<String>,
>)
    ensures
        match r {
            Some(argv) => spec_command(bin@, e@, display_cols, collapsed) == Some(argv_view(argv@)),
            None => spec_command(bin@, e@, display_cols, collapsed) is None,
        },
{
    let mut argv: Vec<String> = Vec::new();
    match e {
        Effect::MarkRead { uuid } => {
            push_arg(&mut argv, bin.clone());
            push_arg(&mut argv, text("focus"));
            push_arg(&mut argv, uuid.clone());
        },
        Effect::Touch { tab_id } => {
            push_arg(&mut argv, bin.clone());
            push_arg(&mut argv, text("touch"));
            push_arg(&mut argv, decimal(*tab_id));
        },
        Effect::Bind { uuid, tab_id } => {
            push_arg(&mut argv, bin.clone());
            push_arg(&mut argv, text("bind"));
            push_arg(&mut argv, uuid.clone());
            push_arg(&mut argv, decimal(*tab_id));
        },
        Effect::PruneTabs { stale_ids } => {
            push_arg(&mut argv, bin.clone());
            push_arg(&mut argv, text("prune-tabs"));
            let ghost head = argv_view(argv@);
            let mut i: usize = 0;
            while i < stale_ids.len()
                invariant
                    i <= stale_ids@.len(),
                    argv_view(argv@) == head + stale_ids@.subrange(0, i as int).map_values(
                        |id: usize| spec_decimal(id as nat),
                    ),
                decreases stale_ids.len() - i,
            {
                push_arg(&mut argv, decimal(stale_ids[i]));
                assert(stale_ids@.subrange(0, (i + 1) as int).map_values(
                    |id: usize| spec_decimal(id as nat),
                ) =~= stale_ids@.subrange(0, i as int).map_values(
                    |id: usize| spec_decimal(id as nat),
                ).push(spec_decimal(stale_ids@[i as int] as nat)));
                i = i + 1;
            }
            assert(stale_ids@.subrange(0, stale_ids@.len() as int) =~= stale_ids@);
        },
        Effect::OpenAgent { uuid } => {
            push_arg(&mut argv, bin.clone());
            push_arg(&mut argv, text("open"));
            push_arg(&mut argv, uuid.clone());
            match display_cols {
                Some(c) => {
                    push_arg(&mut argv, text("--display-cols"));
                    push_arg(&mut argv, decimal(c));
                },
                None => {},
            }
            if collapsed {
                push_arg(&mut argv, text("--collapsed"));
            }
        },
        Effect::PersistCollapse { collapsed: c } => {
            push_arg(&mut argv, bin.clone());
            push_arg(&mut argv, text("collapse"));
            push_arg(
                &mut argv,
                if *c {
                    text("true")
                } else {
                    text("false")
                },
            );
        },
        Effect::AnnounceVisit { tab_id } | Effect::ReanchorVisit { tab_id } => {
            push_arg(&mut argv, text("zellij"));
            push_arg(&mut argv, text("pipe"));
            push_arg(&mut argv, text("--name"));
            push_arg(&mut argv, text("clave-visited"));
            push_arg(&mut argv, text("--"));
            push_arg(&mut argv, decimal(*tab_id));
        },
        _ => {
            return None;
        },
    }
    assert(spec_command(bin@, e@, display_cols, collapsed) == Some(argv_view(argv@)));
    Some(argv)
}

/// The hydration command: the store's current snapshot.
pub fn snapshot_command(bin: &String) -> (r: Vec<String>)
    ensures
        argv_view(r@) == seq![bin@, "snapshot"@],
{
    let mut argv: Vec<String> = Vec::new();
    push_arg(&mut argv, bin.clone());
    push_arg(&mut argv, text("snapshot"));
    argv
}

/// Which instances may run an effect.
#[derive(Debug, Clone, Copy, PartialEq, Eq, Structural)]
pub enum Runner {
    /// Every instance: the effect is idempotent or self-targeted.
    Any,
    /// Only an instance that presumes itself on the active tab: effects
    /// that latch when emitted, so a stricter election would drop them.
    Presumed,
    /// Only an instance whose tab and pane frames agree: effects that
    /// retry or do lasting damage from the wrong instance.
    Confirmed,
}

/// The election an effect runs under.
pub open spec fn spec_runner(e: EffectView) -> Runner {
    match e {
        EffectView::RenameTab { .. } => Runner::Presumed,
        EffectView::MarkRead { .. } => Runner::Presumed,
        EffectView::PersistCollapse { .. } => Runner::Presumed,
        EffectView::Touch { .. } => Runner::Confirmed,
        EffectView::Bind { .. } => Runner::Confirmed,
        EffectView::PruneTabs { .. } => Runner::Confirmed,
        _ => Runner::Any,
    }
}

/// The election an effect runs under.
pub fn runner(e: &Effect) -> (r: Runner)
    ensures
        r == spec_runner(e@),
{
    match e {
        Effect::RenameTab { .. } | Effect::MarkRead { .. } | Effect::PersistCollapse { .. } => {
            Runner::Presumed
        },
        Effect::Touch { .. } | Effect::Bind { .. } | Effect::PruneTabs { .. } => Runner::Confirmed,
        _ => Runner::Any,
    }
}

impl BarModel {
    /// Whether this instance runs the effect, by its election.
    pub fn runs_here(&self, e: &Effect) -> (r: bool)
        ensures
            r == match spec_runner(e@) {
                Runner::Any => true,
                Runner::Presumed => crate::model::spec_elects_presumed(self@),
                Runner::Confirmed => crate::model::spec_elects_confirmed(self@),
            },
    {
        match runner(e) {
            Runner::Any => true,
            Runner::Presumed => self.elects_presumed(),
            Runner::Confirmed => self.elects_confirmed(),
        }
    }
}

} // verus!
