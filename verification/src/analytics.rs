//! Usage analytics: on unless a marker file says otherwise.

use vstd::prelude::*;

use crate::cli::AnalyticsAction;
use crate::report::{out, Line, Said};

verus! {

/// The steps of the path of the marker: beside the plugins directory.
pub open spec fn marker_path(plugins_dir: Option<Seq<Seq<char>>>) -> Option<Seq<Seq<char>>> {
    match plugins_dir {
        Some(steps) => Some(steps.drop_last().push("telemetry_opt_out"@)),
        None => None,
    }
}

/// Finds the path of the marker file, by the steps of the path of the plugins
/// directory.
pub fn analytics_opt_out_path(plugins_dir: Option<Vec<String>>) -> (r: Option<Vec<String>>)
    requires
        plugins_dir matches Some(steps) ==> steps@.len() > 0,
    ensures
        r.deep_view() == marker_path(plugins_dir.deep_view()),
{
    match plugins_dir {
        Some(steps) => {
            let ghost before = steps.deep_view();
            let mut steps = steps;
            let _ = steps.pop();
            steps.push("telemetry_opt_out".to_owned());
            assert(steps.deep_view() =~= before.drop_last().push("telemetry_opt_out"@));
            Some(steps)
        }
        None => None,
    }
}

/// What is done to the marker file.
#[derive(Debug, PartialEq, Eq, Clone, Copy)]
pub enum MarkerChange {
    /// Nothing.
    Keep,
    /// It is removed.
    Remove,
    /// It is written.
    Write,
}

/// What controlling analytics does and says.
#[derive(Debug, PartialEq, Eq)]
pub struct AnalyticsPlan {
    /// What is done to the marker file.
    pub change: MarkerChange,
    /// What is said.
    pub lines: Vec<Line>,
}

/// What is done to the marker file. Nothing is done where it has no place.
pub open spec fn marker_change(action: Option<AnalyticsAction>, has_path: bool) -> MarkerChange {
    match action {
        Some(AnalyticsAction::On) if has_path => MarkerChange::Remove,
        Some(AnalyticsAction::Off) if has_path => MarkerChange::Write,
        _ => MarkerChange::Keep,
    }
}

/// Whether analytics are on: as the action says, or without an action as the
/// marker says.
pub open spec fn analytics_on(
    action: Option<AnalyticsAction>,
    has_path: bool,
    marked: bool,
) -> bool {
    match action {
        Some(AnalyticsAction::On) => true,
        Some(AnalyticsAction::Off) => false,
        None => !(has_path && marked),
    }
}

/// Decides what an action on analytics does and says. `marked` tells whether
/// the marker file is there.
pub fn run_analytics(action: Option<AnalyticsAction>, has_path: bool, marked: bool) -> (r:
    AnalyticsPlan)
    ensures
        r.change == marker_change(action, has_path),
        r.lines.deep_view() == seq![
            if analytics_on(action, has_path, marked) {
                Said::Out("Analytics are enabled."@)
            } else {
                Said::Out("Analytics are disabled."@)
            },
        ],
{
    let (change, on) = match action {
        None => (MarkerChange::Keep, !(has_path && marked)),
        Some(AnalyticsAction::On) => (
            if has_path {
                MarkerChange::Remove
            } else {
                MarkerChange::Keep
            },
            true,
        ),
        Some(AnalyticsAction::Off) => (
            if has_path {
                MarkerChange::Write
            } else {
                MarkerChange::Keep
            },
            false,
        ),
    };
    let line = if on {
        out("Analytics are enabled.")
    } else {
        out("Analytics are disabled.")
    };
    let ghost said = line.deep_view();
    let lines = vec![line];
    assert(lines.deep_view() =~= seq![said]);
    AnalyticsPlan { change, lines }
}

/// Whether the marker file is there after a change.
pub open spec fn marked_after(change: MarkerChange, marked: bool) -> bool {
    match change {
        MarkerChange::Keep => marked,
        MarkerChange::Remove => false,
        MarkerChange::Write => true,
    }
}

/// Showing the state after an action shows what the action said, where the
/// marker file has a place and changing it succeeded.
pub proof fn law_state_is_what_was_set(action: Option<AnalyticsAction>, marked: bool)
    ensures
        analytics_on(None, true, marked_after(marker_change(action, true), marked))
            == analytics_on(action, true, marked),
{
}

/// The marker lies beside the plugins directory, under a name of its own.
/// Without a plugins directory it has no place.
pub proof fn law_marker_lies_beside_the_plugins(parent: Seq<Seq<char>>, name: Seq<char>)
    ensures
        marker_path(Some(parent.push(name))) == Some(parent.push("telemetry_opt_out"@)),
        marker_path(None) is None,
{
    assert(parent.push(name).drop_last() =~= parent);
}

/// Turning analytics off writes the marker, and turning them on removes it;
/// showing the state, or having no place for the marker, changes nothing.
pub proof fn law_marker_follows_the_action(action: Option<AnalyticsAction>, has_path: bool)
    ensures
        marker_change(action, has_path) is Write <==> has_path && action == Some(
            AnalyticsAction::Off,
        ),
        marker_change(action, has_path) is Remove <==> has_path && action == Some(
            AnalyticsAction::On,
        ),
{
}

/// Analytics are on after they were turned on, and off after they were turned
/// off. Otherwise they are off exactly where the marker is there.
pub proof fn law_analytics_are_on_unless_marked(
    action: Option<AnalyticsAction>,
    has_path: bool,
    marked: bool,
)
    ensures
        action == Some(AnalyticsAction::On) ==> analytics_on(action, has_path, marked),
        action == Some(AnalyticsAction::Off) ==> !analytics_on(action, has_path, marked),
        action is None ==> (analytics_on(action, has_path, marked) <==> !has_path || !marked),
{
}

} // verus!
