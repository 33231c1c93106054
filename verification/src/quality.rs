//! Checking rules and gating regressions.

use vstd::prelude::*;

use crate::lists::{
    concat_map, lemma_concat_map_add, lemma_concat_map_member, lemma_concat_map_step,
};
use crate::report::{cat, cat3, cat4, note, out, Ended, Exit, Line, Said};
use crate::text::{decimal, decimal_of};

verus! {

// ---------------------------------------------------------------------------
// Scanning
// ---------------------------------------------------------------------------

/// The settings that limit a scan.
#[derive(Debug, PartialEq, Eq, Clone, Copy)]
pub struct Settings {
    /// Larger files are left out.
    pub max_file_size_kb: u64,
    /// Larger files are not parsed.
    pub max_parse_size_kb: u64,
    /// Names with more definitions give no call edges.
    pub max_call_targets: usize,
}

/// The limits of a scan.
#[derive(Debug, PartialEq, Eq, Clone, Copy)]
pub struct ScanLimits {
    /// Larger files are left out.
    pub max_file_size_kb: u64,
    /// Larger files are not parsed.
    pub max_parse_size_kb: u64,
    /// Names with more definitions give no call edges.
    pub max_call_targets: usize,
}

/// The limits of a scan from the command line: those of the settings.
pub fn cli_scan_limits(s: &Settings) -> (r: ScanLimits)
    ensures
        r.max_file_size_kb == s.max_file_size_kb,
        r.max_parse_size_kb == s.max_parse_size_kb,
        r.max_call_targets == s.max_call_targets,
{
    ScanLimits {
        max_file_size_kb: s.max_file_size_kb,
        max_parse_size_kb: s.max_parse_size_kb,
        max_call_targets: s.max_call_targets,
    }
}

/// How a command that scans a directory begins.
#[derive(Debug, PartialEq, Eq)]
pub enum ScanStep {
    /// It ends at once.
    Stop(Exit),
    /// It writes these lines and scans.
    Scan(Vec<Line>),
}

/// What a [`ScanStep`] holds.
pub enum Begun {
    Stop(Ended),
    Scan(Seq<Said>),
}

impl DeepView for ScanStep {
    type V = Begun;

    open spec fn deep_view(&self) -> Begun {
        match self {
            ScanStep::Stop(exit) => Begun::Stop(exit.deep_view()),
            ScanStep::Scan(lines) => Begun::Scan(lines.deep_view()),
        }
    }
}

/// A path that is no directory ends a command.
pub open spec fn no_directory(path: Seq<char>) -> Ended {
    Ended { lines: seq![Said::Note("Error: not a directory: "@ + path)], code: 1 }
}

/// Ends a command for a path that is no directory.
pub fn refuse_path(path: &str) -> (r: Exit)
    ensures
        r.deep_view() == no_directory(path@),
{
    let lines = vec![Line::Note(cat("Error: not a directory: ", path))];
    assert(lines.deep_view() =~= no_directory(path@).lines);
    Exit { lines, code: 1 }
}

/// A scan that failed ends a command.
pub open spec fn failed_scan(error: Seq<char>) -> Ended {
    Ended { lines: seq![Said::Note("Scan failed: "@ + error)], code: 1 }
}

/// Ends a command whose scan failed.
pub fn scan_failed(error: &str) -> (r: Exit)
    ensures
        r.deep_view() == failed_scan(error@),
{
    let lines = vec![Line::Note(cat("Scan failed: ", error))];
    assert(lines.deep_view() =~= failed_scan(error@).lines);
    Exit { lines, code: 1 }
}

/// The notice before a scan.
pub open spec fn scanning(path: Seq<char>) -> Seq<Said> {
    seq![Said::Note("Scanning "@ + path + "..."@)]
}

/// Gives the notice before a scan.
fn announce(path: &str) -> (r: Vec<Line>)
    ensures
        r.deep_view() == scanning(path@),
{
    let lines = vec![Line::Note(cat3("Scanning ", path, "..."))];
    assert(lines.deep_view() =~= scanning(path@));
    lines
}

// ---------------------------------------------------------------------------
// Check
// ---------------------------------------------------------------------------

/// How a check begins: it takes a directory, and rules in it.
pub open spec fn check_start(path: Seq<char>, is_dir: bool, has_rules: bool) -> Begun {
    if !is_dir {
        Begun::Stop(no_directory(path))
    } else if !has_rules {
        Begun::Stop(
            Ended {
                lines: seq![
                    Said::Note("No .sentrux/rules.toml found in "@ + path),
                    Said::Note("Create one to define architectural constraints."@),
                ],
                code: 1,
            },
        )
    } else {
        Begun::Scan(scanning(path))
    }
}

/// Begins a check of a directory.
pub fn run_check(path: &str, is_dir: bool, has_rules: bool) -> (r: ScanStep)
    ensures
        r.deep_view() == check_start(path@, is_dir, has_rules),
{
    if !is_dir {
        return ScanStep::Stop(refuse_path(path));
    }
    if !has_rules {
        let lines = vec![
            Line::Note(cat("No .sentrux/rules.toml found in ", path)),
            note("Create one to define architectural constraints."),
        ];
        assert(lines.deep_view() =~= seq![
            Said::Note("No .sentrux/rules.toml found in "@ + path@),
            Said::Note("Create one to define architectural constraints."@),
        ]);
        return ScanStep::Stop(Exit { lines, code: 1 });
    }
    ScanStep::Scan(announce(path))
}

/// How grave a violation is.
#[derive(Debug, PartialEq, Eq, Clone, Copy)]
pub enum Severity {
    /// It is an error.
    Error,
    /// It is a warning.
    Warning,
}

/// A rule that does not hold.
#[derive(Debug, PartialEq, Eq)]
pub struct Violation {
    /// How grave it is.
    pub severity: Severity,
    /// The rule.
    pub rule: String,
    /// What is wrong.
    pub message: String,
    /// The files concerned.
    pub files: Vec<String>,
}

/// What checking the rules found.
#[derive(Debug, PartialEq, Eq)]
pub struct RuleCheck {
    /// How many rules were checked.
    pub rules_checked: usize,
    /// The quality signal, in ten thousandths.
    pub quality: u32,
    /// The rules that do not hold.
    pub violations: Vec<Violation>,
}

/// The mark and the name of a severity.
pub open spec fn severity_mark(severity: Severity) -> Seq<char> {
    match severity {
        Severity::Error => "✗ [Error] "@,
        Severity::Warning => "⚠ [Warning] "@,
    }
}

/// What is said of a violation: the rule and what is wrong, then the files.
pub open spec fn violation_lines() -> spec_fn(Violation) -> Seq<Said> {
    |v: Violation|
        seq![Said::Out(severity_mark(v.severity) + v.rule@ + ": "@ + v.message@)] + Seq::new(
            v.files@.len(),
            |i: int| Said::Out("    "@ + v.files@[i]@),
        )
}

/// How a check ends: with success exactly where no rule is violated.
pub open spec fn checked(check: RuleCheck) -> Ended {
    let head = seq![
        Said::Out("sentrux check — "@ + decimal_of(check.rules_checked as nat) + " rules checked\n"@),
        Said::Out("Quality: "@ + decimal_of(check.quality as nat) + "\n"@),
    ];
    if check.violations@.len() == 0 {
        Ended { lines: head.push(Said::Out("✓ All rules pass"@)), code: 0 }
    } else {
        Ended {
            lines: (head + concat_map(check.violations@, violation_lines())).push(
                Said::Out(
                    "\n✗ "@ + decimal_of(check.violations@.len()) + " violation(s) found"@,
                ),
            ),
            code: 1,
        }
    }
}

/// Tells a violation.
fn tell_violation(v: &Violation, lines: &mut Vec<Line>)
    ensures
        final(lines).deep_view() == old(lines).deep_view() + violation_lines()(*v),
{
    let ghost start = lines.deep_view();
    let ghost added = violation_lines()(*v);
    let mark = match v.severity {
        Severity::Error => "✗ [Error] ",
        Severity::Warning => "⚠ [Warning] ",
    };
    lines.push(Line::Out(cat4(mark, &v.rule, ": ", &v.message)));
    assert(lines.deep_view() =~= start + added.take(1));
    let mut i: usize = 0;
    while i < v.files.len()
        invariant
            i <= v.files@.len(),
            added == violation_lines()(*v),
            lines.deep_view() == start + added.take(i + 1),
        decreases v.files@.len() - i,
    {
        let ghost was = lines.deep_view();
        lines.push(Line::Out(cat("    ", &v.files[i])));
        assert(lines.deep_view() =~= was.push(added[i + 1]));
        assert(lines.deep_view() =~= start + added.take(i + 2));
        i += 1;
    }
    assert(added.take(i + 1) =~= added);
}

/// Tells what checking the rules found, and ends the check.
pub fn print_check_results(check: &RuleCheck) -> (r: Exit)
    ensures
        r.deep_view() == checked(*check),
{
    let rules = decimal(check.rules_checked as u64);
    let quality = decimal(check.quality as u64);
    let mut lines = vec![
        Line::Out(cat3("sentrux check — ", &rules, " rules checked\n")),
        Line::Out(cat3("Quality: ", &quality, "\n")),
    ];
    let ghost head = seq![
        Said::Out("sentrux check — "@ + decimal_of(check.rules_checked as nat) + " rules checked\n"@),
        Said::Out("Quality: "@ + decimal_of(check.quality as nat) + "\n"@),
    ];
    assert(lines.deep_view() =~= head);
    if check.violations.len() == 0 {
        lines.push(out("✓ All rules pass"));
        assert(lines.deep_view() =~= checked(*check).lines);
        return Exit { lines, code: 0 };
    }
    let ghost f = violation_lines();
    let mut i: usize = 0;
    assert(lines.deep_view() =~= head + concat_map(check.violations@.take(0), f));
    while i < check.violations.len()
        invariant
            i <= check.violations@.len(),
            f == violation_lines(),
            lines.deep_view() == head + concat_map(check.violations@.take(i as int), f),
        decreases check.violations@.len() - i,
    {
        tell_violation(&check.violations[i], &mut lines);
        proof {
            lemma_concat_map_step(check.violations@, f, i as int);
        }
        assert(lines.deep_view() =~= head + concat_map(check.violations@.take(i + 1), f));
        i += 1;
    }
    assert(check.violations@.take(i as int) =~= check.violations@);
    let count = decimal(check.violations.len() as u64);
    lines.push(Line::Out(cat3("\n✗ ", &count, " violation(s) found")));
    assert(lines.deep_view() =~= checked(*check).lines);
    Exit { lines, code: 1 }
}

// ---------------------------------------------------------------------------
// Gate
// ---------------------------------------------------------------------------

/// How a gate begins: it takes a directory.
pub open spec fn gate_start(path: Seq<char>, is_dir: bool) -> Begun {
    if is_dir {
        Begun::Scan(scanning(path))
    } else {
        Begun::Stop(no_directory(path))
    }
}

/// Begins to gate a directory.
pub fn run_gate(path: &str, is_dir: bool) -> (r: ScanStep)
    ensures
        r.deep_view() == gate_start(path@, is_dir),
{
    if is_dir {
        ScanStep::Scan(announce(path))
    } else {
        ScanStep::Stop(refuse_path(path))
    }
}

/// What became of saving a baseline.
#[derive(Debug, PartialEq, Eq)]
pub enum Saving {
    /// Its directory could not be created, for this reason.
    NoDirectory(String, String),
    /// It could not be written, for this reason.
    NotWritten(String),
    /// It was written.
    Written,
}

/// How saving a baseline ends.
pub open spec fn gate_saved(baseline: Seq<char>, quality: nat, saving: Saving) -> Ended {
    match saving {
        Saving::NoDirectory(dir, e) => Ended {
            lines: seq![Said::Note("Failed to create directory "@ + dir@ + ": "@ + e@)],
            code: 1,
        },
        Saving::NotWritten(e) => Ended {
            lines: seq![Said::Note("Failed to save baseline: "@ + e@)],
            code: 1,
        },
        Saving::Written => Ended {
            lines: seq![
                Said::Out("Baseline saved to "@ + baseline),
                Said::Out("Quality: "@ + decimal_of(quality)),
                Said::Out("\nRun `sentrux gate` after making changes to compare."@),
            ],
            code: 0,
        },
    }
}

/// Ends saving a baseline.
pub fn gate_save(baseline: &str, quality: u32, saving: &Saving) -> (r: Exit)
    ensures
        r.deep_view() == gate_saved(baseline@, quality as nat, *saving),
{
    match saving {
        Saving::NoDirectory(dir, e) => {
            let lines = vec![Line::Note(cat4("Failed to create directory ", dir, ": ", e))];
            assert(lines.deep_view() =~= gate_saved(baseline@, quality as nat, *saving).lines);
            Exit { lines, code: 1 }
        }
        Saving::NotWritten(e) => {
            let lines = vec![Line::Note(cat("Failed to save baseline: ", e))];
            assert(lines.deep_view() =~= gate_saved(baseline@, quality as nat, *saving).lines);
            Exit { lines, code: 1 }
        }
        Saving::Written => {
            let lines = vec![
                Line::Out(cat("Baseline saved to ", baseline)),
                Line::Out(cat("Quality: ", &decimal(quality as u64))),
                out("\nRun `sentrux gate` after making changes to compare."),
            ];
            assert(lines.deep_view() =~= gate_saved(baseline@, quality as nat, *saving).lines);
            Exit { lines, code: 0 }
        }
    }
}

/// How a directory compares with its baseline. Signals are in ten thousandths,
/// and couplings and distances are written with two decimals.
#[derive(Debug, PartialEq, Eq)]
pub struct GateDiff {
    pub signal_before: u32,
    pub signal_after: u32,
    pub coupling_before: String,
    pub coupling_after: String,
    pub cycles_before: usize,
    pub cycles_after: usize,
    pub god_files_before: usize,
    pub god_files_after: usize,
    /// The average distance from the main sequence, if one was measured.
    pub distance: Option<String>,
    /// Whether the directory is worse than the baseline.
    pub degraded: bool,
    /// In what it is worse.
    pub violations: Vec<String>,
}

/// The figures of a comparison.
pub open spec fn gate_figures(diff: GateDiff) -> Seq<Said> {
    seq![
        Said::Out("sentrux gate — structural regression check\n"@),
        Said::Out(
            "Quality:      "@ + decimal_of(diff.signal_before as nat) + " -> "@ + decimal_of(
                diff.signal_after as nat,
            ),
        ),
        Said::Out("Coupling:     "@ + diff.coupling_before@ + " → "@ + diff.coupling_after@),
        Said::Out(
            "Cycles:       "@ + decimal_of(diff.cycles_before as nat) + " → "@ + decimal_of(
                diff.cycles_after as nat,
            ),
        ),
        Said::Out(
            "God files:    "@ + decimal_of(diff.god_files_before as nat) + " → "@ + decimal_of(
                diff.god_files_after as nat,
            ),
        ),
    ]
}

/// The distance of a comparison, if one was measured.
pub open spec fn gate_distance(distance: Option<String>) -> Seq<Said> {
    match distance {
        Some(d) => seq![Said::Out("\nDistance from Main Sequence: "@ + d@)],
        None => Seq::empty(),
    }
}

/// The verdict of a comparison.
pub open spec fn gate_verdict(diff: GateDiff) -> Seq<Said> {
    if diff.degraded {
        seq![Said::Out("\n✗ DEGRADED"@)] + Seq::new(
            diff.violations@.len(),
            |i: int| Said::Out("  ✗ "@ + diff.violations@[i]@),
        )
    } else {
        seq![Said::Out("\n✓ No degradation detected"@)]
    }
}

/// How a comparison ends: with success exactly where nothing degraded. Without
/// a baseline it fails.
pub open spec fn gate_compared(baseline: Seq<char>, loaded: Result<GateDiff, String>) -> Ended {
    match loaded {
        Ok(diff) => Ended {
            lines: gate_figures(diff) + gate_distance(diff.distance) + gate_verdict(diff),
            code: if diff.degraded {
                1
            } else {
                0
            },
        },
        Err(e) => Ended {
            lines: seq![
                Said::Note("Failed to load baseline at "@ + baseline + ": "@ + e@),
                Said::Note("Run `sentrux gate --save` first to create one."@),
            ],
            code: 1,
        },
    }
}

/// Tells the figures of a comparison.
fn tell_figures(diff: &GateDiff) -> (r: Vec<Line>)
    ensures
        r.deep_view() == gate_figures(*diff),
{
    let signal_before = decimal(diff.signal_before as u64);
    let signal_after = decimal(diff.signal_after as u64);
    let cycles_before = decimal(diff.cycles_before as u64);
    let cycles_after = decimal(diff.cycles_after as u64);
    let god_files_before = decimal(diff.god_files_before as u64);
    let god_files_after = decimal(diff.god_files_after as u64);
    let lines = vec![
        out("sentrux gate — structural regression check\n"),
        Line::Out(cat4("Quality:      ", &signal_before, " -> ", &signal_after)),
        Line::Out(cat4("Coupling:     ", &diff.coupling_before, " → ", &diff.coupling_after)),
        Line::Out(cat4("Cycles:       ", &cycles_before, " → ", &cycles_after)),
        Line::Out(cat4("God files:    ", &god_files_before, " → ", &god_files_after)),
    ];
    assert(lines.deep_view() =~= gate_figures(*diff));
    lines
}

/// Ends a comparison with the baseline.
pub fn gate_compare(baseline: &str, loaded: &Result<GateDiff, String>) -> (r: Exit)
    ensures
        r.deep_view() == gate_compared(baseline@, *loaded),
{
    let diff = match loaded {
        Ok(diff) => diff,
        Err(e) => {
            let lines = vec![
                Line::Note(cat4("Failed to load baseline at ", baseline, ": ", e)),
                note("Run `sentrux gate --save` first to create one."),
            ];
            assert(lines.deep_view() =~= gate_compared(baseline@, *loaded).lines);
            return Exit { lines, code: 1 };
        }
    };
    let mut lines = tell_figures(diff);
    let ghost figures = gate_figures(*diff);
    if let Some(d) = &diff.distance {
        lines.push(Line::Out(cat("\nDistance from Main Sequence: ", d)));
    }
    let ghost head = figures + gate_distance(diff.distance);
    assert(lines.deep_view() =~= head);
    let ghost verdict = gate_verdict(*diff);
    if !diff.degraded {
        lines.push(out("\n✓ No degradation detected"));
        assert(lines.deep_view() =~= head + verdict);
        return Exit { lines, code: 0 };
    }
    lines.push(out("\n✗ DEGRADED"));
    assert(lines.deep_view() =~= head + verdict.take(1));
    let mut i: usize = 0;
    while i < diff.violations.len()
        invariant
            i <= diff.violations@.len(),
            diff.degraded,
            verdict == gate_verdict(*diff),
            lines.deep_view() == head + verdict.take(i + 1),
        decreases diff.violations@.len() - i,
    {
        let ghost was = lines.deep_view();
        lines.push(Line::Out(cat("  ✗ ", &diff.violations[i])));
        assert(lines.deep_view() =~= was.push(verdict[i + 1]));
        assert(lines.deep_view() =~= head + verdict.take(i + 2));
        i += 1;
    }
    assert(verdict.take(i + 1) =~= verdict);
    Exit { lines, code: 1 }
}

// ---------------------------------------------------------------------------
// Laws
// ---------------------------------------------------------------------------

/// A comparison with a baseline fails exactly where the directory degraded,
/// whatever its figures are. All figures are told, and where the directory
/// degraded every violation is.
pub proof fn law_gate_fails_exactly_where_degraded(baseline: Seq<char>, diff: GateDiff)
    ensures
        ({
            let end = gate_compared(baseline, Ok(diff));
            let n = if diff.distance is Some {
                6int
            } else {
                5int
            };
            &&& end.code == 1 <==> diff.degraded
            &&& end.code == 0 <==> !diff.degraded
            &&& end.lines[n] == (if diff.degraded {
                Said::Out("\n✗ DEGRADED"@)
            } else {
                Said::Out("\n✓ No degradation detected"@)
            })
            &&& end.lines.len() == n + 1 + (if diff.degraded {
                diff.violations@.len()
            } else {
                0
            })
            &&& diff.degraded ==> forall|i: int|
                0 <= i < diff.violations@.len() ==> end.lines[n + 1 + i] == Said::Out(
                    "  ✗ "@ + (#[trigger] diff.violations@[i])@,
                )
        }),
        ({
            let lines = gate_compared(baseline, Ok(diff)).lines;
            &&& lines[1] == Said::Out(
                "Quality:      "@ + decimal_of(diff.signal_before as nat) + " -> "@ + decimal_of(
                    diff.signal_after as nat,
                ),
            )
            &&& lines[2] == Said::Out(
                "Coupling:     "@ + diff.coupling_before@ + " → "@ + diff.coupling_after@,
            )
            &&& lines[3] == Said::Out(
                "Cycles:       "@ + decimal_of(diff.cycles_before as nat) + " → "@ + decimal_of(
                    diff.cycles_after as nat,
                ),
            )
            &&& lines[4] == Said::Out(
                "God files:    "@ + decimal_of(diff.god_files_before as nat) + " → "@ + decimal_of(
                    diff.god_files_after as nat,
                ),
            )
            &&& diff.distance matches Some(d) ==> lines[5] == Said::Out(
                "\nDistance from Main Sequence: "@ + d@,
            )
        }),
{
}

/// Without a baseline a comparison fails. It says on the standard error which
/// baseline it missed and why, and prints nothing.
pub proof fn law_gate_needs_a_baseline(baseline: Seq<char>, error: String)
    ensures
        ({
            let end = gate_compared(baseline, Err(error));
            &&& end.code == 1
            &&& forall|i: int| 0 <= i < end.lines.len() ==> (#[trigger] end.lines[i]) is Note
            &&& end.lines.contains(
                Said::Note("Failed to load baseline at "@ + baseline + ": "@ + error@),
            )
        }),
{
    let end = gate_compared(baseline, Err(error));
    assert(end.lines[0] == Said::Note("Failed to load baseline at "@ + baseline + ": "@ + error@));
}

/// Saving a baseline succeeds exactly where it was written. Then the place and
/// the quality are printed; otherwise the reason goes to the standard error.
pub proof fn law_saving_succeeds_where_written(baseline: Seq<char>, quality: nat, saving: Saving)
    ensures
        ({
            let end = gate_saved(baseline, quality, saving);
            &&& end.code == 0 || end.code == 1
            &&& end.code == 0 <==> saving is Written
            &&& saving is Written ==> end.lines.len() == 3 && end.lines[0] == Said::Out("Baseline saved to "@ + baseline)
                && end.lines[1] == Said::Out("Quality: "@ + decimal_of(quality))
            &&& saving matches Saving::NoDirectory(dir, e) ==> end.lines == seq![
                Said::Note("Failed to create directory "@ + dir@ + ": "@ + e@),
            ]
            &&& saving matches Saving::NotWritten(e) ==> end.lines == seq![
                Said::Note("Failed to save baseline: "@ + e@),
            ]
        }),
{
}

/// A check succeeds exactly where no rule is violated.
pub proof fn law_check_fails_exactly_where_violated(check: RuleCheck)
    ensures
        checked(check).code == 0 <==> check.violations@.len() == 0,
        checked(check).code == 1 <==> check.violations@.len() > 0,
        checked(check).lines[0] == Said::Out(
            "sentrux check — "@ + decimal_of(check.rules_checked as nat) + " rules checked\n"@,
        ),
        checked(check).lines[1] == Said::Out("Quality: "@ + decimal_of(check.quality as nat) + "\n"@),
        checked(check).lines.last() == (if check.violations@.len() == 0 {
            Said::Out("✓ All rules pass"@)
        } else {
            Said::Out("\n✗ "@ + decimal_of(check.violations@.len()) + " violation(s) found"@)
        }),
{
}

/// A check tells every violation, with its rule, its message and each of its
/// files: the rule and the message on one line, and the files on the lines that
/// follow it.
pub proof fn law_check_tells_every_violation(check: RuleCheck, i: int)
    requires
        0 <= i < check.violations@.len(),
    ensures
        ({
            let v = check.violations@[i];
            let mark = match v.severity {
                Severity::Error => "✗ [Error] "@,
                Severity::Warning => "⚠ [Warning] "@,
            };
            let lines = checked(check).lines;
            exists|at: int|
                {
                    &&& 2 <= at && at + v.files@.len() + 1 < lines.len()
                    &&& #[trigger] lines[at] == Said::Out(mark + v.rule@ + ": "@ + v.message@)
                    &&& forall|k: int|
                        0 <= k < v.files@.len() ==> lines[at + 1 + k] == Said::Out(
                            "    "@ + (#[trigger] v.files@[k])@,
                        )
                }
        }),
{
    let all = check.violations@;
    let f = violation_lines();
    let v = all[i];
    let before = concat_map(all.take(i), f);
    let lines = checked(check).lines;
    lemma_concat_map_step(all, f, i);
    assert(all =~= all.take(i + 1) + all.skip(i + 1));
    lemma_concat_map_add(all.take(i + 1), all.skip(i + 1), f);
    let at = 2 + before.len() as int;
    let part = f(v);
    let told = concat_map(all, f);
    assert(told == before + part + concat_map(all.skip(i + 1), f));
    assert(lines[at] == told[before.len() as int]);
    assert(told[before.len() as int] == part[0]);
    assert forall|k: int| 0 <= k < v.files@.len() implies lines[at + 1 + k] == Said::Out(
        "    "@ + (#[trigger] v.files@[k])@,
    ) by {
        assert(lines[at + 1 + k] == told[before.len() + 1 + k]);
        assert(told[before.len() + 1 + k] == part[1 + k]);
    }
}

/// A check tells nothing but its violations: each line between the head and the
/// end belongs to one of them.
pub proof fn law_check_tells_nothing_else(check: RuleCheck)
    ensures
        checked(check).lines.len() >= 3,
        check.violations@.len() == 0 ==> checked(check).lines.len() == 3,
        forall|n: int|
            2 <= n < checked(check).lines.len() - 1 ==> exists|i: int|
                {
                    &&& 0 <= i < check.violations@.len()
                    &&& violation_lines()(#[trigger] check.violations@[i]).contains(
                        #[trigger] checked(check).lines[n],
                    )
                },
        forall|v: Violation| #[trigger] violation_lines()(v).len() == 1 + v.files@.len(),
{
    let all = check.violations@;
    let f = violation_lines();
    let lines = checked(check).lines;
    assert forall|n: int| 2 <= n < lines.len() - 1 implies exists|i: int|
        0 <= i < all.len() && f(#[trigger] all[i]).contains(#[trigger] lines[n]) by {
        let told = concat_map(all, f);
        assert(lines[n] == told[n - 2]);
        assert(told.contains(lines[n]));
        lemma_concat_map_member(all, f, lines[n]);
    }
}

/// A command scans directories and nothing else; a check needs rules as well.
/// What is refused ends with code 1 and one message on the standard error that
/// names the path.
pub proof fn law_only_directories_are_scanned(path: Seq<char>, is_dir: bool, has_rules: bool)
    ensures
        check_start(path, is_dir, has_rules) is Scan <==> is_dir && has_rules,
        gate_start(path, is_dir) is Scan <==> is_dir,
        is_dir && has_rules ==> check_start(path, is_dir, has_rules) == Begun::Scan(
            seq![Said::Note("Scanning "@ + path + "..."@)],
        ),
        is_dir ==> gate_start(path, is_dir) == Begun::Scan(
            seq![Said::Note("Scanning "@ + path + "..."@)],
        ),
        !is_dir ==> ({
            let end = Ended { lines: seq![Said::Note("Error: not a directory: "@ + path)], code: 1 };
            &&& check_start(path, is_dir, has_rules) == Begun::Stop(end)
            &&& gate_start(path, is_dir) == Begun::Stop(end)
        }),
        is_dir && !has_rules ==> ({
            let end = check_start(path, is_dir, has_rules)->Stop_0;
            &&& end.code == 1
            &&& end.lines.len() == 2
            &&& end.lines[0] == Said::Note("No .sentrux/rules.toml found in "@ + path)
            &&& end.lines[1] is Note
        }),
{
}

/// A scan that failed ends a command with code 1 and its reason on the standard
/// error.
pub proof fn law_failed_scans_end_commands(error: Seq<char>)
    ensures
        failed_scan(error).code == 1,
        failed_scan(error).lines == seq![Said::Note("Scan failed: "@ + error)],
{
}

/// A violation more makes a check one line longer, and one more for each of its
/// files: no violation is told twice.
pub proof fn law_violations_are_told_once(whole: RuleCheck, part: RuleCheck, v: Violation)
    requires
        part.violations@.len() > 0,
        whole.violations@ == part.violations@.push(v),
    ensures
        checked(whole).lines.len() == checked(part).lines.len() + 1 + v.files@.len(),
        part.violations@.len() == 1 ==> checked(part).lines.len() == 4
            + part.violations@[0].files@.len(),
{
    let f = violation_lines();
    assert(whole.violations@.drop_last() =~= part.violations@);
    assert(whole.violations@.last() == v);
    if part.violations@.len() == 1 {
        let one = part.violations@;
        assert(one.drop_last().len() == 0);
        assert(concat_map(one.drop_last(), f).len() == 0);
        assert(one.last() == one[0]);
    }
}

} // verus!
