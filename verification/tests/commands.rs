use sentrux::analytics::{analytics_opt_out_path, run_analytics, MarkerChange};
use sentrux::cli::{
    run, run_login, run_plugin, run_pro, AnalyticsAction, Cli, Command, PluginAction, PluginTask,
    PluginWork, ProAction, ProTask, Task,
};
use sentrux::license::{
    edition_name, home_found, key_read, key_saved, key_validated, pro_activate, pro_deactivate,
    pro_status, pro_update, version_string, window_title, ActivateStep, KeyFile, License, ProHome,
    SavedLicense, VersionText,
};
use sentrux::quality::{
    cli_scan_limits, gate_compare, gate_save, print_check_results, refuse_path, run_check,
    run_gate, scan_failed, GateDiff, RuleCheck, Saving, ScanLimits, ScanStep, Settings, Severity,
    Violation,
};
use sentrux::report::{Exit, Line};

fn out(s: &str) -> Line {
    Line::Out(s.to_string())
}

fn note(s: &str) -> Line {
    Line::Note(s.to_string())
}

fn strings(list: &[&str]) -> Vec<String> {
    list.iter().map(|s| s.to_string()).collect()
}

fn found(s: &str) -> Option<String> {
    Some(s.to_string())
}

fn cli(command: Option<Command>) -> Cli {
    Cli { command, path: found("here"), mcp_flag: false }
}

fn license() -> License {
    License {
        user: "ada".to_string(),
        tier: "pro".to_string(),
        expires: "2030-01-01".to_string(),
        id: "42".to_string(),
    }
}

// Dispatch

#[test]
fn the_flag_wins_over_commands() {
    let mut c = cli(Some(Command::Login));
    c.mcp_flag = true;
    assert_eq!(run(c), Task::Serve);
}

#[test]
fn without_a_command_the_window_opens() {
    assert_eq!(run(cli(None)), Task::Gui(found("here")));
    assert_eq!(run(cli(Some(Command::Scan { path: None }))), Task::Gui(None));
    assert_eq!(run(cli(Some(Command::Scan { path: found("x") }))), Task::Gui(found("x")));
}

#[test]
fn commands_become_tasks() {
    let path = || "p".to_string();
    assert_eq!(run(cli(Some(Command::Check { path: path() }))), Task::Check(path()));
    assert_eq!(
        run(cli(Some(Command::Gate { save: true, path: path() }))),
        Task::Gate(path(), true)
    );
    assert_eq!(run(cli(Some(Command::Health { path: path() }))), Task::Health(path()));
    assert_eq!(run(cli(Some(Command::Mcp))), Task::Serve);
    assert_eq!(
        run(cli(Some(Command::Analytics { action: Some(AnalyticsAction::Off) }))),
        Task::Analytics(Some(AnalyticsAction::Off))
    );
    assert_eq!(
        run(cli(Some(Command::Login))),
        Task::Login(run_login(), "https://sentrux.dev/pro".to_string())
    );
    assert_eq!(
        run(cli(Some(Command::Plugin { action: PluginAction::List }))),
        Task::Plugin(PluginTask::List)
    );
    assert_eq!(
        run(cli(Some(Command::Pro { action: ProAction::Status }))),
        Task::Pro(ProTask::Status)
    );
}

#[test]
fn plugin_actions_become_tasks() {
    let name = || "go".to_string();
    assert_eq!(run_plugin(PluginAction::AddStandard), PluginTask::Sync);
    assert_eq!(
        run_plugin(PluginAction::Add { name: name() }),
        PluginTask::Locate(name(), PluginWork::Add)
    );
    assert_eq!(
        run_plugin(PluginAction::Remove { name: name() }),
        PluginTask::Locate(name(), PluginWork::Remove)
    );
    assert_eq!(
        run_plugin(PluginAction::Init { name: name() }),
        PluginTask::Locate(name(), PluginWork::Init)
    );
    assert_eq!(
        run_plugin(PluginAction::Validate { dir: "d".to_string() }),
        PluginTask::Validate("d".to_string())
    );
}

#[test]
fn pro_actions_become_tasks() {
    assert_eq!(
        run_pro(ProAction::Activate { key: "{}".to_string() }),
        ProTask::Activate(ActivateStep::Validate("{}".to_string()))
    );
    assert_eq!(run_pro(ProAction::Deactivate), ProTask::Deactivate);
    assert_eq!(run_pro(ProAction::Update), ProTask::Say(pro_update()));
}

#[test]
fn login_tells_how_to_activate() {
    let lines = run_login();
    assert_eq!(lines.len(), 9);
    assert_eq!(lines[1], out("  Sentrux Pro — purchase at https://sentrux.dev/pro"));
    assert_eq!(lines[4], out("    sentrux pro activate <license-key>"));
}

// Versions

#[test]
fn editions_below_pro_have_no_name() {
    assert_eq!(edition_name(0, 1), "");
    assert_eq!(edition_name(1, 1), "Pro");
    assert_eq!(edition_name(2, 1), "Pro");
}

#[test]
fn versions_show_editions_and_updates() {
    assert_eq!(version_string("0.5.1", "", &None), "0.5.1");
    assert_eq!(version_string("0.5.1", "Pro", &None), "0.5.1 (Pro)");
    assert_eq!(
        version_string("0.5.1", "Pro", &found("0.6.0")),
        "0.5.1 (Pro)\n  Update available: v0.6.0 → brew upgrade sentrux"
    );
    assert_eq!(window_title("0.5.1", ""), "sentrux v0.5.1");
    assert_eq!(window_title("0.5.1", "Pro"), "Sentrux Pro v0.5.1");
}

#[test]
fn the_first_version_text_is_kept() {
    let mut text = VersionText::new();
    assert_eq!(text.get("0.5.1", "", &None), "0.5.1");
    assert_eq!(text.get("0.5.1", "Pro", &found("0.6.0")), "0.5.1");
    let mut other = VersionText::new();
    assert_eq!(other.get("0.5.1", "Pro", &None), "0.5.1 (Pro)");
}

// License

#[test]
fn a_key_is_text_or_a_file() {
    assert_eq!(pro_activate("{\"a\":1}"), ActivateStep::Validate("{\"a\":1}".to_string()));
    assert_eq!(pro_activate("key.txt"), ActivateStep::ReadKey("key.txt".to_string()));
    assert_eq!(pro_activate(""), ActivateStep::ReadKey(String::new()));
}

#[test]
fn key_files_may_fail() {
    assert_eq!(
        key_read(KeyFile::Content("k".to_string())),
        ActivateStep::Validate("k".to_string())
    );
    assert_eq!(
        key_read(KeyFile::Unreadable("denied".to_string())),
        ActivateStep::Done(vec![note("Failed to read key file: denied")])
    );
    assert_eq!(
        key_read(KeyFile::Missing),
        ActivateStep::Done(vec![note("Invalid key: not a JSON string or file path")])
    );
}

#[test]
fn only_valid_keys_go_on() {
    assert_eq!(
        key_validated("k".to_string(), Some(license())),
        ActivateStep::FindHome(license(), "k".to_string())
    );
    assert_eq!(
        key_validated("k".to_string(), None),
        ActivateStep::Done(vec![note("Invalid or expired license key.")])
    );
    assert_eq!(
        home_found(license(), "k".to_string(), true),
        ActivateStep::Save(license(), "k".to_string())
    );
    assert_eq!(
        home_found(license(), "k".to_string(), false),
        ActivateStep::Done(vec![note("Cannot find home directory")])
    );
}

#[test]
fn saving_a_key_is_told() {
    assert_eq!(
        key_saved(&license(), Ok("/h/license.key".to_string())),
        vec![
            out("License activated!"),
            out("  User:    ada"),
            out("  Tier:    pro"),
            out("  Expires: 2030-01-01"),
            out("  Saved:   /h/license.key"),
            out(""),
            out("Restart sentrux to enable Pro features."),
        ]
    );
    assert_eq!(
        key_saved(&license(), Err("full".to_string())),
        vec![note("Failed to save license: full")]
    );
}

#[test]
fn status_of_a_licensed_home() {
    let home = Some(ProHome {
        license: SavedLicense::Valid(license()),
        plugin: found("/h/pro.so"),
    });
    let loaded = Some(("pro".to_string(), "1.0".to_string()));
    assert_eq!(
        pro_status("Pro", &home, &loaded, true),
        vec![
            out("Tier: Pro"),
            out("User:    ada"),
            out("Expires: 2030-01-01"),
            out("ID:      42"),
            out("Plugin:  /h/pro.so (installed)"),
            out("Loaded:  pro v1.0"),
            out("Status:  Pro features active"),
        ]
    );
}

#[test]
fn status_without_a_license() {
    let invalid = Some(ProHome { license: SavedLicense::Invalid, plugin: None });
    assert_eq!(
        pro_status("Free", &invalid, &None, false),
        vec![
            out("Tier: Free"),
            out("License: invalid or expired"),
            out("Plugin:  not installed"),
            out("Status:  Free"),
        ]
    );
    let missing = Some(ProHome { license: SavedLicense::NotFound, plugin: None });
    assert_eq!(pro_status("Free", &missing, &None, false)[1], out("License: not found"));
    assert_eq!(
        pro_status("Free", &None, &None, false),
        vec![out("Tier: Free"), out("Status:  Free")]
    );
}

#[test]
fn deactivation_tells_what_it_removes() {
    let end = out("Deactivated. Restart sentrux to return to free mode.");
    assert_eq!(
        pro_deactivate(true, true),
        vec![out("License removed."), out("Pro plugin removed."), end]
    );
    assert_eq!(pro_deactivate(false, false).len(), 1);
    assert_eq!(pro_deactivate(false, true)[0], out("Pro plugin removed."));
    assert_eq!(pro_update()[0], out("Pro plugin update: not yet implemented."));
}

// Analytics

#[test]
fn the_marker_lies_beside_the_plugins() {
    assert_eq!(
        analytics_opt_out_path(Some(strings(&["home", ".sentrux", "plugins"]))),
        Some(strings(&["home", ".sentrux", "telemetry_opt_out"]))
    );
    assert_eq!(analytics_opt_out_path(None), None);
}

#[test]
fn analytics_follow_the_marker() {
    let on = vec![out("Analytics are enabled.")];
    let off = vec![out("Analytics are disabled.")];
    assert_eq!(run_analytics(None, true, true).lines, off);
    assert_eq!(run_analytics(None, true, false).lines, on);
    assert_eq!(run_analytics(None, false, true).lines, on);
    assert_eq!(run_analytics(None, true, true).change, MarkerChange::Keep);
    let turned_on = run_analytics(Some(AnalyticsAction::On), true, true);
    assert_eq!(turned_on.change, MarkerChange::Remove);
    assert_eq!(turned_on.lines, on);
    let turned_off = run_analytics(Some(AnalyticsAction::Off), true, false);
    assert_eq!(turned_off.change, MarkerChange::Write);
    assert_eq!(turned_off.lines, off);
    let nowhere = run_analytics(Some(AnalyticsAction::Off), false, false);
    assert_eq!(nowhere.change, MarkerChange::Keep);
}

// Check and gate

#[test]
fn limits_come_from_settings() {
    let s = Settings { max_file_size_kb: 1, max_parse_size_kb: 2, max_call_targets: 3 };
    assert_eq!(
        cli_scan_limits(&s),
        ScanLimits { max_file_size_kb: 1, max_parse_size_kb: 2, max_call_targets: 3 }
    );
}

#[test]
fn a_check_needs_a_directory_and_rules() {
    assert_eq!(
        run_check("x", false, false),
        ScanStep::Stop(Exit { lines: vec![note("Error: not a directory: x")], code: 1 })
    );
    assert_eq!(
        run_check("x", true, false),
        ScanStep::Stop(Exit {
            lines: vec![
                note("No .sentrux/rules.toml found in x"),
                note("Create one to define architectural constraints."),
            ],
            code: 1,
        })
    );
    assert_eq!(run_check("x", true, true), ScanStep::Scan(vec![note("Scanning x...")]));
    assert_eq!(scan_failed("why"), Exit { lines: vec![note("Scan failed: why")], code: 1 });
    assert_eq!(refuse_path("x").code, 1);
}

#[test]
fn a_check_passes_without_violations() {
    let check = RuleCheck { rules_checked: 12, quality: 7342, violations: Vec::new() };
    assert_eq!(
        print_check_results(&check),
        Exit {
            lines: vec![
                out("sentrux check — 12 rules checked\n"),
                out("Quality: 7342\n"),
                out("✓ All rules pass"),
            ],
            code: 0,
        }
    );
}

#[test]
fn violations_are_told() {
    let violation = |severity: Severity, files: &[&str]| Violation {
        severity,
        rule: "r".to_string(),
        message: "m".to_string(),
        files: strings(files),
    };
    let check = RuleCheck {
        rules_checked: 1,
        quality: 0,
        violations: vec![
            violation(Severity::Error, &["a", "b"]),
            violation(Severity::Warning, &[]),
        ],
    };
    assert_eq!(
        print_check_results(&check),
        Exit {
            lines: vec![
                out("sentrux check — 1 rules checked\n"),
                out("Quality: 0\n"),
                out("✗ [Error] r: m"),
                out("    a"),
                out("    b"),
                out("⚠ [Warning] r: m"),
                out("\n✗ 2 violation(s) found"),
            ],
            code: 1,
        }
    );
}

#[test]
fn a_gate_needs_a_directory() {
    assert_eq!(run_gate("x", true), ScanStep::Scan(vec![note("Scanning x...")]));
    assert_eq!(
        run_gate("x", false),
        ScanStep::Stop(Exit { lines: vec![note("Error: not a directory: x")], code: 1 })
    );
}

#[test]
fn saving_a_baseline_may_fail() {
    let dir = Saving::NoDirectory("d".to_string(), "e".to_string());
    assert_eq!(
        gate_save("b", 1, &dir),
        Exit { lines: vec![note("Failed to create directory d: e")], code: 1 }
    );
    assert_eq!(
        gate_save("b", 1, &Saving::NotWritten("e".to_string())),
        Exit { lines: vec![note("Failed to save baseline: e")], code: 1 }
    );
    assert_eq!(
        gate_save("b", 7342, &Saving::Written),
        Exit {
            lines: vec![
                out("Baseline saved to b"),
                out("Quality: 7342"),
                out("\nRun `sentrux gate` after making changes to compare."),
            ],
            code: 0,
        }
    );
}

fn diff(degraded: bool) -> GateDiff {
    GateDiff {
        signal_before: 7000,
        signal_after: 6900,
        coupling_before: "0.10".to_string(),
        coupling_after: "0.20".to_string(),
        cycles_before: 1,
        cycles_after: 2,
        god_files_before: 3,
        god_files_after: 4,
        distance: found("0.33"),
        degraded,
        violations: strings(&["worse"]),
    }
}

#[test]
fn a_gate_compares_with_the_baseline() {
    let head = || {
        vec![
            out("sentrux gate — structural regression check\n"),
            out("Quality:      7000 -> 6900"),
            out("Coupling:     0.10 → 0.20"),
            out("Cycles:       1 → 2"),
            out("God files:    3 → 4"),
            out("\nDistance from Main Sequence: 0.33"),
        ]
    };
    let mut bad = head();
    bad.push(out("\n✗ DEGRADED"));
    bad.push(out("  ✗ worse"));
    assert_eq!(gate_compare("b", &Ok(diff(true))), Exit { lines: bad, code: 1 });
    let mut good = head();
    good.push(out("\n✓ No degradation detected"));
    assert_eq!(gate_compare("b", &Ok(diff(false))), Exit { lines: good, code: 0 });
    let mut plain = diff(false);
    plain.distance = None;
    assert_eq!(gate_compare("b", &Ok(plain)).lines.len(), 6);
}

#[test]
fn a_gate_needs_a_baseline() {
    assert_eq!(
        gate_compare("b", &Err("gone".to_string())),
        Exit {
            lines: vec![
                note("Failed to load baseline at b: gone"),
                note("Run `sentrux gate --save` first to create one."),
            ],
            code: 1,
        }
    );
}
