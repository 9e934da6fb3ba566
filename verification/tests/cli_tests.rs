use arx_quit::cli::{
    format_memory, kill_all_summary, memory_in_mb, quit_failure, quit_report, run, table_text,
    Commands, KillError, Plan,
};
use arx_quit::process::GuiApp;

fn gui(name: &str, pid: u32, bundle: &str, memory_kb: u64) -> GuiApp {
    GuiApp {
        name: name.to_string(),
        pid,
        bundle_id: bundle.to_string(),
        memory_kb,
        is_frozen: false,
    }
}

fn listed() -> Vec<GuiApp> {
    vec![
        gui("Finder", 50, "com.apple.finder", 60_000),
        gui("Google Chrome", 200, "com.google.Chrome", 2_000_000),
        gui("Chrome Helper", 210, "com.google.Chrome.helper", 10),
        gui("Safari", 300, "com.apple.Safari", 400_000),
        gui("safari", 301, "org.example.safari", 1),
    ]
}

fn protected() -> Vec<String> {
    vec!["Finder".to_string()]
}

/// The memory text as the standard float formatting gives it.
fn float_memory(kb: u64) -> String {
    if kb < 1024 {
        format!("{} KB", kb)
    } else if kb < 1_048_576 {
        format!("{:.1} MB", kb as f64 / 1024.0)
    } else {
        format!("{:.1} GB", kb as f64 / 1_048_576.0)
    }
}

#[test]
fn memory_text_examples() {
    assert_eq!(format_memory(0), "0 KB");
    assert_eq!(format_memory(1023), "1023 KB");
    assert_eq!(format_memory(1024), "1.0 MB");
    assert_eq!(format_memory(1536), "1.5 MB");
    assert_eq!(format_memory(409_600), "400.0 MB");
    assert_eq!(format_memory(1_048_575), "1024.0 MB");
    assert_eq!(format_memory(1_048_576), "1.0 GB");
    assert_eq!(format_memory(3_145_728), "3.0 GB");
}

#[test]
fn memory_text_matches_float_formatting() {
    let mut samples: Vec<u64> = vec![
        1023, 1024, 1075, 1126, 1177, 1280, 1331, 1382, 1433, 1484, 2355, 3379, 5632, 9_999, 104_908,
        1_048_575, 1_048_576, 1_153_434, 1_363_149, 5_767_168, 6_815_744, 999_999_999,
        (1u64 << 53) - 1, 1u64 << 53, (1u64 << 53) + 1, (1u64 << 53) + 3, (1u64 << 60) + 12345,
        u64::MAX - 1, u64::MAX,
    ];
    // Every value ending at a tie or near one, around several magnitudes.
    for base in [1024u64, 10_240, 1_048_576, 1_073_741_824, 1_099_511_627_776] {
        for k in 0..64u64 {
            samples.push(base + k * 51);
            samples.push(base * 3 + k * 52);
        }
    }
    for kb in samples {
        assert_eq!(format_memory(kb), float_memory(kb), "kb = {}", kb);
    }
}

#[test]
fn memory_in_mb_matches_float_formatting() {
    for kb in [0u64, 1, 512, 1023, 1024, 1280, 1536, 409_600, 1_048_576, (1u64 << 53) + 1, u64::MAX] {
        assert_eq!(memory_in_mb(kb), format!("{:.1} MB", kb as f64 / 1024.0), "kb = {}", kb);
    }
}

#[test]
fn ls_prints_table() {
    let mut apps = listed();
    apps[3].is_frozen = true;
    let plan = run(Commands::Ls, &apps, &protected());
    let lines = match plan {
        Plan::Print { lines } => lines,
        _ => panic!("expected a table"),
    };
    assert_eq!(lines.len(), 7);
    assert_eq!(
        lines[0],
        format!("{:<30} {:>7}  {:<30} {:>10}  {}", "NAME", "PID", "BUNDLE ID", "MEMORY", "STATUS")
    );
    assert_eq!(lines[1], "-".repeat(95));
    assert_eq!(
        lines[2],
        format!(
            "{:<30} {:>7}  {:<30} {:>10}  {}",
            "\u{1f512} Finder", 50, "com.apple.finder", "58.6 MB", "Running"
        )
    );
    assert_eq!(
        lines[3],
        format!(
            "{:<30} {:>7}  {:<30} {:>10}  {}",
            "Google Chrome", 200, "com.google.Chrome", "1.9 GB", "Running"
        )
    );
    assert_eq!(
        lines[5],
        format!(
            "{:<30} {:>7}  {:<30} {:>10}  {}",
            "Safari", 300, "com.apple.Safari", "390.6 MB", "Not Responding"
        )
    );
    assert_eq!(lines, table_text(&apps, &protected()));
}

#[test]
fn kill_all_skips_protected() {
    let apps = listed();
    let plan = run(Commands::Kill { name: None, force: true, all: true }, &apps, &protected());
    match plan {
        Plan::QuitAll { targets, skipped, force } => {
            let names: Vec<&str> = targets.iter().map(|a| a.name.as_str()).collect();
            assert_eq!(names, vec!["Google Chrome", "Chrome Helper", "Safari", "safari"]);
            assert_eq!(skipped, 1);
            assert!(force);
        }
        _ => panic!("expected quitting all"),
    }
}

#[test]
fn kill_without_name_fails() {
    let plan = run(Commands::Kill { name: None, force: false, all: false }, &listed(), &protected());
    match plan {
        Plan::Fail { lines, error } => {
            assert!(lines.is_empty());
            assert!(matches!(error, KillError::MissingName));
            assert_eq!(error.message(), "Specify an app name or use --all");
        }
        _ => panic!("expected a failure"),
    }
}

#[test]
fn kill_with_unknown_name_fails() {
    let plan = run(
        Commands::Kill { name: Some("Xcode".to_string()), force: false, all: false },
        &listed(),
        &protected(),
    );
    match plan {
        Plan::Fail { lines, error } => {
            assert!(lines.is_empty());
            assert_eq!(error.message(), "No running app matches \"Xcode\"");
        }
        _ => panic!("expected a failure"),
    }
}

#[test]
fn kill_with_ambiguous_name_lists_matches() {
    let plan = run(
        Commands::Kill { name: Some("CHROME".to_string()), force: false, all: false },
        &listed(),
        &protected(),
    );
    match plan {
        Plan::Fail { lines, error } => {
            assert_eq!(
                lines,
                vec![
                    "Multiple apps match \"CHROME\":",
                    "  - Google Chrome (PID 200)",
                    "  - Chrome Helper (PID 210)",
                ]
            );
            assert!(matches!(error, KillError::Ambiguous));
            assert_eq!(error.message(), "Multiple apps match, be more specific");
        }
        _ => panic!("expected a failure"),
    }
}

#[test]
fn kill_prefers_exact_name() {
    let plan = run(
        Commands::Kill { name: Some("SAFARI".to_string()), force: true, all: false },
        &listed(),
        &protected(),
    );
    match plan {
        Plan::QuitOne { target, force } => {
            assert_eq!(target.pid, 300);
            assert!(force);
        }
        _ => panic!("expected one quit"),
    }
    let plan = run(
        Commands::Kill { name: Some("helper".to_string()), force: false, all: false },
        &listed(),
        &protected(),
    );
    match plan {
        Plan::QuitOne { target, force } => {
            assert_eq!(target.name, "Chrome Helper");
            assert!(!force);
        }
        _ => panic!("expected one quit"),
    }
}

#[test]
fn kill_refuses_protected_app() {
    let plan = run(
        Commands::Kill { name: Some("finder".to_string()), force: false, all: false },
        &listed(),
        &protected(),
    );
    match plan {
        Plan::Fail { lines, error } => {
            assert!(lines.is_empty());
            assert_eq!(error.message(), "Finder is a protected app");
        }
        _ => panic!("expected a failure"),
    }
}

#[test]
fn quit_reports_and_failures() {
    let a = gui("Safari", 300, "com.apple.Safari", 1);
    assert_eq!(quit_report(&a, false, true), "\u{2705} Quit Safari (PID 300)");
    assert_eq!(quit_report(&a, true, false), "\u{274c} Force quit Safari (PID 300)");
    assert_eq!(quit_failure(&a, true).message(), "Failed to force quit Safari (PID 300)");
    assert_eq!(quit_failure(&a, false).message(), "Failed to quit Safari (PID 300)");
    let e = KillError::Protected { name: "Dock".to_string() };
    assert_eq!(e.message(), "Dock is a protected app");
    let e = KillError::NoMatch { query: "x".to_string() };
    assert_eq!(e.message(), "No running app matches \"x\"");
}

#[test]
fn kill_all_summary_lines() {
    let (lines, err) = kill_all_summary(3, 0, 0);
    assert_eq!(lines, vec!["\n3 apps quit successfully"]);
    assert!(err.is_none());
    let (lines, err) = kill_all_summary(2, 1, 4);
    assert_eq!(lines, vec!["\n2 apps quit successfully", "Skipped 4 protected apps"]);
    let err = err.expect("a failure is reported");
    assert!(matches!(err, KillError::SomeFailed { count: 1 }));
    assert_eq!(err.message(), "1 app(s) failed to quit");
}
