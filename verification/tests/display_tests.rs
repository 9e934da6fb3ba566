use arx_quit::app::{App, HistoryEntry, Message, QuitAction};
use arx_quit::display::{
    app_group_name, check_columns, column_headers, dialog_text, footer_height, format_memory, header_lines, group_names, hint_rows,
    hints, history_line, history_title, make_app_line, make_list_rows, make_list_title, preview_text, status_line,
    truncate, wrap_rows, ListRow, Tone,
};
use arx_quit::layout::{centered_rect, Area};
use arx_quit::process::GuiApp;
use ratatui::layout::{Constraint, Layout, Rect};

fn gui(name: &str, pid: u32, bundle: &str, memory_kb: u64) -> GuiApp {
    GuiApp {
        name: name.to_string(),
        pid,
        bundle_id: bundle.to_string(),
        memory_kb,
        is_frozen: false,
    }
}

/// The widths of the hint entries as the footer measures them.
fn hint_widths() -> Vec<u64> {
    hints().iter().map(|(k, l)| (1 + k.len() + 2 + l.len() + 2) as u64).collect()
}

#[test]
fn hint_table_and_widths() {
    let h = hints();
    assert_eq!(h.len(), 14);
    assert_eq!(h[0], ("\u{2191}\u{2193}/jk", "Navigate"));
    assert_eq!(h[5], ("R", "Refresh"));
    assert_eq!(h[6], ("e", "Refresh"));
    assert_eq!(h[13], ("q", "Exit"));
    assert_eq!(hint_widths(), vec![22, 16, 16, 16, 11, 13, 13, 12, 10, 11, 13, 17, 14, 10]);
}

#[test]
fn hints_wrap_greedily() {
    // Everything fits on one wide row.
    assert_eq!(hint_rows(500), vec![14]);
    assert_eq!(hint_rows(194), vec![14]);
    assert_eq!(hint_rows(193), vec![13, 1]);
    // Rows of at most 40 columns.
    assert_eq!(hint_rows(40), vec![2, 2, 3, 3, 2, 2]);
    // An item wider than the row still gets a row of its own.
    assert_eq!(hint_rows(0), vec![1; 14]);
    assert_eq!(hint_rows(5).len(), 14);
}

#[test]
fn wrap_rows_matches_greedy_filling() {
    assert_eq!(wrap_rows(&vec![3, 3, 3], 6), vec![2, 1]);
    assert_eq!(wrap_rows(&vec![10, 1, 1], 5), vec![1, 2]);
    assert_eq!(wrap_rows(&vec![0, 0, 7], 5), vec![2, 1]);
    assert_eq!(wrap_rows(&vec![5], 5), vec![1]);
}

#[test]
fn footer_height_counts_rows_status_and_border() {
    assert_eq!(footer_height(500, false), 3);
    assert_eq!(footer_height(500, true), 4);
    assert_eq!(footer_height(40, true), 9);
    assert_eq!(footer_height(0, false), 16);
}

#[test]
fn group_names_by_bundle_prefix() {
    assert_eq!(app_group_name("com.apple.Safari"), "Apple");
    assert_eq!(app_group_name("com.google.Chrome"), "Google");
    assert_eq!(app_group_name("com.microsoft.VSCode"), "Microsoft");
    assert_eq!(app_group_name("com.jetbrains.intellij"), "JetBrains");
    assert_eq!(app_group_name("com.github.atom"), "GitHub / Electron");
    assert_eq!(app_group_name("io.github.app"), "GitHub / Electron");
    assert_eq!(app_group_name("com.apple"), "Other");
    assert_eq!(app_group_name(""), "Other");
    assert_eq!(
        group_names(),
        vec!["Apple", "Google", "Microsoft", "JetBrains", "GitHub / Electron", "Other"]
    );
}

#[test]
fn every_group_name_is_in_group_order() {
    for b in ["com.apple.x", "com.google.x", "org.mozilla.firefox", "io.github.y", ""] {
        assert!(group_names().contains(&app_group_name(b)));
    }
}

#[test]
fn list_memory_format() {
    assert_eq!(format_memory(0), "< 1MB");
    assert_eq!(format_memory(1023), "< 1MB");
    assert_eq!(format_memory(1024), "1MB");
    assert_eq!(format_memory(2047), "1MB");
    assert_eq!(format_memory(409_600), "400MB");
    assert_eq!(format_memory(u64::MAX), format!("{}MB", u64::MAX / 1024));
}

#[test]
fn truncate_cuts_to_bytes_with_ellipsis() {
    assert_eq!(truncate("Safari", 24), "Safari");
    assert_eq!(truncate("abcdef", 6), "abcdef");
    assert_eq!(truncate("abcdefg", 6), "abcde\u{2026}");
    assert_eq!(truncate("Visual Studio Code Insiders", 24), "Visual Studio Code Insi\u{2026}");
    // A two-byte character that ends exactly at the cut.
    assert_eq!(truncate("\u{e9}\u{e9}\u{e9}", 5), "\u{e9}\u{e9}\u{2026}");
}

#[test]
fn columns_that_cannot_be_cut_are_detected() {
    assert!(check_columns(&gui("Safari", 1, "com.apple.Safari", 0)));
    // 22 ASCII bytes then a two-byte character: byte 23 falls inside it.
    let name = format!("{}\u{e9}xx", "a".repeat(22));
    assert!(!check_columns(&gui(&name, 1, "b", 0)));
    let bundle = format!("{}\u{e9}xx", "b".repeat(28));
    assert!(!check_columns(&gui("a", 1, &bundle, 0)));
}

#[test]
fn app_line_columns() {
    let apps = vec![
        gui("Safari", 300, "com.apple.Safari", 400_000),
        gui("Finder", 50, "com.apple.finder", 800),
    ];
    let mut app = App::new(apps, vec!["Finder".to_string()]);
    let plain = make_app_line(&app.apps[0], &app);
    assert_eq!(plain.marker, "  ");
    assert_eq!(plain.tone, Tone::Plain);
    assert!(!plain.frozen);
    assert_eq!(plain.name, format!("{:<24}", "Safari"));
    assert_eq!(plain.bundle, format!("  {:<30}", "com.apple.Safari"));
    assert_eq!(plain.pid, format!("  {:>6}", 300));
    assert_eq!(plain.memory, format!("  {:>6}", "390MB"));
    let locked = make_app_line(&app.apps[1], &app);
    assert_eq!(locked.marker, "\u{1f512}");
    assert_eq!(locked.tone, Tone::Dim);
    assert_eq!(locked.memory, format!("  {:>6}", "< 1MB"));
    // "Finder" is shown first (sorted by name), so move down to "Safari".
    app.update(Message::MoveDown, 0);
    app.update(Message::ToggleSelect, 0);
    let selected = make_app_line(&app.apps[0], &app);
    assert_eq!(selected.marker, "\u{25cf} ");
    assert_eq!(selected.tone, Tone::Accent);
}

#[test]
fn list_title_mentions_sort_group_filter_and_selection() {
    let apps = vec![gui("Safari", 300, "com.apple.Safari", 1), gui("Mail", 400, "com.apple.mail", 1)];
    let mut app = App::new(apps, vec![]);
    assert_eq!(make_list_title(&app, 2), " Applications (2) [\u{2191} Name] ");
    app.update(Message::ToggleGrouping, 0);
    app.update(Message::EnterFilter, 0);
    assert_eq!(make_list_title(&app, 2), " Applications (2) [\u{2191} Name] [Grouped] ");
    app.update(Message::FilterInput('a'), 0);
    app.update(Message::SelectAll, 0);
    assert_eq!(
        make_list_title(&app, 2),
        " Applications (2) [\u{2191} Name] [Grouped] Filter: a \u{2014} 2 selected "
    );
}

#[test]
fn list_rows_plain_and_grouped() {
    let apps = vec![
        gui("Safari", 1, "com.apple.Safari", 1),
        gui("Zed", 2, "dev.zed.Zed", 1),
        gui("Chrome", 3, "com.google.Chrome", 1),
        gui("Mail", 4, "com.apple.mail", 1),
    ];
    let mut app = App::new(apps, vec![]);
    let (rows, highlight) = make_list_rows(&app);
    assert_eq!(rows.len(), 4);
    for (k, row) in rows.iter().enumerate() {
        match row {
            ListRow::Item { index } => assert_eq!(*index, k),
            ListRow::Header { .. } => panic!("no headings without grouping"),
        }
    }
    assert_eq!(highlight, Some(0));

    app.update(Message::ToggleGrouping, 0);
    // Shown order: Chrome, Mail, Safari, Zed; cursor on Safari (position 2).
    app.update(Message::MoveDown, 0);
    app.update(Message::MoveDown, 0);
    let (rows, highlight) = make_list_rows(&app);
    let described: Vec<String> = rows
        .iter()
        .map(|r| match r {
            ListRow::Header { group, count } => format!("{} ({})", group, count),
            ListRow::Item { index } => format!("#{}", index),
        })
        .collect();
    assert_eq!(described, vec!["Apple (2)", "#1", "#2", "Google (1)", "#0", "Other (1)", "#3"]);
    assert_eq!(highlight, Some(2));
}

#[test]
fn history_lines_and_title() {
    let entry = HistoryEntry {
        timestamp: Some(3 * 86_400 + 13 * 3600 + 5 * 60 + 9),
        app_name: "Safari".to_string(),
        action: QuitAction::Graceful,
        success: true,
    };
    let line = history_line(&entry);
    assert_eq!(line.time, "  [13:05:09]  ");
    assert!(line.success);
    assert_eq!(line.text, "  quit   Safari");
    let entry = HistoryEntry {
        timestamp: None,
        app_name: "Mail".to_string(),
        action: QuitAction::Force,
        success: false,
    };
    let line = history_line(&entry);
    assert_eq!(line.time, "  [??:??:??]  ");
    assert!(!line.success);
    assert_eq!(line.text, "  force  Mail");
    assert_eq!(history_title(0), " Quit History (0) ");
    assert_eq!(history_title(12), " Quit History (12) ");
}

#[test]
fn status_lines() {
    assert_eq!(status_line("done", true), " \u{2713} done");
    assert_eq!(status_line("oops", false), " \u{2717} oops");
}

#[test]
fn dialog_for_one_app() {
    let d = dialog_text(&vec!["Safari".to_string()], QuitAction::Graceful);
    assert_eq!(d.title, " Quit Safari? ");
    assert_eq!(d.lead, "  Action: ");
    assert_eq!(d.action, "Quit");
    assert_eq!(d.tail, " \"Safari\"");
    assert!(d.items.is_empty());
    assert!(d.more.is_none());
    assert_eq!(d.height_pct, 30);
}

#[test]
fn dialog_for_many_apps() {
    let names: Vec<String> = (1..=10).map(|i| format!("App{}", i)).collect();
    let d = dialog_text(&names, QuitAction::Force);
    assert_eq!(d.title, " Force Quit 10 apps? ");
    assert_eq!(d.lead, "  ");
    assert_eq!(d.action, "Force Quit");
    assert_eq!(d.tail, " 10 apps:");
    assert_eq!(d.items.len(), 8);
    assert_eq!(d.items[0], "    \u{2022} App1");
    assert_eq!(d.items[7], "    \u{2022} App8");
    assert_eq!(d.more, Some("    ... and 2 more".to_string()));
    assert_eq!(d.height_pct, 50);
    let d = dialog_text(&vec!["A".to_string(), "B".to_string()], QuitAction::Graceful);
    assert_eq!(d.items, vec!["    \u{2022} A", "    \u{2022} B"]);
    assert!(d.more.is_none());
}

#[test]
fn centered_rect_sits_in_the_middle() {
    let screen = Area { x: 0, y: 0, width: 100, height: 50 };
    let r = centered_rect(70, 60, screen);
    assert_eq!(r, Area { x: 15, y: 10, width: 70, height: 30 });
    let r = centered_rect(100, 100, Area { x: 3, y: 4, width: 20, height: 10 });
    assert_eq!(r, Area { x: 3, y: 4, width: 20, height: 10 });
}

/// The overlay rectangle computed with the toolkit directly.
fn toolkit_centered(percent_x: u16, percent_y: u16, area: Rect) -> Rect {
    let rows = Layout::vertical([
        Constraint::Percentage((100 - percent_y) / 2),
        Constraint::Percentage(percent_y),
        Constraint::Percentage((100 - percent_y) / 2),
    ])
    .split(area);
    Layout::horizontal([
        Constraint::Percentage((100 - percent_x) / 2),
        Constraint::Percentage(percent_x),
        Constraint::Percentage((100 - percent_x) / 2),
    ])
    .split(rows[1])[1]
}

#[test]
fn centered_rect_agrees_with_the_toolkit() {
    for (w, h) in [(80u16, 24u16), (120, 40), (33, 17), (1, 1), (0, 0)] {
        for (px, py) in [(50u16, 30u16), (50, 50), (70, 60), (33, 99)] {
            let expected = toolkit_centered(px, py, Rect { x: 2, y: 1, width: w, height: h });
            let r = centered_rect(px, py, Area { x: 2, y: 1, width: w, height: h });
            assert_eq!(
                (r.x, r.y, r.width, r.height),
                (expected.x, expected.y, expected.width, expected.height)
            );
            assert!(r.x >= 2 && r.x as u32 + r.width as u32 <= 2 + w as u32);
            assert!(r.y >= 1 && r.y as u32 + r.height as u32 <= 1 + h as u32);
        }
    }
}

#[test]
fn preview_texts() {
    let mut a = gui("Safari", 300, "com.apple.Safari", 1536);
    let p = preview_text(&a);
    assert_eq!(p.name, "Safari");
    assert_eq!(p.pid, "300");
    assert_eq!(p.bundle, "com.apple.Safari");
    assert_eq!(p.memory, format!("{:.1} MB", 1536f64 / 1024.0));
    assert_eq!(p.status, "Running");
    a.is_frozen = true;
    a.memory_kb = 5_000_000_000;
    let p = preview_text(&a);
    assert_eq!(p.memory, format!("{:.1} MB", 5_000_000_000u64 as f64 / 1024.0));
    assert_eq!(p.status, "Not Responding");
}

#[test]
fn header_is_padded_to_the_banner_width() {
    let raw = [
        r"     _         __  __      ___        _  _   ",
        r"    / \   _ __ \ \/ /     / _ \  _  _(_)| |_ ",
        r"   / _ \ | '__| \  / ___ | | | || || | || __|",
        r"  / ___ \| |    /  \|___|| |_| || || | || |_ ",
        r" /_/   \_\_|   /_/\_\     \__\_\ \__,_|_| \__|",
    ];
    let max_w = raw.iter().map(|l| l.len()).max().unwrap();
    let mut expected: Vec<String> = raw.iter().map(|l| format!("{:<width$}", l, width = max_w)).collect();
    expected.push(format!("{:<width$}", "App Manager", width = max_w));
    assert_eq!(header_lines(), expected);
    assert!(header_lines().iter().all(|l| l.len() == 46));
}

#[test]
fn column_headers_match_the_row_widths() {
    assert_eq!(
        column_headers(),
        vec![
            "    ".to_string(),
            format!("{:<24}", "Name"),
            format!("  {:<30}", "Bundle ID"),
            format!("  {:>6}", "PID"),
            format!("  {:>6}", "Mem"),
            format!("  {:>5}", "CPU"),
        ]
    );
}

#[test]
fn centered_rect_examples_stay_on_screen() {
    let r = centered_rect(50, 30, Area { x: 0, y: 0, width: 100, height: 100 });
    assert_eq!(r, Area { x: 25, y: 35, width: 50, height: 30 });
    // An area that reaches the last coordinate.
    let area = Area { x: 65_000, y: 65_000, width: 1_000, height: 1_000 };
    let r = centered_rect(50, 50, area);
    assert!(r.x >= area.x && r.x as u32 + r.width as u32 <= u16::MAX as u32);
    assert!(r.y >= area.y && r.y as u32 + r.height as u32 <= u16::MAX as u32);
}
