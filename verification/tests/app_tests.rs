use arx_quit::app::{
    protected_names, refresh_due, time_to_refresh, App, Effect, KeyCode, KeyEvent, Message, MouseEvent, MouseEventKind, QuitAction,
    QuitReport, SortMode,
};
use arx_quit::process::GuiApp;

fn gui(name: &str, pid: u32, bundle: &str, memory_kb: u64) -> GuiApp {
    GuiApp {
        name: name.to_string(),
        pid,
        bundle_id: bundle.to_string(),
        memory_kb,
        is_frozen: false,
    }
}

fn sample_apps() -> Vec<GuiApp> {
    vec![
        gui("Safari", 300, "com.apple.Safari", 400_000),
        gui("finder", 100, "com.apple.finder", 50_000),
        gui("Chrome", 200, "com.google.Chrome", 900_000),
        gui("Finder", 50, "com.apple.finder", 60_000),
    ]
}

fn sample_app() -> App {
    App::new(sample_apps(), vec!["Finder".to_string()])
}

fn visible_names(app: &App) -> Vec<String> {
    app.filtered_sorted_apps().iter().map(|a| a.name.clone()).collect()
}

fn key(code: KeyCode) -> KeyEvent {
    KeyEvent { code }
}

fn selected_sorted(app: &App) -> Vec<u32> {
    let mut v = app.selected_pids.clone();
    v.sort();
    v
}

#[test]
fn new_app_starts_in_initial_state() {
    let app = sample_app();
    assert_eq!(app.selected_index, 0);
    assert!(app.selected_pids.is_empty());
    assert!(app.running);
    assert!(app.status_message.is_none());
    assert!(app.confirm_dialog.is_none());
    assert_eq!(app.sort_mode, SortMode::NameAsc);
    assert!(!app.filter_active);
    assert!(!app.group_mode);
    assert!(!app.show_history);
    assert!(!app.show_preview);
    assert!(app.quit_history.is_empty());
}

#[test]
fn protected_names_start_with_built_in_ones() {
    let names = protected_names(vec!["Terminal".to_string(), "Finder".to_string()]);
    assert_eq!(
        names,
        vec![
            "Finder".to_string(),
            "loginwindow".to_string(),
            "SystemUIServer".to_string(),
            "Dock".to_string(),
            "WindowServer".to_string(),
            "Terminal".to_string(),
            "Finder".to_string(),
        ]
    );
    let app = App::new(vec![], protected_names(vec![]));
    assert!(app.is_protected("Dock"));
    assert!(app.is_protected("WindowServer"));
    assert!(!app.is_protected("Terminal"));
    assert!(!app.is_protected("dock"));
}

#[test]
fn sort_modes_order_the_list() {
    let mut app = sample_app();
    // Case-insensitive by name, stable among equal names.
    assert_eq!(visible_names(&app), vec!["Chrome", "finder", "Finder", "Safari"]);
    app.update(Message::CycleSort, 0);
    assert_eq!(app.sort_mode, SortMode::NameDesc);
    assert_eq!(visible_names(&app), vec!["Safari", "finder", "Finder", "Chrome"]);
    app.update(Message::CycleSort, 0);
    assert_eq!(app.sort_mode, SortMode::PidAsc);
    assert_eq!(visible_names(&app), vec!["Finder", "finder", "Chrome", "Safari"]);
    app.update(Message::CycleSort, 0);
    assert_eq!(app.sort_mode, SortMode::MemDesc);
    assert_eq!(visible_names(&app), vec!["Chrome", "Safari", "Finder", "finder"]);
    app.update(Message::CycleSort, 0);
    assert_eq!(app.sort_mode, SortMode::NameAsc);
}

#[test]
fn sort_labels_and_cycle() {
    assert_eq!(SortMode::NameAsc.label(), "\u{2191} Name");
    assert_eq!(SortMode::NameDesc.label(), "\u{2193} Name");
    assert_eq!(SortMode::PidAsc.label(), "\u{2191} PID");
    assert_eq!(SortMode::MemDesc.label(), "\u{2193} Mem");
    let mut m = SortMode::PidAsc;
    for _ in 0..4 {
        m = m.next();
    }
    assert_eq!(m, SortMode::PidAsc);
}

#[test]
fn filter_matches_names_ignoring_case() {
    let mut app = sample_app();
    app.update(Message::EnterFilter, 0);
    assert!(app.filter_active);
    for c in "FIN".chars() {
        app.update(Message::FilterInput(c), 0);
    }
    assert_eq!(app.filter_query, "FIN");
    assert_eq!(visible_names(&app), vec!["finder", "Finder"]);
    app.update(Message::FilterBackspace, 0);
    app.update(Message::FilterBackspace, 0);
    app.update(Message::FilterBackspace, 0);
    assert_eq!(app.filter_query, "");
    app.update(Message::FilterBackspace, 0);
    assert_eq!(app.filter_query, "");
    assert_eq!(visible_names(&app).len(), 4);
    app.update(Message::FilterInput('x'), 0);
    assert!(visible_names(&app).is_empty());
    app.update(Message::ExitFilter, 0);
    assert!(!app.filter_active);
    assert_eq!(app.filter_query, "");
    assert_eq!(app.selected_index, 0);
}

#[test]
fn filter_input_then_backspace_restores_query() {
    let mut app = sample_app();
    app.update(Message::EnterFilter, 0);
    app.update(Message::FilterInput('s'), 0);
    app.update(Message::FilterInput('\u{e9}'), 0);
    app.update(Message::FilterBackspace, 0);
    assert_eq!(app.filter_query, "s");
}

#[test]
fn cursor_moves_within_the_list() {
    let mut app = sample_app();
    app.update(Message::MoveUp, 0);
    assert_eq!(app.selected_index, 0);
    for _ in 0..10 {
        app.update(Message::MoveDown, 0);
    }
    assert_eq!(app.selected_index, 3);
    app.update(Message::MoveUp, 0);
    assert_eq!(app.selected_index, 2);
}

#[test]
fn toggle_select_and_protected_warning() {
    let mut app = sample_app();
    // Cursor on "Chrome" (pid 200).
    app.update(Message::ToggleSelect, 10);
    assert_eq!(app.selected_pids, vec![200]);
    app.update(Message::ToggleSelect, 20);
    assert!(app.selected_pids.is_empty());
    // "Finder" (pid 50) is protected and sits at position 2.
    app.update(Message::MoveDown, 0);
    app.update(Message::MoveDown, 0);
    app.update(Message::ToggleSelect, 1234);
    assert!(app.selected_pids.is_empty());
    assert_eq!(
        app.status_message,
        Some(("Cannot quit protected app: Finder".to_string(), false))
    );
    assert_eq!(app.status_set_at, Some(1234));
}

#[test]
fn select_all_skips_protected_and_hidden() {
    let mut app = sample_app();
    app.update(Message::SelectAll, 0);
    assert_eq!(selected_sorted(&app), vec![100, 200, 300]);
    app.update(Message::DeselectAll, 0);
    assert!(app.selected_pids.is_empty());
    app.update(Message::EnterFilter, 0);
    app.update(Message::FilterInput('a'), 0);
    app.update(Message::SelectAll, 0);
    assert_eq!(selected_sorted(&app), vec![300]);
}

#[test]
fn quit_request_opens_dialog_then_confirm_quits() {
    let mut app = sample_app();
    app.update(Message::SelectAll, 0);
    let e = app.update(Message::RequestForceQuit, 0);
    assert!(matches!(e, Effect::Nothing));
    let dialog = app.confirm_dialog.as_ref().expect("dialog opens");
    assert_eq!(dialog.action, QuitAction::Force);
    assert_eq!(dialog.app_names, vec!["Chrome", "finder", "Safari"]);
    let e = app.update(Message::ConfirmYes, 0);
    assert!(app.confirm_dialog.is_none());
    match e {
        Effect::Quit { action, targets, first_name } => {
            assert_eq!(action, QuitAction::Force);
            assert_eq!(first_name, "Chrome");
            let pids: Vec<u32> = targets.iter().map(|a| a.pid).collect();
            assert_eq!(pids, vec![200, 100, 300]);
        }
        _ => panic!("expected a quit effect"),
    }
}

#[test]
fn quit_request_on_protected_cursor_warns() {
    let mut app = sample_app();
    app.update(Message::MoveDown, 0);
    app.update(Message::MoveDown, 0);
    let e = app.update(Message::RequestGracefulQuit, 77);
    assert!(matches!(e, Effect::Nothing));
    assert!(app.confirm_dialog.is_none());
    assert_eq!(
        app.status_message,
        Some(("Cannot quit protected app: Finder".to_string(), false))
    );
    let e = app.update(Message::RequestRestart, 78);
    assert!(matches!(e, Effect::Nothing));
}

#[test]
fn confirm_without_dialog_does_nothing() {
    let mut app = sample_app();
    let e = app.update(Message::ConfirmYes, 0);
    assert!(matches!(e, Effect::Nothing));
    assert!(app.running);
}

#[test]
fn cancel_and_quit_key_close_dialog() {
    let mut app = sample_app();
    app.update(Message::RequestGracefulQuit, 0);
    assert!(app.confirm_dialog.is_some());
    app.update(Message::ConfirmNo, 0);
    assert!(app.confirm_dialog.is_none());
    app.update(Message::RequestGracefulQuit, 0);
    app.update(Message::Quit, 0);
    assert!(app.confirm_dialog.is_none());
    assert!(app.running);
    app.update(Message::Quit, 0);
    assert!(!app.running);
}

#[test]
fn restart_asks_for_graceful_quit_then_relaunch() {
    let mut app = sample_app();
    let e = app.update(Message::RequestRestart, 0);
    let target = match e {
        Effect::Restart { app } => app,
        _ => panic!("expected a restart effect"),
    };
    assert_eq!(target.name, "Chrome");
    let e = app.finish_restart(target.duplicate(), true, 500);
    assert_eq!(app.status_message, Some(("Restarting Chrome...".to_string(), true)));
    match e {
        Effect::Relaunch { app } => assert_eq!(app.bundle_id, "com.google.Chrome"),
        _ => panic!("expected a relaunch effect"),
    }
    let e = app.finish_restart(target, false, 600);
    assert!(matches!(e, Effect::Nothing));
    assert_eq!(app.status_message, Some(("Failed to restart Chrome".to_string(), false)));
}

fn report(name: &str, success: bool) -> QuitReport {
    QuitReport { app_name: name.to_string(), success, timestamp: Some(3600) }
}

#[test]
fn finish_quit_summaries() {
    let mut app = sample_app();
    let e = app.finish_quit(QuitAction::Graceful, "Safari".to_string(), vec![report("Safari", true)], 1);
    assert!(matches!(e, Effect::Refresh));
    assert_eq!(
        app.status_message,
        Some(("Safari \u{2014} quit successfully".to_string(), true))
    );
    app.finish_quit(QuitAction::Force, "Safari".to_string(), vec![report("Safari", false)], 2);
    assert_eq!(app.status_message, Some(("Failed to force quit Safari".to_string(), false)));
    app.finish_quit(
        QuitAction::Graceful,
        "A".to_string(),
        vec![report("A", true), report("B", true)],
        3,
    );
    assert_eq!(app.status_message, Some(("2 apps quit successfully".to_string(), true)));
    app.finish_quit(
        QuitAction::Force,
        "A".to_string(),
        vec![report("A", true), report("B", false), report("C", false)],
        4,
    );
    assert_eq!(
        app.status_message,
        Some(("1 succeeded, 2 failed to force quit".to_string(), false))
    );
    app.finish_quit(
        QuitAction::Graceful,
        "A".to_string(),
        vec![report("A", false), report("B", false)],
        5,
    );
    assert_eq!(
        app.status_message,
        Some(("0 succeeded, 2 failed to quit".to_string(), false))
    );
    assert_eq!(app.quit_history.len(), 9);
    let last = app.quit_history.last().unwrap();
    assert_eq!(last.app_name, "B");
    assert_eq!(last.action, QuitAction::Graceful);
    assert!(!last.success);
    assert_eq!(last.timestamp, Some(3600));
}

#[test]
fn finish_quit_clears_selection_and_bounds_history() {
    let mut app = sample_app();
    app.update(Message::SelectAll, 0);
    let reports: Vec<QuitReport> = (0..150).map(|i| report(&format!("App{}", i), i % 2 == 0)).collect();
    app.finish_quit(QuitAction::Graceful, "App0".to_string(), reports, 9);
    assert!(app.selected_pids.is_empty());
    assert_eq!(app.quit_history.len(), 100);
    assert_eq!(app.quit_history[0].app_name, "App50");
    assert_eq!(app.quit_history[99].app_name, "App149");
}

#[test]
fn refresh_keeps_listed_selection_and_cursor_on_list() {
    let mut app = sample_app();
    app.update(Message::SelectAll, 0);
    for _ in 0..3 {
        app.update(Message::MoveDown, 0);
    }
    assert_eq!(app.selected_index, 3);
    let e = app.update(Message::RefreshList, 0);
    assert!(matches!(e, Effect::Refresh));
    app.apply_refresh(Some(vec![gui("Safari", 300, "com.apple.Safari", 1), gui("Mail", 400, "com.apple.mail", 2)]));
    assert_eq!(app.selected_pids, vec![300]);
    assert_eq!(app.selected_index, 1);
    assert_eq!(visible_names(&app), vec!["Mail", "Safari"]);
    app.apply_refresh(None);
    assert_eq!(app.apps.len(), 2);
}

#[test]
fn stale_status_is_cleared_after_five_seconds() {
    let mut app = sample_app();
    app.update(Message::MoveDown, 0);
    app.update(Message::MoveDown, 0);
    app.update(Message::ToggleSelect, 1000);
    assert!(app.status_message.is_some());
    app.clear_stale_status(6000);
    assert!(app.status_message.is_some());
    app.clear_stale_status(6001);
    assert!(app.status_message.is_none());
    assert!(app.status_set_at.is_none());
}

#[test]
fn toggles_flip_flags() {
    let mut app = sample_app();
    app.update(Message::MoveDown, 0);
    app.update(Message::ToggleGrouping, 0);
    assert!(app.group_mode);
    assert_eq!(app.selected_index, 0);
    app.update(Message::ToggleHistory, 0);
    assert!(app.show_history);
    app.update(Message::TogglePreview, 0);
    assert!(app.show_preview);
    app.update(Message::TogglePreview, 0);
    assert!(!app.show_preview);
}

#[test]
fn key_bindings_in_list_mode() {
    let app = sample_app();
    let cases = [
        (KeyCode::Up, Some(Message::MoveUp)),
        (KeyCode::Char('k'), Some(Message::MoveUp)),
        (KeyCode::Down, Some(Message::MoveDown)),
        (KeyCode::Char('j'), Some(Message::MoveDown)),
        (KeyCode::Char(' '), Some(Message::ToggleSelect)),
        (KeyCode::Char('a'), Some(Message::SelectAll)),
        (KeyCode::Char('d'), Some(Message::DeselectAll)),
        (KeyCode::Enter, Some(Message::RequestGracefulQuit)),
        (KeyCode::Char('r'), Some(Message::RequestGracefulQuit)),
        (KeyCode::Char('f'), Some(Message::RequestForceQuit)),
        (KeyCode::Char('R'), Some(Message::RefreshList)),
        (KeyCode::Char('e'), Some(Message::RefreshList)),
        (KeyCode::Char('q'), Some(Message::Quit)),
        (KeyCode::Char('/'), Some(Message::EnterFilter)),
        (KeyCode::Char('s'), Some(Message::CycleSort)),
        (KeyCode::Char('g'), Some(Message::ToggleGrouping)),
        (KeyCode::Char('l'), Some(Message::ToggleHistory)),
        (KeyCode::Tab, Some(Message::TogglePreview)),
        (KeyCode::Char('p'), Some(Message::TogglePreview)),
        (KeyCode::Esc, Some(Message::Quit)),
        (KeyCode::Char('z'), None),
        (KeyCode::Backspace, None),
        (KeyCode::Other, None),
    ];
    for (code, expected) in cases {
        assert_eq!(app.handle_key_event(key(code)), expected, "{:?}", code);
    }
}

#[test]
fn key_bindings_in_dialog_history_and_filter() {
    let mut app = sample_app();
    app.update(Message::RequestGracefulQuit, 0);
    assert_eq!(app.handle_key_event(key(KeyCode::Char('y'))), Some(Message::ConfirmYes));
    assert_eq!(app.handle_key_event(key(KeyCode::Enter)), Some(Message::ConfirmYes));
    assert_eq!(app.handle_key_event(key(KeyCode::Char('n'))), Some(Message::ConfirmNo));
    assert_eq!(app.handle_key_event(key(KeyCode::Esc)), Some(Message::ConfirmNo));
    assert_eq!(app.handle_key_event(key(KeyCode::Char('q'))), None);
    app.update(Message::ConfirmNo, 0);

    app.update(Message::ToggleHistory, 0);
    assert_eq!(app.handle_key_event(key(KeyCode::Char('l'))), Some(Message::ToggleHistory));
    assert_eq!(app.handle_key_event(key(KeyCode::Esc)), Some(Message::ToggleHistory));
    assert_eq!(app.handle_key_event(key(KeyCode::Char('q'))), None);
    app.update(Message::ToggleHistory, 0);

    app.update(Message::EnterFilter, 0);
    assert_eq!(app.handle_key_event(key(KeyCode::Esc)), Some(Message::ExitFilter));
    assert_eq!(app.handle_key_event(key(KeyCode::Char('/'))), Some(Message::ExitFilter));
    assert_eq!(app.handle_key_event(key(KeyCode::Backspace)), Some(Message::FilterBackspace));
    assert_eq!(app.handle_key_event(key(KeyCode::Char('q'))), Some(Message::FilterInput('q')));
    assert_eq!(app.handle_key_event(key(KeyCode::Char('\n'))), None);
    assert_eq!(app.handle_key_event(key(KeyCode::Up)), None);
}

fn click(row: u16) -> MouseEvent {
    MouseEvent { kind: MouseEventKind::LeftDown, row }
}

#[test]
fn mouse_clicks_move_cursor_and_double_click_toggles() {
    let mut app = sample_app();
    assert_eq!(
        app.handle_mouse_event(MouseEvent { kind: MouseEventKind::ScrollDown, row: 0 }, 0),
        Some(Message::MoveDown)
    );
    assert_eq!(
        app.handle_mouse_event(MouseEvent { kind: MouseEventKind::ScrollUp, row: 0 }, 0),
        Some(Message::MoveUp)
    );
    assert_eq!(app.handle_mouse_event(click(8), 0), None);
    assert_eq!(app.selected_index, 0);
    assert_eq!(app.handle_mouse_event(click(10), 1000), None);
    assert_eq!(app.selected_index, 1);
    assert_eq!(app.handle_mouse_event(click(10), 1499), Some(Message::ToggleSelect));
    assert_eq!(app.last_click, None);
    assert_eq!(app.handle_mouse_event(click(30), 2000), None);
    assert_eq!(app.selected_index, 3);
    assert_eq!(app.handle_mouse_event(click(30), 2500), None);
    assert_eq!(app.last_click, Some((30, 2500)));
    assert_eq!(app.handle_mouse_event(MouseEvent { kind: MouseEventKind::Other, row: 12 }, 2600), None);
}

#[test]
fn mouse_list_starts_lower_while_filtering() {
    let mut app = sample_app();
    app.update(Message::EnterFilter, 0);
    assert_eq!(app.handle_mouse_event(click(9), 0), None);
    assert_eq!(app.last_click, None);
    assert_eq!(app.handle_mouse_event(click(11), 0), None);
    assert_eq!(app.selected_index, 1);
    let mut empty = App::new(vec![], vec![]);
    assert_eq!(empty.handle_mouse_event(click(12), 0), None);
    assert_eq!(empty.last_click, None);
}

#[test]
fn selection_keeps_each_pid_once() {
    let mut app = sample_app();
    app.update(Message::SelectAll, 0);
    app.update(Message::SelectAll, 0);
    app.update(Message::ToggleSelect, 0);
    assert_eq!(app.selected_pids.len(), 2);
    app.update(Message::ToggleSelect, 0);
    let mut distinct = app.selected_pids.clone();
    distinct.sort();
    distinct.dedup();
    assert_eq!(distinct.len(), app.selected_pids.len());
    assert_eq!(app.selected_pids.len(), 3);
}

#[test]
fn own_process_is_never_listed_and_quit_needs_confirmation() {
    let mut app = App::new(
        arx_quit::process::apps_from_listing("Me, Other", "a.me, a.other", "7, 8", 7),
        vec![],
    );
    assert_eq!(visible_names(&app), vec!["Other"]);
    assert!(matches!(app.update(Message::RequestGracefulQuit, 0), Effect::Nothing));
    assert!(matches!(app.update(Message::ConfirmYes, 0), Effect::Quit { .. }));
    assert!(matches!(app.update(Message::ConfirmYes, 0), Effect::Nothing));
}

#[test]
fn automatic_refresh_every_five_seconds() {
    assert!(!refresh_due(1000, 1000));
    assert!(!refresh_due(1000, 5999));
    assert!(refresh_due(1000, 6000));
    assert!(refresh_due(0, u64::MAX));
    assert!(!refresh_due(7000, 10));
    assert_eq!(time_to_refresh(1000, 1000), 5000);
    assert_eq!(time_to_refresh(1000, 4500), 1500);
    assert_eq!(time_to_refresh(1000, 6000), 0);
    assert_eq!(time_to_refresh(1000, 9000), 0);
    assert_eq!(time_to_refresh(7000, 10), 5000);
}

#[test]
fn no_key_asks_for_a_restart() {
    let mut app = sample_app();
    let codes: Vec<KeyCode> = (0u8..128)
        .map(|b| KeyCode::Char(b as char))
        .chain([KeyCode::Enter, KeyCode::Esc, KeyCode::Backspace, KeyCode::Up, KeyCode::Down, KeyCode::Tab, KeyCode::Other])
        .collect();
    for mode in 0..4 {
        match mode {
            1 => {
                app.update(Message::RequestGracefulQuit, 0);
            }
            2 => {
                app.update(Message::ConfirmNo, 0);
                app.update(Message::ToggleHistory, 0);
            }
            3 => {
                app.update(Message::ToggleHistory, 0);
                app.update(Message::EnterFilter, 0);
            }
            _ => {}
        }
        for &code in &codes {
            let m = app.handle_key_event(key(code));
            assert_ne!(m, Some(Message::RequestRestart), "{:?}", code);
            if m == Some(Message::ConfirmYes) {
                assert!(app.confirm_dialog.is_some());
            }
        }
    }
}

#[test]
fn confirmed_batch_quits_the_dialog_targets_and_records_them() {
    let mut app = sample_app();
    app.update(Message::SelectAll, 0);
    app.update(Message::RequestGracefulQuit, 1);
    let names = app.confirm_dialog.as_ref().unwrap().app_names.clone();
    let (action, targets, first_name) = match app.update(Message::ConfirmYes, 2) {
        Effect::Quit { action, targets, first_name } => (action, targets, first_name),
        _ => panic!("expected a quit effect"),
    };
    assert_eq!(action, QuitAction::Graceful);
    let target_names: Vec<String> = targets.iter().map(|a| a.name.clone()).collect();
    assert_eq!(target_names, names);
    let reports: Vec<QuitReport> = targets
        .iter()
        .enumerate()
        .map(|(k, a)| QuitReport { app_name: a.name.clone(), success: k != 1, timestamp: Some(k as u64) })
        .collect();
    app.finish_quit(action, first_name, reports, 3);
    assert!(app.confirm_dialog.is_none());
    assert!(app.selected_pids.is_empty());
    let recorded: Vec<(String, bool)> = app.quit_history.iter().map(|h| (h.app_name.clone(), h.success)).collect();
    assert_eq!(
        recorded,
        vec![("Chrome".to_string(), true), ("finder".to_string(), false), ("Safari".to_string(), true)]
    );
    assert_eq!(
        app.status_message,
        Some(("2 succeeded, 1 failed to quit".to_string(), false))
    );
}
