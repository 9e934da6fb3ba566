use arx_quit::process::{
    apps_from_listing, finish_listing, graceful_quit_script, parse_applescript_list, parse_usage,
    pid_list_arg, script_output, GuiApp,
};

fn gui(name: &str, pid: u32, bundle: &str, memory_kb: u64) -> GuiApp {
    GuiApp {
        name: name.to_string(),
        pid,
        bundle_id: bundle.to_string(),
        memory_kb,
        is_frozen: false,
    }
}

#[test]
fn applescript_list_splits_on_comma_space() {
    assert!(parse_applescript_list("").is_empty());
    assert_eq!(parse_applescript_list("Finder"), vec!["Finder"]);
    assert_eq!(
        parse_applescript_list("Finder, Safari,  Google Chrome , Mail"),
        vec!["Finder", "Safari", "Google Chrome", "Mail"]
    );
    assert_eq!(parse_applescript_list("a,b, c"), vec!["a,b", "c"]);
    assert_eq!(parse_applescript_list(", "), vec!["", ""]);
    assert_eq!(parse_applescript_list("   "), vec![""]);
}

#[test]
fn listing_pairs_rows_and_drops_own_and_bad_pids() {
    let apps = apps_from_listing(
        "Finder, Terminal, Safari, Broken, Extra",
        "com.apple.finder, com.apple.Terminal, com.apple.Safari, x.y",
        "120, 4242, 300, abc",
        4242,
    );
    assert_eq!(apps.len(), 2);
    assert_eq!(apps[0].name, "Finder");
    assert_eq!(apps[0].bundle_id, "com.apple.finder");
    assert_eq!(apps[0].pid, 120);
    assert_eq!(apps[0].memory_kb, 0);
    assert!(!apps[0].is_frozen);
    assert_eq!(apps[1].name, "Safari");
    assert_eq!(apps[1].pid, 300);
    assert!(apps.iter().all(|a| a.pid != 4242));
    assert!(apps_from_listing("", "", "", 1).is_empty());
    // A pid too large for 32 bits is not a pid.
    assert!(apps_from_listing("A", "a", "4294967296", 1).is_empty());
    assert_eq!(apps_from_listing("A", "a", "4294967295", 1)[0].pid, u32::MAX);
}

#[test]
fn pid_list_is_comma_separated() {
    assert_eq!(pid_list_arg(&vec![]), "");
    assert_eq!(pid_list_arg(&vec![gui("A", 7, "a", 0)]), "7");
    assert_eq!(
        pid_list_arg(&vec![gui("A", 7, "a", 0), gui("B", 0, "b", 0), gui("C", 4_294_967_295, "c", 0)]),
        "7,0,4294967295"
    );
}

#[test]
fn usage_lines_need_pid_rss_and_a_third_word() {
    let out = "  120  51200   1.5\n300 4096 0.0 extra\n\nbad 12 1.0\n  77  12\n88 x 2.0\r\n99 2048 3.1\r\n";
    let rows = parse_usage(out);
    let got: Vec<(u32, u64, String)> = rows.iter().map(|u| (u.pid, u.rss_kb, u.cpu_text.clone())).collect();
    assert_eq!(
        got,
        vec![
            (120, 51200, "1.5".to_string()),
            (300, 4096, "0.0".to_string()),
            (99, 2048, "3.1".to_string()),
        ]
    );
    assert!(parse_usage("").is_empty());
    assert_eq!(parse_usage("1\t2\t3")[0].cpu_text, "3");
}

#[test]
fn finish_listing_fills_memory_and_sorts_by_name() {
    let apps = vec![
        gui("safari", 3, "s", 0),
        gui("Mail", 2, "m", 0),
        gui("Safari", 1, "S", 0),
        gui("Calendar", 4, "c", 0),
    ];
    let rows = vec![(1, 100), (2, 200), (1, 150), (9, 900)];
    let r = finish_listing(apps, &rows);
    let got: Vec<(String, u32, u64)> = r.iter().map(|a| (a.name.clone(), a.pid, a.memory_kb)).collect();
    assert_eq!(
        got,
        vec![
            ("Calendar".to_string(), 4, 0),
            ("Mail".to_string(), 2, 200),
            ("safari".to_string(), 3, 0),
            ("Safari".to_string(), 1, 150),
        ]
    );
}

#[test]
fn quit_script_names_the_app() {
    assert_eq!(graceful_quit_script("Safari"), "tell application \"Safari\" to quit");
}

#[test]
fn script_output_is_trimmed() {
    assert_eq!(script_output("  Finder, Safari\n"), "Finder, Safari");
    assert_eq!(script_output("\n\t "), "");
    assert_eq!(script_output("x"), "x");
    assert_eq!(script_output("\u{3000}a b\u{a0}"), "a b");
}

#[test]
fn pids_parse_as_the_standard_parser_does() {
    for text in ["+12", "0012", "", "+", "-1", "12a", "4294967295", "4294967296"] {
        let apps = apps_from_listing("A", "a", text, 0);
        let expected: Option<u32> = text.parse::<u32>().ok().filter(|p| *p != 0);
        assert_eq!(apps.first().map(|a| a.pid), expected, "{:?}", text);
    }
}

#[test]
fn applescript_list_round_trip() {
    let cases: Vec<Vec<&str>> = vec![
        vec!["Finder"],
        vec!["Finder", "Safari", "Google Chrome"],
        vec!["a,", ",b", "", "c d"],
        vec!["", "x"],
    ];
    for xs in cases {
        let raw = xs.join(", ");
        let got = parse_applescript_list(&raw);
        assert_eq!(got, xs, "{:?}", raw);
        assert_eq!(got.len(), raw.matches(", ").count() + 1);
    }
    for raw in [" a ,  b , ", ", , ,", "x,y", "  "] {
        let got = parse_applescript_list(raw);
        assert_eq!(got.len(), raw.matches(", ").count() + 1, "{:?}", raw);
        assert!(got.iter().all(|g| g == g.trim()));
    }
}
