use arx_quit::app::SortMode;
use arx_quit::listing::{filter_positions, lowercase_names, sort_positions, visible_positions};
use arx_quit::process::GuiApp;

fn gui(name: &str, pid: u32, memory_kb: u64) -> GuiApp {
    GuiApp {
        name: name.to_string(),
        pid,
        bundle_id: format!("bundle.{}", pid),
        memory_kb,
        is_frozen: false,
    }
}

fn apps() -> Vec<GuiApp> {
    vec![
        gui("\u{c9}cole", 5, 10),
        gui("zed", 3, 30),
        gui("Alpha", 9, 30),
        gui("alpha", 1, 20),
        gui("BETA", 7, 5),
    ]
}

#[test]
fn lowercase_names_use_unicode_case_mapping() {
    let lower = lowercase_names(&apps());
    let got: Vec<String> = lower.iter().map(|c| c.iter().collect()).collect();
    assert_eq!(got, vec!["\u{e9}cole", "zed", "alpha", "alpha", "beta"]);
}

#[test]
fn visible_order_per_sort_mode() {
    let a = apps();
    // Equal keys keep list order.
    assert_eq!(visible_positions(&a, "", SortMode::NameAsc), vec![2, 3, 4, 1, 0]);
    assert_eq!(visible_positions(&a, "", SortMode::NameDesc), vec![0, 1, 4, 2, 3]);
    assert_eq!(visible_positions(&a, "", SortMode::PidAsc), vec![3, 1, 0, 4, 2]);
    assert_eq!(visible_positions(&a, "", SortMode::MemDesc), vec![1, 2, 3, 0, 4]);
}

#[test]
fn visible_order_after_filtering() {
    let a = apps();
    assert_eq!(visible_positions(&a, "ALP", SortMode::PidAsc), vec![3, 2]);
    assert_eq!(visible_positions(&a, "\u{e9}", SortMode::NameAsc), vec![0]);
    assert_eq!(visible_positions(&a, "\u{c9}C", SortMode::NameAsc), vec![0]);
    assert!(visible_positions(&a, "q", SortMode::NameAsc).is_empty());
    assert!(visible_positions(&Vec::new(), "", SortMode::MemDesc).is_empty());
}

#[test]
fn filter_then_sort_by_steps() {
    let a = apps();
    let lower = lowercase_names(&a);
    let f = filter_positions(&a, &lower, "a");
    assert_eq!(f, vec![2, 3, 4]);
    assert_eq!(sort_positions(&a, &lower, SortMode::MemDesc, &f), vec![2, 3, 4]);
    assert_eq!(sort_positions(&a, &lower, SortMode::PidAsc, &vec![4, 4, 1]), vec![1, 4, 4]);
}
