//! What the screen shows, computed from the state: the key hints and how they wrap,
//! the list's rows and title, each application's line, and the text of the dialogs.
use vstd::prelude::*;
use crate::app::{sort_label, App, AppView};
use crate::cli::{as_f64, memory_in_mb, one_decimal};
use crate::listing::{lemma_positions_filter, positions};
use crate::process::GuiApp;
use crate::text::{
    byte_len, can_truncate, decimal, pad_left, pad_right, push_char, push_decimal, push_padded_left,
    push_padded_right, push_truncated, starts_with, starts_with_str, truncated, utf8_len,
};

verus! {

/// The key hints in the footer: key and what it does.
pub open spec fn hint_table() -> Seq<(Seq<char>, Seq<char>)> {
    seq![
        ("\u{2191}\u{2193}/jk"@, "Navigate"@),
        ("Space"@, "Select"@),
        ("a/d"@, "All/None"@),
        ("Enter/r"@, "Quit"@),
        ("f"@, "Force"@),
        ("R"@, "Refresh"@),
        ("e"@, "Refresh"@),
        ("/"@, "Filter"@),
        ("s"@, "Sort"@),
        ("g"@, "Group"@),
        ("l"@, "History"@),
        ("Tab/p"@, "Preview"@),
        ("Q"@, "Quit All"@),
        ("q"@, "Exit"@),
    ]
}

/// The key hints in the footer.
pub fn hints() -> (r: Vec<(&'static str, &'static str)>)
    ensures
        r@.map_values(|h: (&'static str, &'static str)| (h.0@, h.1@)) == hint_table(),
{
    let r = vec![
        ("\u{2191}\u{2193}/jk", "Navigate"),
        ("Space", "Select"),
        ("a/d", "All/None"),
        ("Enter/r", "Quit"),
        ("f", "Force"),
        ("R", "Refresh"),
        ("e", "Refresh"),
        ("/", "Filter"),
        ("s", "Sort"),
        ("g", "Group"),
        ("l", "History"),
        ("Tab/p", "Preview"),
        ("Q", "Quit All"),
        ("q", "Exit"),
    ];
    assert(r@.map_values(|h: (&'static str, &'static str)| (h.0@, h.1@)) =~= hint_table());
    r
}


/// Columns a key hint takes: a space, the key, ": ", the label and two spaces, counted
/// in bytes.
pub open spec fn hint_width(h: (Seq<char>, Seq<char>)) -> nat {
    1 + utf8_len(h.0) + 2 + utf8_len(h.1) + 2
}

/// The widths of the key hints.
pub open spec fn hint_widths() -> Seq<nat> {
    hint_table().map_values(|h: (Seq<char>, Seq<char>)| hint_width(h))
}

proof fn lemma_hint_widths()
    ensures
        hint_widths() =~= seq![22nat, 16, 16, 16, 11, 13, 13, 12, 10, 11, 13, 17, 14, 10],
{
    reveal_strlit("\u{2191}\u{2193}/jk");
    reveal_strlit("Navigate");
    reveal_strlit("Space");
    reveal_strlit("Select");
    reveal_strlit("a/d");
    reveal_strlit("All/None");
    reveal_strlit("Enter/r");
    reveal_strlit("Quit");
    reveal_strlit("f");
    reveal_strlit("Force");
    reveal_strlit("R");
    reveal_strlit("e");
    reveal_strlit("Refresh");
    reveal_strlit("/");
    reveal_strlit("Filter");
    reveal_strlit("s");
    reveal_strlit("Sort");
    reveal_strlit("g");
    reveal_strlit("Group");
    reveal_strlit("l");
    reveal_strlit("History");
    reveal_strlit("Tab/p");
    reveal_strlit("Preview");
    reveal_strlit("Q");
    reveal_strlit("Quit All");
    reveal_strlit("q");
    reveal_strlit("Exit");
    reveal_with_fuel(utf8_len, 9);
}


/// The sum of the first `n` elements.
pub open spec fn prefix_sum(w: Seq<nat>, n: int) -> nat
    decreases n,
{
    if n <= 0 {
        0
    } else {
        prefix_sum(w, n - 1) + w[n - 1]
    }
}

/// The total width of items `st..en`.
pub open spec fn span(w: Seq<nat>, st: int, en: int) -> int {
    prefix_sum(w, en) - prefix_sum(w, st)
}

/// `rows` (numbers of items per row) is how items of widths `w` wrap into rows of
/// `width` columns, filling each row in turn: every row holds at least one item, a row of
/// several items fits, and each row but the last has no room for the next item.
pub open spec fn wraps(w: Seq<nat>, width: nat, rows: Seq<nat>) -> bool {
    &&& prefix_sum(rows, rows.len() as int) == w.len()
    &&& forall|r: int|
        0 <= r < rows.len() ==> #[trigger] rows[r] >= 1 && (rows[r] == 1 || span(
            w,
            prefix_sum(rows, r) as int,
            prefix_sum(rows, r + 1) as int,
        ) <= width)
    &&& forall|r: int|
        0 <= r < rows.len() - 1 ==> span(w, prefix_sum(rows, r) as int, #[trigger] prefix_sum(rows, r + 1) as int)
            + w[prefix_sum(rows, r + 1) as int] > width
}

proof fn lemma_prefix_sum_push(w: Seq<nat>, x: nat)
    ensures
        prefix_sum(w.push(x), w.len() + 1 as int) == prefix_sum(w, w.len() as int) + x,
        forall|n: int| n <= w.len() ==> prefix_sum(w.push(x), n) == prefix_sum(w, n),
{
    assert forall|n: int| n <= w.len() implies prefix_sum(w.push(x), n) == prefix_sum(w, n) by {
        lemma_prefix_sum_prefix(w, x, n);
    }
    lemma_prefix_sum_prefix(w, x, w.len() as int);
}

proof fn lemma_prefix_sum_prefix(w: Seq<nat>, x: nat, n: int)
    requires
        n <= w.len(),
    ensures
        prefix_sum(w.push(x), n) == prefix_sum(w, n),
    decreases n,
{
    if n > 0 {
        lemma_prefix_sum_prefix(w, x, n - 1);
    }
}

/// Item counts as natural numbers.
pub open spec fn counts(v: Seq<usize>) -> Seq<nat> {
    v.map_values(|x: usize| x as nat)
}

/// Widths as natural numbers.
pub open spec fn widths_of(v: Seq<u64>) -> Seq<nat> {
    v.map_values(|x: u64| x as nat)
}

proof fn lemma_prefix_sum_mono(w: Seq<nat>, a: int, b: int)
    requires
        a <= b,
    ensures
        prefix_sum(w, a) <= prefix_sum(w, b),
    decreases b - a,
{
    if a < b {
        lemma_prefix_sum_mono(w, a, b - 1);
    }
}

/// Wraps items of widths `w` into rows of `width` columns; returns the number of items
/// in each row.
#[verifier::rlimit(40)]
pub fn wrap_rows(w: &Vec<u64>, width: u64) -> (r: Vec<usize>)
    requires
        w@.len() > 0,
        prefix_sum(widths_of(w@), w@.len() as int) <= u64::MAX,
    ensures
        wraps(widths_of(w@), width as nat, counts(r@)),
{
    let ghost ws = widths_of(w@);
    let mut rows: Vec<usize> = Vec::new();
    let mut st: usize = 0;
    let mut used: u64 = 0;
    let mut i: usize = 0;
    while i < w.len()
        invariant
            ws == widths_of(w@),
            ws.len() == w@.len(),
            prefix_sum(ws, ws.len() as int) <= u64::MAX,
            st <= i <= w@.len(),
            used == span(ws, st as int, i as int),
            prefix_sum(counts(rows@), rows@.len() as int) == st,
            i > 0 ==> i - st >= 1,
            i == 0 ==> rows@.len() == 0,
            i - st >= 2 ==> used <= width,
            forall|q: int|
                0 <= q < rows@.len() ==> #[trigger] counts(rows@)[q] >= 1
                    && (counts(rows@)[q] == 1 || span(
                    ws,
                    prefix_sum(counts(rows@), q) as int,
                    prefix_sum(counts(rows@), q + 1) as int,
                ) <= width),
            forall|q: int|
                0 <= q < rows@.len() ==> span(
                    ws,
                    prefix_sum(counts(rows@), q) as int,
                    #[trigger] prefix_sum(counts(rows@), q + 1) as int,
                ) + ws[prefix_sum(counts(rows@), q + 1) as int] > width,
        decreases w@.len() - i,
    {
        let x = w[i];
        proof {
            lemma_prefix_sum_mono(ws, i + 1, ws.len() as int);
            lemma_prefix_sum_mono(ws, 0, st as int);
            assert(ws[i as int] == x as nat);
        }
        if i > st && used + x > width {
            let ghost old_rows = counts(rows@);
            rows.push(i - st);
            proof {
                let nr = counts(rows@);
                assert(nr =~= old_rows.push((i - st) as nat));
                lemma_prefix_sum_push(old_rows, (i - st) as nat);
                assert forall|q: int| 0 <= q < nr.len() implies #[trigger] nr[q] >= 1 && (nr[q] == 1 || span(
                    ws,
                    prefix_sum(nr, q) as int,
                    prefix_sum(nr, q + 1) as int,
                ) <= width) by {
                    if q < old_rows.len() {
                        assert(nr[q] == old_rows[q]);
                    }
                }
                assert forall|q: int| 0 <= q < nr.len() implies span(
                    ws,
                    prefix_sum(nr, q) as int,
                    #[trigger] prefix_sum(nr, q + 1) as int,
                ) + ws[prefix_sum(nr, q + 1) as int] > width by {
                    if q < old_rows.len() {
                        assert(prefix_sum(nr, q + 1) == prefix_sum(old_rows, q + 1));
                        assert(span(ws, prefix_sum(old_rows, q) as int, prefix_sum(old_rows, q + 1) as int) + ws[prefix_sum(old_rows, q + 1) as int] > width);
                    }
                }
            }
            st = i;
            used = 0;
        }
        used = used + x;
        i = i + 1;
    }
    let ghost old_rows = counts(rows@);
    rows.push(i - st);
    proof {
        let nr = counts(rows@);
        assert(nr =~= old_rows.push((i - st) as nat));
        lemma_prefix_sum_push(old_rows, (i - st) as nat);
        assert forall|q: int| 0 <= q < nr.len() implies #[trigger] nr[q] >= 1 && (nr[q] == 1 || span(
            ws,
            prefix_sum(nr, q) as int,
            prefix_sum(nr, q + 1) as int,
        ) <= width) by {
            if q < old_rows.len() {
                assert(nr[q] == old_rows[q]);
            }
        }
        assert forall|q: int| 0 <= q < nr.len() - 1 implies span(
            ws,
            prefix_sum(nr, q) as int,
            #[trigger] prefix_sum(nr, q + 1) as int,
        ) + ws[prefix_sum(nr, q + 1) as int] > width by {
            assert(prefix_sum(nr, q + 1) == prefix_sum(old_rows, q + 1));
            assert(span(ws, prefix_sum(old_rows, q) as int, prefix_sum(old_rows, q + 1) as int) + ws[prefix_sum(old_rows, q + 1) as int] > width);
        }
    }
    rows
}


/// How many key hints each footer row holds for a footer `inner_width` columns wide.
pub fn hint_rows(inner_width: u16) -> (r: Vec<usize>)
    ensures
        wraps(hint_widths(), inner_width as nat, counts(r@)),
{
    let h = hints();
    proof {
        lemma_hint_widths();
    }
    let mut w: Vec<u64> = Vec::new();
    let mut k: usize = 0;
    while k < h.len()
        invariant
            k <= h@.len(),
            h@.map_values(|h: (&'static str, &'static str)| (h.0@, h.1@)) == hint_table(),
            hint_widths() =~= seq![22nat, 16, 16, 16, 11, 13, 13, 12, 10, 11, 13, 17, 14, 10],
            widths_of(w@) == hint_widths().take(k as int),
        decreases h@.len() - k,
    {
        let (key, label) = h[k];
        proof {
            assert(hint_table()[k as int] == (key@, label@));
            assert(hint_widths()[k as int] == hint_width((key@, label@)));
        }
        let x = 1 + byte_len(key) as u64 + 2 + byte_len(label) as u64 + 2;
        let ghost before = w@;
        w.push(x);
        proof {
            assert(x as nat == hint_widths()[k as int]);
            assert(widths_of(w@) =~= widths_of(before).push(x as nat));
            assert(hint_widths().take(k + 1) =~= hint_widths().take(k as int).push(hint_widths()[k as int]));
        }
        k = k + 1;
    }
    proof {
        assert(widths_of(w@) =~= hint_widths());
        assert(prefix_sum(hint_widths(), 14) == 194) by {
            reveal_with_fuel(prefix_sum, 15);
        }
    }
    wrap_rows(&w, inner_width as u64)
}

/// Height of the footer: its hint rows, a status row if there is a message, and the border.
pub fn footer_height(inner_width: u16, has_status: bool) -> (r: u16)
    ensures
        exists|rows: Seq<nat>|
            wraps(hint_widths(), inner_width as nat, rows) && r == rows.len() + (if has_status {
                1int
            } else {
                0
            }) + 2,
{
    let rows = hint_rows(inner_width);
    proof {
        let c = counts(rows@);
        assert(prefix_sum(c, c.len() as int) == 14);
        lemma_rows_bound(c);
    }
    let n = rows.len() as u16;
    n + if has_status {
        1
    } else {
        0
    } + 2
}

proof fn lemma_rows_bound(c: Seq<nat>)
    requires
        forall|q: int| 0 <= q < c.len() ==> #[trigger] c[q] >= 1,
    ensures
        prefix_sum(c, c.len() as int) >= c.len(),
    decreases c.len(),
{
    if c.len() > 0 {
        lemma_rows_bound(c.drop_last());
        lemma_prefix_sum_push(c.drop_last(), c.last());
        assert(c.drop_last().push(c.last()) =~= c);
    }
}


/// Items wrap into rows in one way only: two row counts that both wrap the same widths
/// into the same width are equal, so `wraps` determines the rows.
pub proof fn law_wrapping_is_unique(w: Seq<nat>, width: nat, a: Seq<nat>, b: Seq<nat>)
    requires
        wraps(w, width, a),
        wraps(w, width, b),
    ensures
        a == b,
{
    if a.len() <= b.len() {
        lemma_rows_agree(w, width, a, b, a.len());
        if a.len() < b.len() {
            lemma_rows_bound_from(b, a.len() as int);
        }
    } else {
        lemma_rows_agree(w, width, b, a, b.len());
        lemma_rows_bound_from(a, b.len() as int);
    }
    assert(a =~= b);
}

/// A row after position `n` adds at least one item.
proof fn lemma_rows_bound_from(c: Seq<nat>, n: int)
    requires
        0 <= n < c.len(),
        forall|q: int| 0 <= q < c.len() ==> #[trigger] c[q] >= 1,
    ensures
        prefix_sum(c, c.len() as int) > prefix_sum(c, n),
{
    lemma_prefix_sum_mono(c, n + 1, c.len() as int);
    assert(c[n] >= 1);
}

/// Two wrappings agree on their first `r` rows.
#[verifier::spinoff_prover]
proof fn lemma_rows_agree(w: Seq<nat>, width: nat, a: Seq<nat>, b: Seq<nat>, r: nat)
    requires
        wraps(w, width, a),
        wraps(w, width, b),
        r <= a.len(),
        r <= b.len(),
    ensures
        forall|i: int| 0 <= i < r ==> a[i] == b[i],
        prefix_sum(a, r as int) == prefix_sum(b, r as int),
    decreases r,
{
    if r > 0 {
        let q = (r - 1) as nat;
        lemma_rows_agree(w, width, a, b, q);
        lemma_row_agrees(w, width, a, b, q as int);
        lemma_row_agrees(w, width, b, a, q as int);
        assert(prefix_sum(a, r as int) == prefix_sum(a, q as int) + a[q as int]);
        assert(prefix_sum(b, r as int) == prefix_sum(b, q as int) + b[q as int]);
    }
}

/// Where two wrappings start row `r` at the same item, the first's row is no shorter
/// than the second's.
proof fn lemma_row_agrees(w: Seq<nat>, width: nat, a: Seq<nat>, b: Seq<nat>, r: int)
    requires
        wraps(w, width, a),
        wraps(w, width, b),
        0 <= r < a.len(),
        r < b.len(),
        prefix_sum(a, r) == prefix_sum(b, r),
    ensures
        a[r] >= b[r],
{
    let s = prefix_sum(a, r);
    if a[r] < b[r] {
        assert(b[r] >= 1);
        if r == a.len() - 1 {
            lemma_prefix_sum_mono(b, r + 1, b.len() as int);
            assert(prefix_sum(b, r + 1) == s + b[r]);
            assert(prefix_sum(a, r + 1) == s + a[r]);
        } else {
            let e: int = (s + a[r]) as int;
            assert(prefix_sum(a, r + 1) == e);
            assert(span(w, s as int, e) + w[e] > width);
            assert(span(w, s as int, prefix_sum(b, r + 1) as int) <= width);
            assert(prefix_sum(w, e + 1) == prefix_sum(w, e) + w[e]);
            lemma_prefix_sum_mono(w, e + 1, prefix_sum(b, r + 1) as int);
        }
    }
}

/// The banner at the top of the screen.
pub open spec fn logo() -> Seq<Seq<char>> {
    seq![
        "     _         __  __      ___        _  _   "@,
        "    / \\   _ __ \\ \\/ /     / _ \\  _  _(_)| |_ "@,
        "   / _ \\ | '__| \\  / ___ | | | || || | || __|"@,
        "  / ___ \\| |    /  \\|___|| |_| || || | || |_ "@,
        " /_/   \\_\\_|   /_/\\_\\     \\__\\_\\ \\__,_|_| \\__|"@,
    ]
}

/// The greatest length among the lines (zero for none).
pub open spec fn widest(lines: Seq<Seq<char>>) -> nat
    decreases lines.len(),
{
    if lines.len() == 0 {
        0
    } else if lines.last().len() > widest(lines.drop_last()) {
        lines.last().len()
    } else {
        widest(lines.drop_last())
    }
}

/// The header: the banner and the subtitle, each padded to the banner's width.
pub fn header_lines() -> (r: Vec<String>)
    ensures
        r@.map_values(|s: String| s@) == logo().push("App Manager"@).map_values(
            |l: Seq<char>| pad_right(l, widest(logo())),
        ),
{
    let mut raw: Vec<&'static str> = Vec::new();
    raw.push("     _         __  __      ___        _  _   ");
    raw.push("    / \\   _ __ \\ \\/ /     / _ \\  _  _(_)| |_ ");
    raw.push("   / _ \\ | '__| \\  / ___ | | | || || | || __|");
    raw.push("  / ___ \\| |    /  \\|___|| |_| || || | || |_ ");
    raw.push(" /_/   \\_\\_|   /_/\\_\\     \\__\\_\\ \\__,_|_| \\__|");
    proof {
        assert(raw@.map_values(|l: &str| l@) =~= logo());
    }
    let ghost lines = logo();
    let mut width: usize = 0;
    let mut i: usize = 0;
    while i < raw.len()
        invariant
            i <= raw@.len(),
            raw@.len() == lines.len(),
            forall|k: int| 0 <= k < raw@.len() ==> #[trigger] raw@[k]@ == lines[k],
            width == widest(lines.take(i as int)),
        decreases raw@.len() - i,
    {
        let n = crate::text::chars_of(raw[i]).len();
        proof {
            assert(lines.take(i + 1).drop_last() =~= lines.take(i as int));
        }
        if n > width {
            width = n;
        }
        i = i + 1;
    }
    proof {
        assert(lines.take(raw@.len() as int) =~= lines);
    }
    raw.push("App Manager");
    let ghost all = lines.push("App Manager"@);
    let mut r: Vec<String> = Vec::new();
    let mut j: usize = 0;
    while j < raw.len()
        invariant
            j <= raw@.len(),
            raw@.len() == all.len(),
            forall|k: int| 0 <= k < raw@.len() ==> #[trigger] raw@[k]@ == all[k],
            width == widest(lines),
            r@.map_values(|s: String| s@) =~= all.take(j as int).map_values(
                |l: Seq<char>| pad_right(l, width as nat),
            ),
        decreases raw@.len() - j,
    {
        let mut line = String::new();
        push_padded_right(&mut line, raw[j], width);
        let ghost before = r@;
        r.push(line);
        proof {
            assert(all.take(j + 1) =~= all.take(j as int).push(all[j as int]));
            assert(r@.map_values(|s: String| s@) =~= before.map_values(|s: String| s@).push(
                line@,
            ));
        }
        j = j + 1;
    }
    proof {
        assert(all.take(raw@.len() as int) =~= all);
    }
    r
}

/// The vendor group of a bundle identifier.
pub open spec fn group_of(bundle: Seq<char>) -> Seq<char> {
    if starts_with(bundle, "com.apple."@) {
        "Apple"@
    } else if starts_with(bundle, "com.google."@) {
        "Google"@
    } else if starts_with(bundle, "com.microsoft."@) {
        "Microsoft"@
    } else if starts_with(bundle, "com.jetbrains."@) {
        "JetBrains"@
    } else if starts_with(bundle, "com.github."@) || starts_with(bundle, "io.github."@) {
        "GitHub / Electron"@
    } else {
        "Other"@
    }
}

/// The groups in the order the grouped list shows them.
pub open spec fn group_order() -> Seq<Seq<char>> {
    seq!["Apple"@, "Google"@, "Microsoft"@, "JetBrains"@, "GitHub / Electron"@, "Other"@]
}

/// The vendor group of a bundle identifier.
pub fn app_group_name(bundle_id: &str) -> (r: &'static str)
    ensures
        r@ == group_of(bundle_id@),
{
    if starts_with_str(bundle_id, "com.apple.") {
        "Apple"
    } else if starts_with_str(bundle_id, "com.google.") {
        "Google"
    } else if starts_with_str(bundle_id, "com.microsoft.") {
        "Microsoft"
    } else if starts_with_str(bundle_id, "com.jetbrains.") {
        "JetBrains"
    } else if starts_with_str(bundle_id, "com.github.") || starts_with_str(bundle_id, "io.github.") {
        "GitHub / Electron"
    } else {
        "Other"
    }
}

/// The groups in the order the grouped list shows them.
pub fn group_names() -> (r: Vec<&'static str>)
    ensures
        r@.map_values(|g: &'static str| g@) == group_order(),
{
    let r = vec!["Apple", "Google", "Microsoft", "JetBrains", "GitHub / Electron", "Other"];
    assert(r@.map_values(|g: &'static str| g@) =~= group_order());
    r
}

/// Every bundle identifier falls in one of the listed groups.
pub proof fn law_every_group_is_listed(bundle: Seq<char>)
    ensures
        group_order().contains(group_of(bundle)),
{
    let g = group_of(bundle);
    let o = group_order();
    if g == "Apple"@ {
        assert(o[0] == g);
    } else if g == "Google"@ {
        assert(o[1] == g);
    } else if g == "Microsoft"@ {
        assert(o[2] == g);
    } else if g == "JetBrains"@ {
        assert(o[3] == g);
    } else if g == "GitHub / Electron"@ {
        assert(o[4] == g);
    } else {
        assert(o[5] == g);
    }
}

/// A memory size in KB as the list shows it: whole MB, or "< 1MB".
pub open spec fn short_memory(kb: u64) -> Seq<char> {
    if kb < 1024 {
        "< 1MB"@
    } else {
        decimal((kb / 1024) as nat) + "MB"@
    }
}

/// A memory size in KB as the list shows it.
pub fn format_memory(kb: u64) -> (r: String)
    ensures
        r@ == short_memory(kb),
{
    if kb < 1024 {
        String::from_str("< 1MB")
    } else {
        let mut r = String::new();
        push_decimal(&mut r, kb / 1024);
        r.append("MB");
        proof {
            assert(r@ =~= short_memory(kb));
        }
        r
    }
}

/// `s` cut to at most `max` bytes, with an ellipsis if it was cut.
pub fn truncate(s: &str, max: usize) -> (r: String)
    requires
        can_truncate(s@, max as nat),
    ensures
        r@ == truncated(s@, max as nat),
{
    let mut r = String::new();
    push_truncated(&mut r, s, max);
    proof {
        assert(r@ =~= truncated(s@, max as nat));
    }
    r
}

/// How an application's line is coloured.
#[derive(Clone, Copy, PartialEq, Eq, Structural, Debug)]
pub enum Tone {
    /// Protected: greyed out.
    Dim,
    /// Selected: highlighted.
    Accent,
    /// Neither.
    Plain,
}

/// The columns of an application's line in the list (the CPU column is added by the
/// renderer).
pub struct AppLine {
    pub marker: &'static str,
    pub tone: Tone,
    pub frozen: bool,
    pub name: String,
    pub bundle: String,
    pub pid: String,
    pub memory: String,
}

/// The marker of an application's line: a lock if protected, a dot if selected.
pub open spec fn line_marker(protected: bool, selected: bool) -> (Seq<char>, Tone) {
    if protected {
        ("\u{1f512}"@, Tone::Dim)
    } else if selected {
        ("\u{25cf} "@, Tone::Accent)
    } else {
        ("  "@, Tone::Plain)
    }
}

/// The application's name and bundle identifier can be shown in their columns.
pub open spec fn fits_columns(a: GuiApp) -> bool {
    can_truncate(a.name@, 24) && can_truncate(a.bundle_id@, 30)
}

/// Whether the name and bundle identifier can be cut to their column widths.
pub fn check_columns(a: &GuiApp) -> (r: bool)
    ensures
        r == fits_columns(*a),
{
    crate::text::check_truncate(a.name.as_str(), 24) && crate::text::check_truncate(
        a.bundle_id.as_str(),
        30,
    )
}

/// The line of application `a` in the list of state `app`.
pub fn make_app_line(a: &GuiApp, app: &App) -> (r: AppLine)
    requires
        fits_columns(*a),
    ensures
        (r.marker@, r.tone) == line_marker(app@.is_protected(a.name@), app@.selected.contains(a.pid)),
        r.frozen == a.is_frozen,
        r.name@ == pad_right(truncated(a.name@, 24), 24),
        r.bundle@ == "  "@ + pad_right(truncated(a.bundle_id@, 30), 30),
        r.pid@ == "  "@ + pad_left(decimal(a.pid as nat), 6),
        r.memory@ == "  "@ + pad_left(short_memory(a.memory_kb), 6),
{
    let is_protected = app.is_protected(a.name.as_str());
    let is_selected = app.selected_pids_contain(a.pid);
    let (marker, tone) = if is_protected {
        ("\u{1f512}", Tone::Dim)
    } else if is_selected {
        ("\u{25cf} ", Tone::Accent)
    } else {
        ("  ", Tone::Plain)
    };
    let name_col = truncate(a.name.as_str(), 24);
    let bundle_col = truncate(a.bundle_id.as_str(), 30);
    let mut name = String::new();
    push_padded_right(&mut name, name_col.as_str(), 24);
    let mut bundle = String::from_str("  ");
    push_padded_right(&mut bundle, bundle_col.as_str(), 30);
    let pid_text = crate::text::decimal_string(a.pid as u64);
    let mut pid = String::from_str("  ");
    push_padded_left(&mut pid, pid_text.as_str(), 6);
    let mem_text = format_memory(a.memory_kb);
    let mut memory = String::from_str("  ");
    push_padded_left(&mut memory, mem_text.as_str(), 6);
    proof {
        assert(name@ =~= pad_right(truncated(a.name@, 24), 24));
    }
    AppLine { marker, tone, frozen: a.is_frozen, name, bundle, pid, memory }
}

/// The title of the application list.
pub open spec fn list_title(v: AppView, count: nat, selected_count: nat) -> Seq<char> {
    " Applications ("@ + decimal(count) + ") ["@ + sort_label(v.sort_mode) + "]"@ + (if v.group_mode {
        " [Grouped]"@
    } else {
        Seq::empty()
    }) + (if v.filter_active && v.filter_query.len() > 0 {
        " Filter: "@ + v.filter_query
    } else {
        Seq::empty()
    }) + (if selected_count > 0 {
        " \u{2014} "@ + decimal(selected_count) + " selected"@
    } else {
        Seq::empty()
    }) + " "@
}

/// The title of the application list: how many are shown, the sort, grouping, filter and
/// selection.
pub fn make_list_title(app: &App, count: usize) -> (r: String)
    ensures
        r@ == list_title(app@, count as nat, app.selected_pids@.len()),
{
    let mut r = String::from_str(" Applications (");
    push_decimal(&mut r, count as u64);
    r.append(") [");
    r.append(app.sort_mode.label());
    r.append("]");
    if app.group_mode {
        r.append(" [Grouped]");
    }
    if app.filter_active && !app.filter_query.as_str().is_empty() {
        r.append(" Filter: ");
        r.append(app.filter_query.as_str());
    }
    if app.selected_pids.len() > 0 {
        r.append(" \u{2014} ");
        push_decimal(&mut r, app.selected_pids.len() as u64);
        r.append(" selected");
    }
    r.append(" ");
    proof {
        assert(r@ =~= list_title(app@, count as nat, app.selected_pids@.len()));
    }
    r
}


/// A row of the application list.
pub enum ListRow {
    /// A group heading with the group's name and size.
    Header { group: &'static str, count: usize },
    /// The application at this position of the shown list.
    Item { index: usize },
}

/// Mathematical form of a list row.
pub enum RowView {
    Header { group: Seq<char>, count: nat },
    Item { index: nat },
}

impl View for ListRow {
    type V = RowView;

    open spec fn view(&self) -> RowView {
        match self {
            ListRow::Header { group, count } => RowView::Header { group: group@, count: *count as nat },
            ListRow::Item { index } => RowView::Item { index: *index as nat },
        }
    }
}

/// Positions (in the shown list) of the applications whose bundle identifier is in group `g`.
pub open spec fn group_members(bundles: Seq<Seq<char>>, g: Seq<char>) -> Seq<usize> {
    positions(bundles.len()).filter(|k: usize| group_of(bundles[k as int]) == g)
}

/// The rows of one group: a heading and its members, or nothing if it has none.
pub open spec fn group_block(bundles: Seq<Seq<char>>, g: Seq<char>) -> Seq<RowView> {
    let m = group_members(bundles, g);
    if m.len() == 0 {
        seq![]
    } else {
        seq![RowView::Header { group: g, count: m.len() }] + m.map_values(|k: usize| RowView::Item { index: k as nat })
    }
}

/// The rows of the first `n` groups.
pub open spec fn grouped_rows_upto(bundles: Seq<Seq<char>>, n: int) -> Seq<RowView>
    decreases n,
{
    if n <= 0 {
        seq![]
    } else {
        grouped_rows_upto(bundles, n - 1) + group_block(bundles, group_order()[n - 1])
    }
}

/// The rows of the grouped list, for shown applications with these bundle identifiers.
pub open spec fn grouped_rows(bundles: Seq<Seq<char>>) -> Seq<RowView> {
    grouped_rows_upto(bundles, 6)
}

/// The rows of the list of state `v`: one per shown application, or grouped by vendor.
pub open spec fn list_rows(v: AppView) -> Seq<RowView> {
    let n = v.visible().len();
    if v.group_mode {
        grouped_rows(Seq::new(n, |k: int| v.shown(k).bundle_id@))
    } else {
        Seq::new(n, |k: int| RowView::Item { index: k as nat })
    }
}

/// The rows of the application list and which row is highlighted: the one showing the
/// application under the cursor.
pub fn make_list_rows(app: &App) -> (r: (Vec<ListRow>, Option<usize>))
    ensures
        r.0@.map_values(|x: ListRow| x@) == list_rows(app@),
        !app.group_mode ==> r.1 == Some(app.selected_index),
        app.group_mode ==> match r.1 {
            Some(h) => h < r.0@.len() && r.0@[h as int]@ == (RowView::Item { index: app.selected_index as nat }),
            None => forall|i: int| 0 <= i < r.0@.len() ==> r.0@[i]@ != (RowView::Item { index: app.selected_index as nat }),
        },
{
    let visible = app.filtered_sorted_apps();
    let n = visible.len();
    let mut rows: Vec<ListRow> = Vec::new();
    if !app.group_mode {
        let mut k: usize = 0;
        while k < n
            invariant
                k <= n,
                rows@.map_values(|x: ListRow| x@) =~= Seq::new(k as nat, |q: int| RowView::Item { index: q as nat }),
            decreases n - k,
        {
            let ghost prev = rows@;
            rows.push(ListRow::Item { index: k });
            k = k + 1;
            proof {
                assert(rows@.map_values(|x: ListRow| x@) =~= prev.map_values(|x: ListRow| x@).push(RowView::Item { index: (k - 1) as nat }));
            }
        }
        proof {
            assert(rows@.map_values(|x: ListRow| x@) =~= list_rows(app@));
        }
        return (rows, Some(app.selected_index));
    }
    let ghost bundles = Seq::new(n as nat, |k: int| app@.shown(k).bundle_id@);
    let groups = group_names();
    let mut highlight: Option<usize> = None;
    let mut g: usize = 0;
    proof {
        assert(rows@.map_values(|x: ListRow| x@) =~= grouped_rows_upto(bundles, 0));
    }
    while g < groups.len()
        invariant
            n == app@.visible().len(),
            visible@.len() == n,
            forall|q: int| 0 <= q < n ==> *visible@[q] == #[trigger] app@.shown(q),
            bundles == Seq::new(n as nat, |k: int| app@.shown(k).bundle_id@),
            groups@.map_values(|x: &'static str| x@) == group_order(),
            g <= groups@.len(),
            rows@.map_values(|x: ListRow| x@) == grouped_rows_upto(bundles, g as int),
            match highlight {
                Some(h) => h < rows@.len() && rows@[h as int]@ == (RowView::Item { index: app.selected_index as nat }),
                None => forall|i: int| 0 <= i < rows@.len() ==> rows@[i]@ != (RowView::Item { index: app.selected_index as nat }),
            },
        decreases groups@.len() - g,
    {
        let name = groups[g];
        let ghost gname = group_order()[g as int];
        let mut members: Vec<usize> = Vec::new();
        let ghost pred = |k: usize| group_of(bundles[k as int]) == gname;
        let mut k: usize = 0;
        proof {
            assert(name@ == gname);
            reveal(Seq::filter);
            assert(positions(0) =~= Seq::<usize>::empty());
        }
        while k < n
            invariant
                k <= n,
                n == bundles.len(),
                visible@.len() == n,
                forall|q: int| 0 <= q < n ==> *visible@[q] == #[trigger] app@.shown(q),
                bundles == Seq::new(n as nat, |k: int| app@.shown(k).bundle_id@),
                name@ == gname,
                pred == (|k: usize| group_of(bundles[k as int]) == gname),
                members@ == positions(k as nat).filter(pred),
                forall|q: int| 0 <= q < members@.len() ==> #[trigger] members@[q] < k,
            decreases n - k,
        {
            let grp = app_group_name(visible[k].bundle_id.as_str());
            let same = crate::text::same_text(grp, name);
            proof {
                assert(visible@[k as int].bundle_id@ == bundles[k as int]);
                assert(positions((k + 1) as nat) =~= positions(k as nat).push(k));
                positions(k as nat).lemma_filter_push(k, pred);
            }
            if same {
                members.push(k);
            }
            k = k + 1;
        }
        proof {
            assert(members@ == group_members(bundles, gname));
        }
        if members.len() > 0 {
            let ghost before = rows@.map_values(|x: ListRow| x@);
            let ghost old_len = rows@.len();
            rows.push(ListRow::Header { group: name, count: members.len() });
            let mut q: usize = 0;
            while q < members.len()
                invariant
                    q <= members@.len(),
                    rows@.len() == old_len + 1 + q,
                    rows@.map_values(|x: ListRow| x@) == before + seq![RowView::Header { group: gname, count: members@.len() }]
                        + members@.take(q as int).map_values(|k: usize| RowView::Item { index: k as nat }),
                    match highlight {
                        Some(h) => h < rows@.len() && rows@[h as int]@ == (RowView::Item { index: app.selected_index as nat }),
                        None => forall|i: int| 0 <= i < rows@.len() ==> rows@[i]@ != (RowView::Item { index: app.selected_index as nat }),
                    },
                decreases members@.len() - q,
            {
                let idx = members[q];
                let ghost prev = rows@;
                rows.push(ListRow::Item { index: idx });
                if idx == app.selected_index && highlight.is_none() {
                    highlight = Some(rows.len() - 1);
                }
                q = q + 1;
                proof {
                    assert(members@.take(q as int) =~= members@.take(q - 1).push(idx));
                    assert(rows@.map_values(|x: ListRow| x@) =~= prev.map_values(|x: ListRow| x@).push(RowView::Item { index: idx as nat }));
                    match highlight {
                        Some(h) => {
                            if h < prev.len() {
                                assert(rows@[h as int] == prev[h as int]);
                            }
                        },
                        None => {
                            assert forall|i: int| 0 <= i < rows@.len() implies rows@[i]@ != (RowView::Item { index: app.selected_index as nat }) by {
                                if i < prev.len() {
                                    assert(rows@[i] == prev[i]);
                                }
                            }
                        },
                    }
                }
            }
            proof {
                assert(members@.take(members@.len() as int) =~= members@);
            }
        }
        g = g + 1;
        proof {
            assert(rows@.map_values(|x: ListRow| x@) =~= grouped_rows_upto(bundles, g as int));
        }
    }
    proof {
        assert(groups@.len() == 6) by {
            assert(groups@.map_values(|x: &'static str| x@).len() == 6);
        }
        assert(bundles =~= Seq::new(app@.visible().len(), |k: int| app@.shown(k).bundle_id@));
        assert(rows@.map_values(|x: ListRow| x@) == grouped_rows(bundles));
    }
    (rows, highlight)
}


/// `n` with at least two digits (`{:02}`).
pub open spec fn two_digits(n: nat) -> Seq<char> {
    if n < 10 {
        seq!['0'] + decimal(n)
    } else {
        decimal(n)
    }
}

/// The time of day (UTC) of a timestamp as `HH:MM:SS`, or `??:??:??` without one.
pub open spec fn clock_text(secs: Option<u64>) -> Seq<char> {
    match secs {
        Some(s) => two_digits(((s / 3600) % 24) as nat) + ":"@ + two_digits(((s / 60) % 60) as nat)
            + ":"@ + two_digits((s % 60) as nat),
        None => "??:??:??"@,
    }
}

fn push_two_digits(s: &mut String, n: u64)
    ensures
        final(s)@ == old(s)@ + two_digits(n as nat),
{
    if n < 10 {
        push_char(s, '0');
    }
    push_decimal(s, n);
    assert(s@ =~= old(s)@ + two_digits(n as nat));
}

/// The parts of a history line: time, whether it succeeded, and action and name.
pub struct HistoryLine {
    pub time: String,
    pub success: bool,
    pub text: String,
}

/// The history line of an entry: `  [HH:MM:SS]  `, a check mark or cross, then the action
/// (padded to six columns) and the name.
pub fn history_line(entry: &crate::app::HistoryEntry) -> (r: HistoryLine)
    ensures
        r.time@ == "  ["@ + clock_text(entry.timestamp) + "]  "@,
        r.success == entry.success,
        r.text@ == "  "@ + pad_right(
            match entry.action {
                crate::app::QuitAction::Graceful => "quit"@,
                crate::app::QuitAction::Force => "force"@,
            },
            6,
        ) + " "@ + entry.app_name@,
{
    let mut time = String::from_str("  [");
    match entry.timestamp {
        Some(secs) => {
            push_two_digits(&mut time, (secs / 3600) % 24);
            time.append(":");
            push_two_digits(&mut time, (secs / 60) % 60);
            time.append(":");
            push_two_digits(&mut time, secs % 60);
        },
        None => {
            time.append("??:??:??");
        },
    }
    time.append("]  ");
    let mut text = String::from_str("  ");
    push_padded_right(
        &mut text,
        match entry.action {
            crate::app::QuitAction::Graceful => "quit",
            crate::app::QuitAction::Force => "force",
        },
        6,
    );
    text.append(" ");
    text.append(entry.app_name.as_str());
    proof {
        assert(time@ =~= "  ["@ + clock_text(entry.timestamp) + "]  "@);
    }
    HistoryLine { time, success: entry.success, text }
}

/// The title of the history overlay.
pub fn history_title(count: usize) -> (r: String)
    ensures
        r@ == " Quit History ("@ + decimal(count as nat) + ") "@,
{
    let mut r = String::from_str(" Quit History (");
    push_decimal(&mut r, count as u64);
    r.append(") ");
    r
}

/// The status line: a check mark or cross, then the message.
pub fn status_line(msg: &str, success: bool) -> (r: String)
    ensures
        r@ == (if success {
            " \u{2713} "@
        } else {
            " \u{2717} "@
        }) + msg@,
{
    let mut r = String::from_str(if success {
        " \u{2713} "
    } else {
        " \u{2717} "
    });
    r.append(msg);
    r
}


/// The texts of the preview pane for an application; the renderer adds the CPU share.
pub struct PreviewText {
    pub name: String,
    pub pid: String,
    pub bundle: String,
    pub memory: String,
    pub status: &'static str,
}

/// The preview of an application: its name, pid, bundle identifier, memory in MB with
/// one decimal, and whether it responds.
pub fn preview_text(a: &GuiApp) -> (r: PreviewText)
    ensures
        r.name@ == a.name@,
        r.pid@ == decimal(a.pid as nat),
        r.bundle@ == a.bundle_id@,
        r.memory@ == one_decimal(as_f64(a.memory_kb), 1024) + " MB"@,
        r.status@ == (if a.is_frozen {
            "Not Responding"@
        } else {
            "Running"@
        }),
{
    PreviewText {
        name: a.name.clone(),
        pid: crate::text::decimal_string(a.pid as u64),
        bundle: a.bundle_id.clone(),
        memory: memory_in_mb(a.memory_kb),
        status: if a.is_frozen {
            "Not Responding"
        } else {
            "Running"
        },
    }
}

/// The column headings of the application list: the gutter for the marker, then name,
/// bundle identifier, pid, memory and CPU, each as wide as its column.
pub fn column_headers() -> (r: Vec<String>)
    ensures
        r@.map_values(|s: String| s@) == seq![
            "    "@,
            pad_right("Name"@, 24),
            "  "@ + pad_right("Bundle ID"@, 30),
            "  "@ + pad_left("PID"@, 6),
            "  "@ + pad_left("Mem"@, 6),
            "  "@ + pad_left("CPU"@, 5),
        ],
{
    let mut r: Vec<String> = Vec::new();
    r.push(String::from_str("    "));
    let mut name = String::new();
    push_padded_right(&mut name, "Name", 24);
    r.push(name);
    let mut bundle = String::from_str("  ");
    push_padded_right(&mut bundle, "Bundle ID", 30);
    r.push(bundle);
    let mut pid = String::from_str("  ");
    push_padded_left(&mut pid, "PID", 6);
    r.push(pid);
    let mut mem = String::from_str("  ");
    push_padded_left(&mut mem, "Mem", 6);
    r.push(mem);
    let mut cpu = String::from_str("  ");
    push_padded_left(&mut cpu, "CPU", 5);
    r.push(cpu);
    proof {
        assert(Seq::<char>::empty() + pad_right("Name"@, 24) =~= pad_right("Name"@, 24));
        assert(r@.map_values(|s: String| s@) =~= seq![
            "    "@,
            pad_right("Name"@, 24),
            "  "@ + pad_right("Bundle ID"@, 30),
            "  "@ + pad_left("PID"@, 6),
            "  "@ + pad_left("Mem"@, 6),
            "  "@ + pad_left("CPU"@, 5),
        ]);
    }
    r
}

/// The text of the confirmation dialog; the renderer colours `action`.
pub struct DialogText {
    pub title: String,
    pub lead: String,
    pub action: &'static str,
    pub tail: String,
    pub items: Vec<String>,
    pub more: Option<String>,
    /// Height of the dialog in percent of the screen.
    pub height_pct: u16,
}

/// The word for an action in the dialog.
pub open spec fn dialog_action(a: crate::app::QuitAction) -> Seq<char> {
    match a {
        crate::app::QuitAction::Graceful => "Quit"@,
        crate::app::QuitAction::Force => "Force Quit"@,
    }
}

/// Lines listing at most eight names.
pub open spec fn dialog_items(names: Seq<Seq<char>>) -> Seq<Seq<char>> {
    names.take(if names.len() < 8 {
        names.len() as int
    } else {
        8
    }).map_values(|n: Seq<char>| "    \u{2022} "@ + n)
}

/// The confirmation dialog for quitting the named applications: one application is
/// named in the title, several are counted and listed (at most eight, then how many more).
pub fn dialog_text(names: &Vec<String>, action: crate::app::QuitAction) -> (r: DialogText)
    ensures
        ({
            let ns = names@.map_values(|n: String| n@);
            let a = dialog_action(action);
            let n = ns.len();
            &&& r.action@ == a
            &&& r.title@ == (if n == 1 {
                " "@ + a + " "@ + ns[0] + "? "@
            } else {
                " "@ + a + " "@ + decimal(n) + " apps? "@
            })
            &&& r.lead@ == (if n == 1 {
                "  Action: "@
            } else {
                "  "@
            })
            &&& r.tail@ == (if n == 1 {
                " \""@ + ns[0] + "\""@
            } else {
                " "@ + decimal(n) + " apps:"@
            })
            &&& r.items@.map_values(|s: String| s@) == (if n == 1 {
                Seq::empty()
            } else {
                dialog_items(ns)
            })
            &&& match r.more {
                Some(m) => n > 8 && m@ == "    ... and "@ + decimal((n - 8) as nat) + " more"@,
                None => n <= 8,
            }
            &&& r.height_pct == (if n > 1 {
                50u16
            } else {
                30u16
            })
        }),
{
    let ghost ns = names@.map_values(|n: String| n@);
    let action_text: &'static str = match action {
        crate::app::QuitAction::Graceful => "Quit",
        crate::app::QuitAction::Force => "Force Quit",
    };
    let n = names.len();
    let mut title = String::from_str(" ");
    title.append(action_text);
    title.append(" ");
    let mut tail = String::new();
    let mut items: Vec<String> = Vec::new();
    let lead;
    if n == 1 {
        title.append(names[0].as_str());
        title.append("? ");
        lead = String::from_str("  Action: ");
        tail.append(" \"");
        tail.append(names[0].as_str());
        tail.append("\"");
        proof {
            assert(items@.map_values(|s: String| s@) =~= Seq::<Seq<char>>::empty());
        }
    } else {
        push_decimal(&mut title, n as u64);
        title.append(" apps? ");
        lead = String::from_str("  ");
        tail.append(" ");
        push_decimal(&mut tail, n as u64);
        tail.append(" apps:");
        let shown = if n < 8 {
            n
        } else {
            8
        };
        let mut k: usize = 0;
        while k < shown
            invariant
                k <= shown <= n,
                n == names@.len(),
                shown == (if n < 8 {
                    n
                } else {
                    8
                }),
                ns == names@.map_values(|n: String| n@),
                items@.map_values(|s: String| s@) =~= ns.take(k as int).map_values(|m: Seq<char>| "    \u{2022} "@ + m),
            decreases shown - k,
        {
            let mut line = String::from_str("    \u{2022} ");
            line.append(names[k].as_str());
            let ghost prev = items@;
            items.push(line);
            k = k + 1;
            proof {
                assert(ns.take(k as int) =~= ns.take(k - 1).push(ns[k - 1]));
                assert(items@.map_values(|s: String| s@) =~= prev.map_values(|s: String| s@).push(line@));
            }
        }
    }
    let more = if n > 8 {
        let mut m = String::from_str("    ... and ");
        push_decimal(&mut m, (n - 8) as u64);
        m.append(" more");
        Some(m)
    } else {
        None
    };
    proof {
        assert(Seq::<char>::empty() + " \""@ + ns[0] + "\""@ =~= " \""@ + ns[0] + "\""@);
        assert(Seq::<char>::empty() + " "@ + decimal(n as nat) + " apps:"@ =~= " "@ + decimal(n as nat) + " apps:"@);
    }
    let height_pct: u16 = if n > 1 {
        50
    } else {
        30
    };
    DialogText { title, lead, action: action_text, tail, items, more, height_pct }
}

proof fn lemma_block_holds_member(bundles: Seq<Seq<char>>, k: int)
    requires
        bundles.len() <= usize::MAX,
        0 <= k < bundles.len(),
    ensures
        group_block(bundles, group_of(bundles[k])).contains(RowView::Item { index: k as nat }),
{
    let g = group_of(bundles[k]);
    let pred = |j: usize| group_of(bundles[j as int]) == g;
    lemma_positions_filter(bundles.len(), pred);
    let m = group_members(bundles, g);
    assert(pred(k as usize));
    assert(m.contains(k as usize));
    let q = choose|q: int| 0 <= q < m.len() && m[q] == k as usize;
    let items = m.map_values(|j: usize| RowView::Item { index: j as nat });
    assert(items[q] == RowView::Item { index: k as nat });
    let block = group_block(bundles, g);
    assert(block[q + 1] == items[q]);
}

proof fn lemma_rows_upto_hold_block(bundles: Seq<Seq<char>>, n: int, m: int, x: RowView)
    requires
        0 <= m < n,
        group_block(bundles, group_order()[m]).contains(x),
    ensures
        grouped_rows_upto(bundles, n).contains(x),
    decreases n,
{
    let pre = grouped_rows_upto(bundles, n - 1);
    let blk = group_block(bundles, group_order()[n - 1]);
    assert(grouped_rows_upto(bundles, n) == pre + blk);
    if m == n - 1 {
        let q = choose|q: int| 0 <= q < blk.len() && blk[q] == x;
        assert((pre + blk)[pre.len() + q] == x);
    } else {
        lemma_rows_upto_hold_block(bundles, n - 1, m, x);
        let q = choose|q: int| 0 <= q < pre.len() && pre[q] == x;
        assert((pre + blk)[q] == x);
    }
}

proof fn lemma_rows_upto_items_bounded(bundles: Seq<Seq<char>>, n: int)
    requires
        bundles.len() <= usize::MAX,
    ensures
        forall|r: int|
            0 <= r < grouped_rows_upto(bundles, n).len() ==> (#[trigger] grouped_rows_upto(
                bundles,
                n,
            )[r] matches RowView::Item { index } ==> index < bundles.len()),
    decreases n,
{
    if n > 0 {
        lemma_rows_upto_items_bounded(bundles, n - 1);
        let g = group_order()[n - 1];
        let pred = |j: usize| group_of(bundles[j as int]) == g;
        lemma_positions_filter(bundles.len(), pred);
        let pre = grouped_rows_upto(bundles, n - 1);
        let blk = group_block(bundles, g);
        assert forall|r: int|
            0 <= r < grouped_rows_upto(bundles, n).len() implies (#[trigger] grouped_rows_upto(
                bundles,
                n,
            )[r] matches RowView::Item { index } ==> index < bundles.len()) by {
            if r >= pre.len() {
                let q = r - pre.len();
                assert(grouped_rows_upto(bundles, n)[r] == blk[q]);
                if q > 0 {
                    assert(blk[q] == RowView::Item { index: group_members(bundles, g)[q - 1] as nat });
                }
            } else {
                assert(grouped_rows_upto(bundles, n)[r] == pre[r]);
            }
        }
    }
}

/// Grouping shows every application: each shown position has an item row in the
/// grouped list, and every item row names a shown position.
pub proof fn law_grouping_shows_every_app(bundles: Seq<Seq<char>>)
    requires
        bundles.len() <= usize::MAX,
    ensures
        forall|k: int|
            0 <= k < bundles.len() ==> #[trigger] grouped_rows(bundles).contains(
                RowView::Item { index: k as nat },
            ),
        forall|r: int|
            0 <= r < grouped_rows(bundles).len() ==> (#[trigger] grouped_rows(bundles)[r] matches RowView::Item {
                index,
            } ==> index < bundles.len()),
{
    assert forall|k: int| 0 <= k < bundles.len() implies #[trigger] grouped_rows(bundles).contains(
        RowView::Item { index: k as nat },
    ) by {
        lemma_block_holds_member(bundles, k);
        law_every_group_is_listed(bundles[k]);
        let o = group_order();
        let m = choose|m: int| 0 <= m < o.len() && o[m] == group_of(bundles[k]);
        lemma_rows_upto_hold_block(bundles, 6, m, RowView::Item { index: k as nat });
    }
    lemma_rows_upto_items_bounded(bundles, 6);
}

} // verus!
