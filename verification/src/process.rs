//! Running GUI applications: the record kept for each, and the text exchanged with
//! the system tools that list and quit them.
use vstd::prelude::*;
use crate::app::SortMode;
use crate::listing::{
    contains_ignoring_case, in_mode_order, law_filter_shows_matches, law_sort_modes_order_the_list,
    positions, visible_order, visible_positions,
};
use crate::text::{
    chars_of, decimal, first_words, line_ranges, lines_of, parse_u32, parse_u32_spec, parse_u64,
    parse_u64_spec, push_decimal, split_by, split_from, split_trimmed, trim, trimmed_range, words,
    find_from, has_substring, lemma_find_first, lemma_find_from, lemma_split_count, lemma_split_shift,
    lemma_trim_idempotent, match_count, occurs_at, lex_lt, lowercase,
};

verus! {

/// A running application with a user interface.
#[derive(Clone, Debug)]
pub struct GuiApp {
    pub name: String,
    pub pid: u32,
    pub bundle_id: String,
    /// Resident memory in KB.
    pub memory_kb: u64,
    pub is_frozen: bool,
}

impl GuiApp {
    /// A copy of this record.
    pub fn duplicate(&self) -> (r: GuiApp)
        ensures
            r == *self,
    {
        GuiApp {
            name: self.name.clone(),
            pid: self.pid,
            bundle_id: self.bundle_id.clone(),
            memory_kb: self.memory_kb,
            is_frozen: self.is_frozen,
        }
    }
}


/// The items of a list as AppleScript prints it: the pieces between `", "`, trimmed;
/// nothing for empty output.
pub open spec fn applescript_items(raw: Seq<char>) -> Seq<Seq<char>> {
    if raw.len() == 0 {
        seq![]
    } else {
        split_by(raw, ", "@).map_values(|p: Seq<char>| trim(p))
    }
}

/// Splits a list printed by AppleScript into its items.
pub fn parse_applescript_list(raw: &str) -> (r: Vec<String>)
    ensures
        r@.len() == applescript_items(raw@).len(),
        forall|k: int| 0 <= k < r@.len() ==> #[trigger] r@[k]@ == applescript_items(raw@)[k],
{
    if raw.is_empty() {
        return Vec::new();
    }
    let chars = chars_of(raw);
    let mut sep: Vec<char> = Vec::new();
    sep.push(',');
    sep.push(' ');
    proof {
        reveal_strlit(", ");
        assert(sep@ =~= ", "@);
    }
    split_trimmed(&chars, &sep)
}

/// The items joined with `", "` between them, as AppleScript prints a list.
pub open spec fn joined(xs: Seq<Seq<char>>) -> Seq<char>
    decreases xs.len(),
{
    if xs.len() == 0 {
        seq![]
    } else if xs.len() == 1 {
        xs[0]
    } else {
        xs[0] + ", "@ + joined(xs.drop_first())
    }
}

proof fn lemma_split_joined(xs: Seq<Seq<char>>)
    requires
        xs.len() > 0,
        forall|i: int| 0 <= i < xs.len() ==> !has_substring(#[trigger] xs[i], ", "@),
    ensures
        split_by(joined(xs), ", "@) == xs,
    decreases xs.len(),
{
    reveal_strlit(", ");
    let sep = ", "@;
    let x = xs[0];
    assert(!has_substring(x, sep));
    if xs.len() == 1 {
        lemma_find_from(x, sep, 0);
        if find_from(x, sep, 0) >= 0 {
            assert(occurs_at(x, sep, find_from(x, sep, 0)));
        }
        assert(x.subrange(0, x.len() as int) =~= x);
        assert(split_by(joined(xs), sep) =~= xs);
    } else {
        let rest = joined(xs.drop_first());
        let s = x + sep + rest;
        assert(joined(xs) == s);
        let n = x.len() as int;
        assert(s.subrange(n, n + 2) =~= sep);
        assert forall|j: int| 0 <= j < n implies !occurs_at(s, sep, j) by {
            if j + 2 <= n {
                assert(s.subrange(j, j + 2) =~= x.subrange(j, j + 2));
                if occurs_at(s, sep, j) {
                    assert(occurs_at(x, sep, j));
                }
            } else {
                assert(s[j + 1] == ',');
                assert(s.subrange(j, j + 2)[1] == s[j + 1]);
                assert(sep[1] == ' ');
            }
        }
        lemma_find_first(s, sep, 0, n);
        assert forall|i: int| 0 <= i < xs.drop_first().len() implies !has_substring(
            #[trigger] xs.drop_first()[i],
            ", "@,
        ) by {
            assert(xs.drop_first()[i] == xs[i + 1]);
        }
        lemma_split_joined(xs.drop_first());
        lemma_split_shift(x + sep, rest, sep, 0);
        assert((x + sep).len() + 0 == n + 2);
        assert(s.subrange(0, n) =~= x);
        assert(split_from(s, sep, 0) == seq![x] + split_from(s, sep, n + 2));
        assert(xs =~= seq![x] + xs.drop_first());
    }
}

/// Reading back a list that AppleScript printed gives its items: items that hold no
/// `", "` and no surrounding white space come back as they were, provided the printed
/// text is not empty.
pub proof fn law_applescript_list_round_trip(xs: Seq<Seq<char>>)
    requires
        joined(xs).len() > 0,
        forall|i: int|
            0 <= i < xs.len() ==> !has_substring(#[trigger] xs[i], ", "@) && trim(xs[i]) == xs[i],
    ensures
        applescript_items(joined(xs)) == xs,
{
    if xs.len() == 0 {
        assert(joined(xs).len() == 0);
    }
    lemma_split_joined(xs);
    assert(split_by(joined(xs), ", "@).map_values(|p: Seq<char>| trim(p)) =~= xs);
}

/// A non-empty printed list has one item more than it has `", "` separators, and each
/// item is free of surrounding white space.
pub proof fn law_applescript_items_shape(raw: Seq<char>)
    requires
        raw.len() > 0,
    ensures
        applescript_items(raw).len() == match_count(raw, ", "@, 0) + 1,
        forall|k: int|
            0 <= k < applescript_items(raw).len() ==> trim(#[trigger] applescript_items(raw)[k])
                == applescript_items(raw)[k],
{
    lemma_split_count(raw, ", "@, 0);
    assert forall|k: int| 0 <= k < applescript_items(raw).len() implies trim(
        #[trigger] applescript_items(raw)[k],
    ) == applescript_items(raw)[k] by {
        lemma_trim_idempotent(split_by(raw, ", "@)[k]);
    }
}

/// What a script printed, without the white space around it.
pub fn script_output(raw: &str) -> (r: String)
    ensures
        r@ == trim(raw@),
{
    let chars = chars_of(raw);
    proof {
        assert(chars@.subrange(0, chars@.len() as int) =~= chars@);
    }
    trimmed_range(&chars, 0, chars.len())
}

/// The listed process with the given pid is kept: the pid is a number and not our own.
pub open spec fn row_kept(pid_text: Seq<char>, my_pid: u32) -> bool {
    match parse_u32_spec(pid_text) {
        Some(p) => p != my_pid,
        None => false,
    }
}

/// Row numbers of the processes kept from the three parallel lists (names, bundle
/// identifiers, pids), which are read up to the shortest of them.
pub open spec fn kept_rows(
    names: Seq<Seq<char>>,
    bundles: Seq<Seq<char>>,
    pids: Seq<Seq<char>>,
    my_pid: u32,
) -> Seq<usize> {
    let n = if names.len() <= bundles.len() && names.len() <= pids.len() {
        names.len()
    } else if bundles.len() <= pids.len() {
        bundles.len()
    } else {
        pids.len()
    };
    positions(n).filter(|j: usize| row_kept(pids[j as int], my_pid))
}

/// An application record made from one row of the lists, before its memory use is known.
pub open spec fn listed_as(a: GuiApp, name: Seq<char>, bundle: Seq<char>, pid_text: Seq<char>) -> bool {
    &&& a.name@ == name
    &&& a.bundle_id@ == bundle
    &&& Some(a.pid) == parse_u32_spec(pid_text)
    &&& a.memory_kb == 0
    &&& !a.is_frozen
}

/// The applications described by the names, bundle identifiers and pids that AppleScript
/// printed, leaving out rows whose pid is not a number and our own process.
pub fn apps_from_listing(names_raw: &str, bundles_raw: &str, pids_raw: &str, my_pid: u32) -> (r:
    Vec<GuiApp>)
    ensures
        ({
            let names = applescript_items(names_raw@);
            let bundles = applescript_items(bundles_raw@);
            let pids = applescript_items(pids_raw@);
            let rows = kept_rows(names, bundles, pids, my_pid);
            &&& r@.len() == rows.len()
            &&& forall|k: int|
                0 <= k < r@.len() ==> listed_as(
                    #[trigger] r@[k],
                    names[rows[k] as int],
                    bundles[rows[k] as int],
                    pids[rows[k] as int],
                )
            &&& forall|k: int| 0 <= k < r@.len() ==> (#[trigger] r@[k]).pid != my_pid
        }),
{
    let names = parse_applescript_list(names_raw);
    let bundles = parse_applescript_list(bundles_raw);
    let pids = parse_applescript_list(pids_raw);
    let ghost ns = applescript_items(names_raw@);
    let ghost bs = applescript_items(bundles_raw@);
    let ghost ps = applescript_items(pids_raw@);
    let ghost pred = |j: usize| row_kept(ps[j as int], my_pid);
    let n = if names.len() <= bundles.len() && names.len() <= pids.len() {
        names.len()
    } else if bundles.len() <= pids.len() {
        bundles.len()
    } else {
        pids.len()
    };
    let ghost rows = kept_rows(ns, bs, ps, my_pid);
    proof {
        assert(rows == positions(n as nat).filter(pred));
        reveal(Seq::filter);
        assert(positions(0) =~= Seq::<usize>::empty());
    }
    let mut r: Vec<GuiApp> = Vec::new();
    let mut j: usize = 0;
    while j < n
        invariant
            n <= names@.len(),
            n <= bundles@.len(),
            n <= pids@.len(),
            names@.len() == ns.len(),
            bundles@.len() == bs.len(),
            pids@.len() == ps.len(),
            forall|k: int| 0 <= k < names@.len() ==> #[trigger] names@[k]@ == ns[k],
            forall|k: int| 0 <= k < bundles@.len() ==> #[trigger] bundles@[k]@ == bs[k],
            forall|k: int| 0 <= k < pids@.len() ==> #[trigger] pids@[k]@ == ps[k],
            pred == (|j: usize| row_kept(ps[j as int], my_pid)),
            j <= n,
            r@.len() == positions(j as nat).filter(pred).len(),
            forall|k: int|
                0 <= k < r@.len() ==> listed_as(
                    #[trigger] r@[k],
                    ns[positions(j as nat).filter(pred)[k] as int],
                    bs[positions(j as nat).filter(pred)[k] as int],
                    ps[positions(j as nat).filter(pred)[k] as int],
                ),
        decreases n - j,
    {
        let pid_chars = chars_of(pids[j].as_str());
        let parsed = parse_u32(&pid_chars);
        let ghost before = positions(j as nat).filter(pred);
        proof {
            assert(positions((j + 1) as nat) =~= positions(j as nat).push(j));
            positions(j as nat).lemma_filter_push(j, pred);
        }
        match parsed {
            Some(pid) => {
                if pid != my_pid {
                    r.push(
                        GuiApp {
                            name: names[j].clone(),
                            pid,
                            bundle_id: bundles[j].clone(),
                            memory_kb: 0,
                            is_frozen: false,
                        },
                    );
                    proof {
                        let after = positions((j + 1) as nat).filter(pred);
                        assert(after == before.push(j));
                        assert forall|k: int| 0 <= k < r@.len() implies listed_as(
                            #[trigger] r@[k],
                            ns[after[k] as int],
                            bs[after[k] as int],
                            ps[after[k] as int],
                        ) by {
                            if k < before.len() {
                                assert(after[k] == before[k]);
                            }
                        }
                    }
                }
            },
            None => {},
        }
        j = j + 1;
    }
    proof {
        assert forall|k: int| 0 <= k < r@.len() implies (#[trigger] r@[k]).pid != my_pid by {
            positions(n as nat).lemma_filter_pred(pred, k);
            assert(row_kept(ps[rows[k] as int], my_pid));
        }
    }
    r
}

/// The pids of the applications, separated by commas, as `ps -p` takes them.
pub open spec fn pid_list(apps: Seq<GuiApp>) -> Seq<char>
    decreases apps.len(),
{
    if apps.len() == 0 {
        seq![]
    } else if apps.len() == 1 {
        decimal(apps[0].pid as nat)
    } else {
        pid_list(apps.drop_last()) + seq![','] + decimal(apps.last().pid as nat)
    }
}

/// The pids of the applications, separated by commas.
pub fn pid_list_arg(apps: &Vec<GuiApp>) -> (r: String)
    ensures
        r@ == pid_list(apps@),
{
    let mut r = String::new();
    let mut k: usize = 0;
    while k < apps.len()
        invariant
            k <= apps@.len(),
            r@ == pid_list(apps@.take(k as int)),
        decreases apps@.len() - k,
    {
        if k > 0 {
            crate::text::push_char(&mut r, ',');
        }
        push_decimal(&mut r, apps[k].pid as u64);
        proof {
            let t = apps@.take(k + 1);
            assert(t.drop_last() =~= apps@.take(k as int));
            if k == 0 {
                assert(Seq::<char>::empty() + decimal(apps@[0].pid as nat) =~= decimal(apps@[0].pid as nat));
            }
        }
        k = k + 1;
    }
    proof {
        assert(apps@.take(apps@.len() as int) =~= apps@);
    }
    r
}

/// One line of `ps -o pid=,rss=,pcpu=` output: the pid, the resident memory in KB, and
/// the CPU share as printed.
pub struct UsageLine {
    pub pid: u32,
    pub rss_kb: u64,
    pub cpu_text: String,
}

/// What a line of `ps` output gives: the first three words, when there are at least three
/// and the first two are a pid and a memory size.
pub open spec fn usage_of_line(line: Seq<char>) -> Option<(u32, u64, Seq<char>)> {
    let w = words(line);
    if w.len() >= 3 {
        match (parse_u32_spec(w[0]), parse_u64_spec(w[1])) {
            (Some(pid), Some(rss)) => Some((pid, rss, w[2])),
            _ => None,
        }
    } else {
        None
    }
}

/// Numbers of the lines of `ps` output that give a usage record.
pub open spec fn usage_line_numbers(out: Seq<char>) -> Seq<usize> {
    positions(lines_of(out).len()).filter(|i: usize| usage_of_line(lines_of(out)[i as int]) is Some)
}

/// The usage records in `ps` output, one per line that gives one, in order.
pub fn parse_usage(out: &str) -> (r: Vec<UsageLine>)
    ensures
        r@.len() == usage_line_numbers(out@).len(),
        forall|k: int|
            0 <= k < r@.len() ==> usage_of_line(lines_of(out@)[usage_line_numbers(out@)[k] as int])
                == Some(((#[trigger] r@[k]).pid, r@[k].rss_kb, r@[k].cpu_text@)),
{
    let chars = chars_of(out);
    let ranges = line_ranges(&chars);
    let ghost lines = lines_of(out@);
    let ghost pred = |i: usize| usage_of_line(lines_of(out@)[i as int]) is Some;
    let mut r: Vec<UsageLine> = Vec::new();
    let mut i: usize = 0;
    proof {
        reveal(Seq::filter);
        assert(positions(0) =~= Seq::<usize>::empty());
    }
    while i < ranges.len()
        invariant
            chars@ == out@,
            lines == lines_of(out@),
            ranges@.len() == lines.len(),
            forall|k: int|
                #![trigger ranges@[k]]
                0 <= k < ranges@.len() ==> ranges@[k].0 <= ranges@[k].1 && ranges@[k].1 <= chars@.len()
                    && chars@.subrange(ranges@[k].0 as int, ranges@[k].1 as int) == lines[k],
            pred == (|i: usize| usage_of_line(lines_of(out@)[i as int]) is Some),
            i <= ranges@.len(),
            r@.len() == positions(i as nat).filter(pred).len(),
            forall|k: int|
                0 <= k < r@.len() ==> usage_of_line(lines[positions(i as nat).filter(pred)[k] as int])
                    == Some(((#[trigger] r@[k]).pid, r@[k].rss_kb, r@[k].cpu_text@)),
        decreases ranges@.len() - i,
    {
        let (lo, hi) = ranges[i];
        let (w, _more) = first_words(&chars, lo, hi, 3);
        let ghost before = positions(i as nat).filter(pred);
        let ghost line = lines[i as int];
        proof {
            assert(positions((i + 1) as nat) =~= positions(i as nat).push(i));
            positions(i as nat).lemma_filter_push(i, pred);
            assert(chars@.subrange(lo as int, hi as int) == line);
        }
        if w.len() == 3 {
            let p = parse_u32(&w[0]);
            let m = parse_u64(&w[1]);
            match (p, m) {
                (Some(pid), Some(rss)) => {
                    let mut cpu = String::new();
                    let mut q: usize = 0;
                    while q < w[2].len()
                        invariant
                            w@.len() == 3,
                            q <= w@[2]@.len(),
                            cpu@ == w@[2]@.take(q as int),
                        decreases w@[2]@.len() - q,
                    {
                        crate::text::push_char(&mut cpu, w[2][q]);
                        q = q + 1;
                        assert(cpu@ =~= w@[2]@.take(q as int));
                    }
                    proof {
                        assert(w@[2]@.take(w@[2]@.len() as int) =~= w@[2]@);
                    }
                    r.push(UsageLine { pid, rss_kb: rss, cpu_text: cpu });
                    proof {
                        let after = positions((i + 1) as nat).filter(pred);
                        assert(usage_of_line(line) == Some((pid, rss, words(line)[2])));
                        assert(pred(i));
                        assert(after == before.push(i));
                        assert forall|k: int| 0 <= k < r@.len() implies usage_of_line(lines[after[k] as int])
                            == Some(((#[trigger] r@[k]).pid, r@[k].rss_kb, r@[k].cpu_text@)) by {
                            if k < before.len() {
                                assert(after[k] == before[k]);
                            }
                        }
                    }
                },
                _ => {
                    proof {
                        assert(usage_of_line(line) is None);
                    }
                },
            }
        } else {
            proof {
                assert(words(line).len() < 3);
                assert(usage_of_line(line) is None);
            }
        }
        i = i + 1;
    }
    r
}


/// The memory size that the last usage record for `pid` gives, if any.
pub open spec fn last_rss(rows: Seq<(u32, u64)>, pid: u32) -> Option<u64>
    decreases rows.len(),
{
    if rows.len() == 0 {
        None
    } else if rows.last().0 == pid {
        Some(rows.last().1)
    } else {
        last_rss(rows.drop_last(), pid)
    }
}

/// The application with its memory size taken from the usage records, where they have one.
pub open spec fn with_usage(a: GuiApp, rows: Seq<(u32, u64)>) -> GuiApp {
    match last_rss(rows, a.pid) {
        Some(m) => GuiApp { memory_kb: m, ..a },
        None => a,
    }
}

/// The applications in name order (ignoring case; equal names keep their order).
pub open spec fn by_name(apps: Seq<GuiApp>) -> Seq<GuiApp> {
    visible_order(apps, seq![], SortMode::NameAsc).map_values(|i: usize| apps[i as int])
}

fn lookup_rss(rows: &Vec<(u32, u64)>, pid: u32) -> (r: Option<u64>)
    ensures
        r == last_rss(rows@, pid),
{
    let mut k = rows.len();
    proof {
        assert(rows@.take(k as int) =~= rows@);
    }
    while k > 0
        invariant
            k <= rows@.len(),
            last_rss(rows@, pid) == last_rss(rows@.take(k as int), pid),
        decreases k,
    {
        let (p, m) = rows[k - 1];
        proof {
            let t = rows@.take(k as int);
            assert(t.last() == rows@[k - 1]);
            assert(t.drop_last() =~= rows@.take(k - 1));
        }
        if p == pid {
            return Some(m);
        }
        k = k - 1;
    }
    proof {
        assert(rows@.take(0) =~= Seq::<(u32, u64)>::empty());
    }
    None
}

/// Completes a listing: sets each application's memory size from the usage records
/// (pid, resident KB), the last record for a pid counting, and sorts by name.
pub fn finish_listing(apps: Vec<GuiApp>, rows: &Vec<(u32, u64)>) -> (r: Vec<GuiApp>)
    ensures
        r@ == by_name(apps@.map_values(|a: GuiApp| with_usage(a, rows@))),
{
    let ghost updated = apps@.map_values(|a: GuiApp| with_usage(a, rows@));
    let mut filled: Vec<GuiApp> = Vec::new();
    let mut k: usize = 0;
    while k < apps.len()
        invariant
            k <= apps@.len(),
            updated == apps@.map_values(|a: GuiApp| with_usage(a, rows@)),
            filled@ == updated.take(k as int),
        decreases apps@.len() - k,
    {
        let mut a = apps[k].duplicate();
        match lookup_rss(rows, a.pid) {
            Some(m) => {
                a.memory_kb = m;
            },
            None => {},
        }
        filled.push(a);
        k = k + 1;
        proof {
            assert(filled@ =~= updated.take(k as int));
        }
    }
    proof {
        assert(updated.take(apps@.len() as int) =~= updated);
    }
    let order = visible_positions(&filled, "", SortMode::NameAsc);
    proof {
        reveal_strlit("");
        assert(""@ =~= Seq::<char>::empty());
    }
    let mut r: Vec<GuiApp> = Vec::new();
    let mut q: usize = 0;
    while q < order.len()
        invariant
            q <= order@.len(),
            filled@ == updated,
            order@ == visible_order(updated, seq![], SortMode::NameAsc),
            forall|j: int| 0 <= j < order@.len() ==> #[trigger] order@[j] < filled@.len(),
            r@ == order@.take(q as int).map_values(|i: usize| updated[i as int]),
        decreases order@.len() - q,
    {
        r.push(filled[order[q]].duplicate());
        q = q + 1;
        proof {
            assert(r@ =~= order@.take(q as int).map_values(|i: usize| updated[i as int]));
        }
    }
    proof {
        assert(order@.take(order@.len() as int) =~= order@);
    }
    r
}

/// The AppleScript that asks an application to quit.
pub fn graceful_quit_script(name: &str) -> (r: String)
    ensures
        r@ == "tell application \""@ + name@ + "\" to quit"@,
{
    let mut r = String::from_str("tell application \"");
    r.append(name);
    r.append("\" to quit");
    r
}

/// A completed listing is in name order, ignoring case, and holds every listed
/// application, each taken from the listing.
pub proof fn law_listing_by_name(apps: Seq<GuiApp>)
    requires
        apps.len() <= usize::MAX,
    ensures
        forall|a: int, b: int|
            0 <= a < b < by_name(apps).len() ==> !lex_lt(
                lowercase((#[trigger] by_name(apps)[b]).name@),
                lowercase((#[trigger] by_name(apps)[a]).name@),
            ),
        forall|i: int| 0 <= i < apps.len() ==> by_name(apps).contains(#[trigger] apps[i]),
        forall|k: int| 0 <= k < by_name(apps).len() ==> apps.contains(#[trigger] by_name(apps)[k]),
{
    let q: Seq<char> = seq![];
    law_sort_modes_order_the_list(apps, q, SortMode::NameAsc);
    law_filter_shows_matches(apps, q, SortMode::NameAsc);
    let v = visible_order(apps, q, SortMode::NameAsc);
    assert forall|a: int, b: int| 0 <= a < b < by_name(apps).len() implies !lex_lt(
        lowercase((#[trigger] by_name(apps)[b]).name@),
        lowercase((#[trigger] by_name(apps)[a]).name@),
    ) by {
        assert(in_mode_order(SortMode::NameAsc, apps[v[a] as int], apps[v[b] as int]));
    }
    assert forall|i: int| 0 <= i < apps.len() implies by_name(apps).contains(#[trigger] apps[i]) by {
        assert(contains_ignoring_case(apps[i].name@, q));
        assert(v.contains(i as usize));
        let k = choose|k: int| 0 <= k < v.len() && v[k] == i as usize;
        assert(by_name(apps)[k] == apps[i]);
    }
    assert forall|k: int| 0 <= k < by_name(apps).len() implies apps.contains(#[trigger] by_name(apps)[k]) by {
        assert(by_name(apps)[k] == apps[v[k] as int]);
    }
}

} // verus!
