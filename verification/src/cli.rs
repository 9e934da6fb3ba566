//! The command-line interface: listing applications and quitting them by name.
use vstd::prelude::*;
use crate::listing::{increasing, lemma_filter_increasing, lemma_positions_filter, positions};
use crate::process::GuiApp;
use crate::text::{
    decimal, digit_char, has_substring, lowercase, lowercase_chars, contains_chars, pad_left,
    pad_right, push_char, push_decimal, push_padded_left, push_padded_right, same_text,
};

verus! {

/// `n / d` rounded to the nearest integer, ties to the even one.
pub open spec fn div_round_even(n: nat, d: nat) -> nat {
    let q = n / d;
    let r = n % d;
    if 2 * r > d || (2 * r == d && q % 2 == 1) {
        q + 1
    } else {
        q
    }
}

/// The spacing of `f64` values around `n`: 1 below 2^53, doubling with each power of two.
pub open spec fn f64_spacing(n: u64) -> nat {
    if n < 0x0020_0000_0000_0000 {
        1
    } else if n < 0x0040_0000_0000_0000 {
        2
    } else if n < 0x0080_0000_0000_0000 {
        4
    } else if n < 0x0100_0000_0000_0000 {
        8
    } else if n < 0x0200_0000_0000_0000 {
        16
    } else if n < 0x0400_0000_0000_0000 {
        32
    } else if n < 0x0800_0000_0000_0000 {
        64
    } else if n < 0x1000_0000_0000_0000 {
        128
    } else if n < 0x2000_0000_0000_0000 {
        256
    } else if n < 0x4000_0000_0000_0000 {
        512
    } else if n < 0x8000_0000_0000_0000 {
        1024
    } else {
        2048
    }
}

/// The value of `n as f64`: `n` rounded to the nearest `f64`, ties to even.
pub open spec fn as_f64(n: u64) -> nat {
    div_round_even(n as nat, f64_spacing(n)) * f64_spacing(n)
}

/// `x / d` printed with one decimal (`{:.1}`), for a whole `x` and a power of two `d`,
/// so that the quotient is exact: tenths rounded to even.
pub open spec fn one_decimal(x: nat, d: nat) -> Seq<char> {
    let t = div_round_even(x * 10, d);
    decimal(t / 10) + seq!['.', digit_char(t % 10)]
}

/// A memory size in KB as the list command prints it.
pub open spec fn memory_text(kb: u64) -> Seq<char> {
    if kb < 1024 {
        decimal(kb as nat) + " KB"@
    } else if kb < 1_048_576 {
        one_decimal(kb as nat, 1024) + " MB"@
    } else {
        one_decimal(as_f64(kb), 1_048_576) + " GB"@
    }
}

fn div_round_even_exec(n: u128, d: u128) -> (r: u128)
    requires
        0 < d <= 1_048_576,
        n < 0x1_0000_0000_0000_0000_0000,
    ensures
        r == div_round_even(n as nat, d as nat),
        r <= n / d + 1,
{
    let q = n / d;
    let r = n % d;
    if 2 * r > d || (2 * r == d && q % 2 == 1) {
        q + 1
    } else {
        q
    }
}

fn f64_spacing_exec(n: u64) -> (r: u128)
    ensures
        r == f64_spacing(n),
        1 <= r <= 2048,
{
    if n < 0x0020_0000_0000_0000 {
        1
    } else if n < 0x0040_0000_0000_0000 {
        2
    } else if n < 0x0080_0000_0000_0000 {
        4
    } else if n < 0x0100_0000_0000_0000 {
        8
    } else if n < 0x0200_0000_0000_0000 {
        16
    } else if n < 0x0400_0000_0000_0000 {
        32
    } else if n < 0x0800_0000_0000_0000 {
        64
    } else if n < 0x1000_0000_0000_0000 {
        128
    } else if n < 0x2000_0000_0000_0000 {
        256
    } else if n < 0x4000_0000_0000_0000 {
        512
    } else if n < 0x8000_0000_0000_0000 {
        1024
    } else {
        2048
    }
}

/// Appends `x / d` with one decimal.
fn push_one_decimal(s: &mut String, x: u128, d: u128)
    requires
        1024 <= d <= 1_048_576,
        x <= 0x1_0000_0000_0000_0000,
    ensures
        final(s)@ == old(s)@ + one_decimal(x as nat, d as nat),
{
    assert(x * 10 < 0x1_0000_0000_0000_0000_0000) by (nonlinear_arith)
        requires
            x <= 0x1_0000_0000_0000_0000,
    ;
    let t = div_round_even_exec(x * 10, d);
    assert((x as int * 10) / (d as int) <= (x as int * 10) / 1024) by (nonlinear_arith)
        requires
            d >= 1024,
            x >= 0,
    ;
    assert((x as int * 10) / 1024 < 0x400_0000_0000_0000) by (nonlinear_arith)
        requires
            x <= 0x1_0000_0000_0000_0000,
    ;
    let whole = (t / 10) as u64;
    let digit = (t % 10) as u64;
    push_decimal(s, whole);
    push_char(s, '.');
    let c = crate::text::digit_to_char(digit);
    push_char(s, c);
    assert(s@ =~= old(s)@ + one_decimal(x as nat, d as nat));
}

/// `kb as f64`, exactly.
fn as_f64_exec(kb: u64) -> (r: u128)
    ensures
        r == as_f64(kb),
        r <= 0x1_0000_0000_0000_0000,
{
    let step = f64_spacing_exec(kb);
    let q = div_round_even_exec(kb as u128, step);
    assert(q * step <= 0x1_0000_0000_0000_0000) by (nonlinear_arith)
        requires
            q as int <= kb as int / step as int + 1,
            1 <= step <= 2048,
            kb < 0x1_0000_0000_0000_0000,
            step == 2048 || kb < 0x8000_0000_0000_0000,
    {
    }
    q * step
}

/// A memory size in KB in megabytes with one decimal, as the preview pane shows it.
pub fn memory_in_mb(kb: u64) -> (r: String)
    ensures
        r@ == one_decimal(as_f64(kb), 1024) + " MB"@,
{
    let mut s = String::new();
    let x = as_f64_exec(kb);
    push_one_decimal(&mut s, x, 1024);
    s.append(" MB");
    proof {
        assert(s@ =~= one_decimal(as_f64(kb), 1024) + " MB"@);
    }
    s
}

/// A memory size in KB as the list command prints it: KB below 1024, otherwise MB or GB
/// with one decimal.
pub fn format_memory(kb: u64) -> (r: String)
    ensures
        r@ == memory_text(kb),
{
    let mut s = String::new();
    if kb < 1024 {
        push_decimal(&mut s, kb);
        s.append(" KB");
    } else if kb < 1_048_576 {
        push_one_decimal(&mut s, kb as u128, 1024);
        s.append(" MB");
    } else {
        let x = as_f64_exec(kb);
        push_one_decimal(&mut s, x, 1_048_576);
        s.append(" GB");
    }
    proof {
        assert(Seq::<char>::empty() + decimal(kb as nat) =~= decimal(kb as nat));
    }
    s
}


/// A subcommand.
pub enum Commands {
    /// List running GUI applications.
    Ls,
    /// Quit a running application.
    Kill {
        /// App name (case-insensitive match).
        name: Option<String>,
        /// Force quit (SIGKILL) instead of graceful.
        force: bool,
        /// Target all non-protected apps.
        all: bool,
    },
}

/// The command line: a subcommand, or none for the interactive manager.
pub struct Cli {
    pub command: Option<Commands>,
}

/// Why a kill command fails.
pub enum KillError {
    MissingName,
    NoMatch { query: String },
    Ambiguous,
    Protected { name: String },
    QuitFailed { force: bool, name: String, pid: u32 },
    SomeFailed { count: u32 },
}

/// What a command asks its driver to do.
pub enum Plan {
    /// Print the lines.
    Print { lines: Vec<String> },
    /// Quit each target in turn, printing `quit_report` for each, then print and return
    /// `kill_all_summary` of the counts.
    QuitAll { targets: Vec<GuiApp>, skipped: u32, force: bool },
    /// Quit the target, print `quit_report`, and fail with `quit_failure` if that failed.
    QuitOne { target: GuiApp, force: bool },
    /// Print the lines, then fail with the error.
    Fail { lines: Vec<String>, error: KillError },
}

/// The applications whose lowercase name contains `query_lower`, in list order.
pub open spec fn name_hits(apps: Seq<GuiApp>, query_lower: Seq<char>) -> Seq<usize> {
    positions(apps.len()).filter(|i: usize| has_substring(lowercase(apps[i as int].name@), query_lower))
}

/// Among `hits`, those whose lowercase name is exactly `query_lower`.
pub open spec fn exact_hits(apps: Seq<GuiApp>, hits: Seq<usize>, query_lower: Seq<char>) -> Seq<usize> {
    hits.filter(|i: usize| lowercase(apps[i as int].name@) == query_lower)
}

/// The outcome of looking up the application a kill command names.
pub enum Lookup {
    /// No application's name contains the query.
    NoMatch,
    /// Several names contain the query and none equals it.
    Ambiguous { hits: Seq<usize> },
    /// The application found is protected.
    Protected { index: usize },
    /// The application to quit.
    Found { index: usize },
}

/// Which application `query` names: the first whose name equals it ignoring case, or
/// else the only one whose name contains it ignoring case; protected ones refused.
pub open spec fn lookup(apps: Seq<GuiApp>, protected: Seq<Seq<char>>, query: Seq<char>) -> Lookup {
    let ql = lowercase(query);
    let hits = name_hits(apps, ql);
    let exact = exact_hits(apps, hits, ql);
    if hits.len() == 0 {
        Lookup::NoMatch
    } else if hits.len() > 1 && exact.len() == 0 {
        Lookup::Ambiguous { hits }
    } else {
        let target = if exact.len() > 0 {
            exact[0]
        } else {
            hits[0]
        };
        if protected.contains(apps[target as int].name@) {
            Lookup::Protected { index: target }
        } else {
            Lookup::Found { index: target }
        }
    }
}

/// The words for an action in messages: "force quit" or "quit".
pub open spec fn action_words(force: bool) -> Seq<char> {
    if force {
        "force quit"@
    } else {
        "quit"@
    }
}

/// The message of a kill error.
pub open spec fn error_text(e: KillError) -> Seq<char> {
    match e {
        KillError::MissingName => "Specify an app name or use --all"@,
        KillError::NoMatch { query } => "No running app matches \""@ + query@ + "\""@,
        KillError::Ambiguous => "Multiple apps match, be more specific"@,
        KillError::Protected { name } => name@ + " is a protected app"@,
        KillError::QuitFailed { force, name, pid } => "Failed to "@ + action_words(force) + " "@
            + name@ + " (PID "@ + decimal(pid as nat) + ")"@,
        KillError::SomeFailed { count } => decimal(count as nat) + " app(s) failed to quit"@,
    }
}

impl KillError {
    /// The message shown for this error.
    pub fn message(&self) -> (r: String)
        ensures
            r@ == error_text(*self),
    {
        match self {
            KillError::MissingName => String::from_str("Specify an app name or use --all"),
            KillError::NoMatch { query } => {
                let mut m = String::from_str("No running app matches \"");
                m.append(query.as_str());
                m.append("\"");
                m
            },
            KillError::Ambiguous => String::from_str("Multiple apps match, be more specific"),
            KillError::Protected { name } => {
                let mut m = String::from_str(name.as_str());
                m.append(" is a protected app");
                m
            },
            KillError::QuitFailed { force, name, pid } => {
                let mut m = String::from_str("Failed to ");
                m.append(if *force {
                    "force quit"
                } else {
                    "quit"
                });
                m.append(" ");
                m.append(name.as_str());
                m.append(" (PID ");
                push_decimal(&mut m, *pid as u64);
                m.append(")");
                m
            },
            KillError::SomeFailed { count } => {
                let mut m = String::new();
                push_decimal(&mut m, *count as u64);
                m.append(" app(s) failed to quit");
                proof {
                    assert(Seq::<char>::empty() + decimal(*count as nat) =~= decimal(*count as nat));
                }
                m
            },
        }
    }
}

/// Whether `name` is in the list.
pub fn list_contains(list: &Vec<String>, name: &str) -> (r: bool)
    ensures
        r == list@.map_values(|s: String| s@).contains(name@),
{
    let ghost v = list@.map_values(|s: String| s@);
    let mut i: usize = 0;
    while i < list.len()
        invariant
            i <= list@.len(),
            v == list@.map_values(|s: String| s@),
            forall|k: int| 0 <= k < i ==> list@[k]@ != name@,
        decreases list@.len() - i,
    {
        if same_text(list[i].as_str(), name) {
            assert(v[i as int] == name@);
            return true;
        }
        i = i + 1;
    }
    proof {
        if v.contains(name@) {
            let k = choose|k: int| 0 <= k < v.len() && v[k] == name@;
            assert(list@[k]@ == name@);
        }
    }
    false
}

/// Finds the application a kill command names.
pub fn find_target(apps: &Vec<GuiApp>, protected: &Vec<String>, query: &str) -> (r: (u8, usize, Vec<usize>))
    ensures
        match lookup(apps@, protected@.map_values(|s: String| s@), query@) {
            Lookup::NoMatch => r.0 == 0,
            Lookup::Ambiguous { hits } => r.0 == 1 && r.2@ == hits,
            Lookup::Protected { index } => r.0 == 2 && r.1 == index,
            Lookup::Found { index } => r.0 == 3 && r.1 == index,
        },
        r.0 >= 2 ==> r.1 < apps@.len(),
        forall|k: int| 0 <= k < r.2@.len() ==> #[trigger] r.2@[k] < apps@.len(),
{
    let ql = lowercase_chars(query);
    let ghost hit_pred = |i: usize| has_substring(lowercase(apps@[i as int].name@), ql@);
    let ghost exact_pred = |i: usize| lowercase(apps@[i as int].name@) == ql@;
    let mut hits: Vec<usize> = Vec::new();
    let mut exact: Option<usize> = None;
    let mut i: usize = 0;
    proof {
        reveal(Seq::filter);
        assert(positions(0) =~= Seq::<usize>::empty());
    }
    while i < apps.len()
        invariant
            i <= apps@.len(),
            ql@ == lowercase(query@),
            hit_pred == (|i: usize| has_substring(lowercase(apps@[i as int].name@), ql@)),
            exact_pred == (|i: usize| lowercase(apps@[i as int].name@) == ql@),
            hits@ == positions(i as nat).filter(hit_pred),
            forall|k: int| 0 <= k < hits@.len() ==> #[trigger] hits@[k] < i,
            match exact {
                Some(e) => exact_hits(apps@, hits@, ql@).len() > 0 && exact_hits(apps@, hits@, ql@)[0] == e,
                None => exact_hits(apps@, hits@, ql@).len() == 0,
            },
        decreases apps@.len() - i,
    {
        let lower = lowercase_chars(apps[i].name.as_str());
        let is_hit = contains_chars(&lower, &ql);
        let ghost before = hits@;
        proof {
            assert(positions((i + 1) as nat) =~= positions(i as nat).push(i));
            positions(i as nat).lemma_filter_push(i, hit_pred);
        }
        if is_hit {
            hits.push(i);
            let mut same = lower.len() == ql.len();
            let mut q: usize = 0;
            while same && q < lower.len()
                invariant
                    q <= lower@.len(),
                    same ==> lower@.len() == ql@.len(),
                    same ==> forall|j: int| 0 <= j < q ==> lower@[j] == ql@[j],
                    !same ==> lower@ != ql@,
                decreases lower@.len() - q,
            {
                if lower[q] != ql[q] {
                    same = false;
                }
                q = q + 1;
            }
            proof {
                if same {
                    assert(lower@ =~= ql@);
                }
                before.lemma_filter_push(i, exact_pred);
                assert(hits@ == before.push(i));
            }
            if same && exact.is_none() {
                exact = Some(i);
            }
            proof {
                let ex = exact_hits(apps@, hits@, ql@);
                let ex0 = exact_hits(apps@, before, ql@);
                if ex0.len() > 0 {
                    assert(ex[0] == ex0[0]);
                }
            }
        }
        i = i + 1;
    }
    proof {
        assert(hits@ == name_hits(apps@, ql@));
    }
    if hits.len() == 0 {
        return (0, 0, hits);
    }
    if hits.len() > 1 && exact.is_none() {
        return (1, 0, hits);
    }
    let target = match exact {
        Some(e) => e,
        None => hits[0],
    };
    proof {
        let ex = exact_hits(apps@, hits@, ql@);
        if ex.len() > 0 {
            hits@.lemma_filter_pred(exact_pred, 0);
            assert(hits@.filter(exact_pred).contains(ex[0]));
            hits@.lemma_filter_contains_rev(exact_pred, ex[0]);
        }
    }
    if list_contains(protected, apps[target].name.as_str()) {
        (2, target, hits)
    } else {
        (3, target, hits)
    }
}


/// The header line of the application table.
pub open spec fn table_header() -> Seq<char> {
    pad_right("NAME"@, 30) + " "@ + pad_left("PID"@, 7) + "  "@ + pad_right("BUNDLE ID"@, 30) + " "@
        + pad_left("MEMORY"@, 10) + "  "@ + "STATUS"@
}

/// The table row of an application: name (with a lock if protected), pid, bundle
/// identifier, memory and state.
pub open spec fn table_row(a: GuiApp, protected: Seq<Seq<char>>) -> Seq<char> {
    let name = if protected.contains(a.name@) {
        "\u{1f512} "@ + a.name@
    } else {
        a.name@
    };
    let status = if a.is_frozen {
        "Not Responding"@
    } else {
        "Running"@
    };
    pad_right(name, 30) + " "@ + pad_left(decimal(a.pid as nat), 7) + "  "@ + pad_right(
        a.bundle_id@,
        30,
    ) + " "@ + pad_left(memory_text(a.memory_kb), 10) + "  "@ + status
}

/// `n` dashes.
pub open spec fn dashes(n: nat) -> Seq<char> {
    Seq::new(n, |_i: int| '-')
}

/// The lines of the application table.
pub open spec fn table_lines(apps: Seq<GuiApp>, protected: Seq<Seq<char>>) -> Seq<Seq<char>> {
    seq![table_header(), dashes(95)] + apps.map_values(|a: GuiApp| table_row(a, protected))
}

fn table_row_text(a: &GuiApp, protected: &Vec<String>) -> (r: String)
    ensures
        r@ == table_row(*a, protected@.map_values(|s: String| s@)),
{
    let mut name = String::new();
    if list_contains(protected, a.name.as_str()) {
        name.append("\u{1f512} ");
    }
    name.append(a.name.as_str());
    let mut r = String::new();
    push_padded_right(&mut r, name.as_str(), 30);
    r.append(" ");
    let pid = crate::text::decimal_string(a.pid as u64);
    push_padded_left(&mut r, pid.as_str(), 7);
    r.append("  ");
    push_padded_right(&mut r, a.bundle_id.as_str(), 30);
    r.append(" ");
    let mem = format_memory(a.memory_kb);
    push_padded_left(&mut r, mem.as_str(), 10);
    r.append("  ");
    r.append(if a.is_frozen {
        "Not Responding"
    } else {
        "Running"
    });
    proof {
        if !protected@.map_values(|s: String| s@).contains(a.name@) {
            assert(name@ =~= a.name@);
        }
        assert(r@ =~= table_row(*a, protected@.map_values(|s: String| s@)));
    }
    r
}

/// The lines that the list command prints.
pub fn table_text(apps: &Vec<GuiApp>, protected: &Vec<String>) -> (r: Vec<String>)
    ensures
        r@.map_values(|s: String| s@) == table_lines(apps@, protected@.map_values(|s: String| s@)),
{
    let mut r: Vec<String> = Vec::new();
    let mut header = String::new();
    push_padded_right(&mut header, "NAME", 30);
    header.append(" ");
    push_padded_left(&mut header, "PID", 7);
    header.append("  ");
    push_padded_right(&mut header, "BUNDLE ID", 30);
    header.append(" ");
    push_padded_left(&mut header, "MEMORY", 10);
    header.append("  ");
    header.append("STATUS");
    proof {
        assert(header@ =~= table_header());
    }
    r.push(header);
    let mut line = String::new();
    let mut k: usize = 0;
    while k < 95
        invariant
            k <= 95,
            line@ == dashes(k as nat),
        decreases 95 - k,
    {
        push_char(&mut line, '-');
        k = k + 1;
        assert(line@ =~= dashes(k as nat));
    }
    r.push(line);
    let ghost prot = protected@.map_values(|s: String| s@);
    let mut i: usize = 0;
    while i < apps.len()
        invariant
            i <= apps@.len(),
            prot == protected@.map_values(|s: String| s@),
            r@.map_values(|s: String| s@) == seq![table_header(), dashes(95)] + apps@.take(
                i as int,
            ).map_values(|a: GuiApp| table_row(a, prot)),
        decreases apps@.len() - i,
    {
        let row = table_row_text(&apps[i], protected);
        let ghost before = r@;
        r.push(row);
        proof {
            assert(r@.map_values(|s: String| s@) =~= before.map_values(|s: String| s@).push(
                table_row(apps@[i as int], prot),
            ));
            assert(apps@.take(i + 1).map_values(|a: GuiApp| table_row(a, prot)) =~= apps@.take(
                i as int,
            ).map_values(|a: GuiApp| table_row(a, prot)).push(table_row(apps@[i as int], prot)));
        }
        i = i + 1;
        proof {
            assert(r@.map_values(|s: String| s@) =~= seq![table_header(), dashes(95)] + apps@.take(
                i as int,
            ).map_values(|a: GuiApp| table_row(a, prot)));
        }
    }
    proof {
        assert(apps@.take(apps@.len() as int) =~= apps@);
    }
    r
}


/// The lines printed when several applications match: the query, then each match with
/// its pid.
pub open spec fn ambiguity_lines(apps: Seq<GuiApp>, query: Seq<char>, hits: Seq<usize>) -> Seq<Seq<char>> {
    seq!["Multiple apps match \""@ + query + "\":"@] + hits.map_values(
        |i: usize| "  - "@ + apps[i as int].name@ + " (PID "@ + decimal(apps[i as int].pid as nat) + ")"@,
    )
}

/// The applications that `--all` quits: those not protected, in list order.
pub open spec fn unprotected(apps: Seq<GuiApp>, protected: Seq<Seq<char>>) -> Seq<GuiApp> {
    apps.filter(|a: GuiApp| !protected.contains(a.name@))
}

/// The plan is what the command asks for over the listed applications and protected names.
pub open spec fn plans(cmd: Commands, apps: Seq<GuiApp>, protected: Seq<Seq<char>>, plan: Plan) -> bool {
    match cmd {
        Commands::Ls => match plan {
            Plan::Print { lines } => lines@.map_values(|s: String| s@) == table_lines(apps, protected),
            _ => false,
        },
        Commands::Kill { name, force, all } => if all {
            match plan {
                Plan::QuitAll { targets, skipped, force: f } => {
                    &&& targets@ == unprotected(apps, protected)
                    &&& skipped == apps.len() - targets@.len()
                    &&& f == force
                },
                _ => false,
            }
        } else {
            match name {
                None => match plan {
                    Plan::Fail { lines, error } => lines@.len() == 0 && error is MissingName,
                    _ => false,
                },
                Some(q) => match lookup(apps, protected, q@) {
                    Lookup::NoMatch => match plan {
                        Plan::Fail { lines, error } => lines@.len() == 0 && error_text(error)
                            == error_text(KillError::NoMatch { query: q }),
                        _ => false,
                    },
                    Lookup::Ambiguous { hits } => match plan {
                        Plan::Fail { lines, error } => lines@.map_values(|s: String| s@)
                            == ambiguity_lines(apps, q@, hits) && error is Ambiguous,
                        _ => false,
                    },
                    Lookup::Protected { index } => match plan {
                        Plan::Fail { lines, error } => lines@.len() == 0 && error_text(error)
                            == apps[index as int].name@ + " is a protected app"@,
                        _ => false,
                    },
                    Lookup::Found { index } => match plan {
                        Plan::QuitOne { target, force: f } => target == apps[index as int] && f
                            == force,
                        _ => false,
                    },
                },
            }
        },
    }
}

/// Decides what a command does over the listed applications and the protected names.
pub fn run(cmd: Commands, apps: &Vec<GuiApp>, protected: &Vec<String>) -> (plan: Plan)
    requires
        apps@.len() <= u32::MAX,
    ensures
        plans(cmd, apps@, protected@.map_values(|s: String| s@), plan),
{
    let ghost prot = protected@.map_values(|s: String| s@);
    match cmd {
        Commands::Ls => Plan::Print { lines: table_text(apps, protected) },
        Commands::Kill { name, force, all } => {
            if all {
                let ghost pred = |a: GuiApp| !prot.contains(a.name@);
                let mut targets: Vec<GuiApp> = Vec::new();
                let mut skipped: u32 = 0;
                let mut i: usize = 0;
                proof {
                    reveal(Seq::filter);
                    assert(apps@.take(0) =~= Seq::<GuiApp>::empty());
                }
                while i < apps.len()
                    invariant
                        i <= apps@.len() <= u32::MAX,
                        prot == protected@.map_values(|s: String| s@),
                        pred == (|a: GuiApp| !prot.contains(a.name@)),
                        targets@ == apps@.take(i as int).filter(pred),
                        skipped + targets@.len() == i,
                    decreases apps@.len() - i,
                {
                    let keep = !list_contains(protected, apps[i].name.as_str());
                    proof {
                        assert(apps@.take(i + 1) =~= apps@.take(i as int).push(apps@[i as int]));
                        apps@.take(i as int).lemma_filter_push(apps@[i as int], pred);
                    }
                    if keep {
                        targets.push(apps[i].duplicate());
                    } else {
                        skipped = skipped + 1;
                    }
                    i = i + 1;
                }
                proof {
                    assert(apps@.take(apps@.len() as int) =~= apps@);
                }
                return Plan::QuitAll { targets, skipped, force };
            }
            match name {
                None => Plan::Fail { lines: Vec::new(), error: KillError::MissingName },
                Some(q) => {
                    let (kind, index, hits) = find_target(apps, protected, q.as_str());
                    if kind == 0 {
                        Plan::Fail { lines: Vec::new(), error: KillError::NoMatch { query: q } }
                    } else if kind == 1 {
                        let mut lines: Vec<String> = Vec::new();
                        let mut first = String::from_str("Multiple apps match \"");
                        first.append(q.as_str());
                        first.append("\":");
                        lines.push(first);
                        let mut k: usize = 0;
                        while k < hits.len()
                            invariant
                                k <= hits@.len(),
                                forall|j: int| 0 <= j < hits@.len() ==> #[trigger] hits@[j] < apps@.len(),
                                lines@.map_values(|s: String| s@) =~= ambiguity_lines(apps@, q@, hits@.take(k as int)),
                            decreases hits@.len() - k,
                        {
                            let a = &apps[hits[k]];
                            let mut m = String::from_str("  - ");
                            m.append(a.name.as_str());
                            m.append(" (PID ");
                            push_decimal(&mut m, a.pid as u64);
                            m.append(")");
                            let ghost before = lines@;
                            lines.push(m);
                            k = k + 1;
                            proof {
                                assert(hits@.take(k as int) =~= hits@.take(k - 1).push(hits@[k - 1]));
                                assert(lines@.map_values(|s: String| s@) =~= before.map_values(|s: String| s@).push(m@));
                            }
                        }
                        proof {
                            assert(hits@.take(hits@.len() as int) =~= hits@);
                        }
                        Plan::Fail { lines, error: KillError::Ambiguous }
                    } else if kind == 2 {
                        Plan::Fail {
                            lines: Vec::new(),
                            error: KillError::Protected { name: apps[index].name.clone() },
                        }
                    } else {
                        Plan::QuitOne { target: apps[index].duplicate(), force }
                    }
                },
            }
        },
    }
}

/// The line printed after one quit attempt (on failure the driver adds the reason).
pub open spec fn report_text(a: GuiApp, force: bool, ok: bool) -> Seq<char> {
    (if ok {
        "\u{2705} "@
    } else {
        "\u{274c} "@
    }) + (if force {
        "Force quit"@
    } else {
        "Quit"@
    }) + " "@ + a.name@ + " (PID "@ + decimal(a.pid as nat) + ")"@
}

/// The line printed after one quit attempt.
pub fn quit_report(a: &GuiApp, force: bool, ok: bool) -> (r: String)
    ensures
        r@ == report_text(*a, force, ok),
{
    let mut r = String::from_str(if ok {
        "\u{2705} "
    } else {
        "\u{274c} "
    });
    r.append(if force {
        "Force quit"
    } else {
        "Quit"
    });
    r.append(" ");
    r.append(a.name.as_str());
    r.append(" (PID ");
    push_decimal(&mut r, a.pid as u64);
    r.append(")");
    r
}

/// The error when quitting the single target failed.
pub fn quit_failure(a: &GuiApp, force: bool) -> (e: KillError)
    ensures
        e == (KillError::QuitFailed { force, name: a.name, pid: a.pid }),
{
    KillError::QuitFailed { force, name: a.name.clone(), pid: a.pid }
}

/// The closing lines after `--all`, and the error if any quit failed.
pub fn kill_all_summary(quit: u32, failed: u32, skipped: u32) -> (r: (Vec<String>, Option<KillError>))
    ensures
        r.0@.map_values(|s: String| s@) == seq!["\n"@ + decimal(quit as nat) + " apps quit successfully"@]
            + (if skipped > 0 {
            seq!["Skipped "@ + decimal(skipped as nat) + " protected apps"@]
        } else {
            Seq::<Seq<char>>::empty()
        }),
        failed > 0 ==> r.1 == Some(KillError::SomeFailed { count: failed }),
        failed == 0 ==> r.1 is None,
{
    let mut lines: Vec<String> = Vec::new();
    let mut first = String::from_str("\n");
    push_decimal(&mut first, quit as u64);
    first.append(" apps quit successfully");
    lines.push(first);
    if skipped > 0 {
        let mut m = String::from_str("Skipped ");
        push_decimal(&mut m, skipped as u64);
        m.append(" protected apps");
        lines.push(m);
    }
    proof {
        assert(lines@.map_values(|s: String| s@) =~= seq!["\n"@ + decimal(quit as nat) + " apps quit successfully"@]
            + (if skipped > 0 {
            seq!["Skipped "@ + decimal(skipped as nat) + " protected apps"@]
        } else {
            Seq::<Seq<char>>::empty()
        }));
    }
    let err = if failed > 0 {
        Some(KillError::SomeFailed { count: failed })
    } else {
        None
    };
    (lines, err)
}


/// A kill command never quits a protected application.
pub proof fn law_kill_spares_protected(cmd: Commands, apps: Seq<GuiApp>, protected: Seq<Seq<char>>, plan: Plan)
    requires
        plans(cmd, apps, protected, plan),
    ensures
        match plan {
            Plan::QuitOne { target, .. } => !protected.contains(target.name@),
            Plan::QuitAll { targets, .. } => forall|k: int|
                0 <= k < targets@.len() ==> !protected.contains(#[trigger] targets@[k].name@),
            _ => true,
        },
{
    match plan {
        Plan::QuitAll { targets, .. } => {
            let pred = |a: GuiApp| !protected.contains(a.name@);
            assert forall|k: int| 0 <= k < targets@.len() implies !protected.contains(#[trigger] targets@[k].name@) by {
                apps.lemma_filter_pred(pred, k);
            }
        },
        _ => {},
    }
}

/// A name that equals an application's name, ignoring case, picks the first such
/// application, even when other names contain it.
pub proof fn law_exact_name_wins(apps: Seq<GuiApp>, protected: Seq<Seq<char>>, query: Seq<char>, i: int)
    requires
        apps.len() <= usize::MAX,
        0 <= i < apps.len(),
        lowercase(apps[i].name@) == lowercase(query),
        forall|j: int| 0 <= j < i ==> lowercase(apps[j].name@) != lowercase(query),
    ensures
        lookup(apps, protected, query) == (if protected.contains(apps[i].name@) {
            Lookup::Protected { index: i as usize }
        } else {
            Lookup::Found { index: i as usize }
        }),
{
    let ql = lowercase(query);
    let hit_pred = |k: usize| has_substring(lowercase(apps[k as int].name@), ql);
    let exact_pred = |k: usize| lowercase(apps[k as int].name@) == ql;
    let hits = name_hits(apps, ql);
    let ex = exact_hits(apps, hits, ql);
    assert(crate::text::occurs_at(lowercase(apps[i].name@), ql, 0)) by {
        assert(lowercase(apps[i].name@).subrange(0, ql.len() as int) =~= ql);
    }
    assert(hit_pred(i as usize));
    lemma_positions_filter(apps.len(), hit_pred);
    assert(hits.contains(i as usize));
    lemma_filter_increasing(hits, exact_pred);
    let p = choose|p: int| 0 <= p < hits.len() && hits[p] == i as usize;
    hits.lemma_filter_contains(exact_pred, p);
    assert(ex.contains(i as usize));
    assert(ex.len() > 0);
    assert(ex.contains(ex[0]));
    assert(hits.contains(ex[0]));
    let e = ex[0] as int;
    assert(e < apps.len());
    assert(lowercase(apps[e].name@) == ql);
    let qi = choose|qi: int| 0 <= qi < ex.len() && ex[qi] == i as usize;
    if qi > 0 {
        assert(ex[0] < ex[qi]);
    }
    assert(e <= i);
    if e < i {
        assert(lowercase(apps[e].name@) != ql);
    }
    assert(ex[0] == i as usize);
}

/// The lowercase name of application `i` contains `ql`.
pub open spec fn name_contains(apps: Seq<GuiApp>, i: int, ql: Seq<char>) -> bool {
    has_substring(lowercase(apps[i].name@), ql)
}

/// What a name lookup finds: nothing exactly when no application's name contains the
/// query (ignoring case); otherwise an application whose name contains it, refused if
/// protected; and when several names contain the query, the one found has exactly the
/// queried name, or else the lookup reports the ambiguity, listing every match.
pub proof fn law_lookup_finds_a_match(apps: Seq<GuiApp>, protected: Seq<Seq<char>>, query: Seq<char>)
    requires
        apps.len() <= usize::MAX,
    ensures
        ({
            let ql = lowercase(query);
            let several = exists|i: int, j: int|
                0 <= i < j < apps.len() && #[trigger] name_contains(apps, i, ql) && #[trigger] name_contains(apps, j, ql);
            &&& (lookup(apps, protected, query) is NoMatch <==> forall|i: int|
                0 <= i < apps.len() ==> !#[trigger] name_contains(apps, i, ql))
            &&& (lookup(apps, protected, query) matches Lookup::Found { index } ==> {
                &&& index < apps.len()
                &&& name_contains(apps, index as int, ql)
                &&& !protected.contains(apps[index as int].name@)
                &&& (several ==> lowercase(apps[index as int].name@) == ql)
            })
            &&& (lookup(apps, protected, query) matches Lookup::Protected { index } ==> {
                &&& index < apps.len()
                &&& name_contains(apps, index as int, ql)
                &&& protected.contains(apps[index as int].name@)
                &&& (several ==> lowercase(apps[index as int].name@) == ql)
            })
            &&& (lookup(apps, protected, query) matches Lookup::Ambiguous { hits } ==> {
                &&& hits.len() >= 2
                &&& forall|i: int| 0 <= i < apps.len() ==> lowercase(#[trigger] apps[i].name@) != ql
                &&& forall|i: int| 0 <= i < apps.len() && #[trigger] name_contains(apps, i, ql) ==> hits.contains(i as usize)
            })
        }),
{
    let ql = lowercase(query);
    let hit_pred = |k: usize| has_substring(lowercase(apps[k as int].name@), ql);
    let exact_pred = |i: usize| lowercase(apps[i as int].name@) == ql;
    let hits = name_hits(apps, ql);
    let ex = exact_hits(apps, hits, ql);
    assert(hits == positions(apps.len()).filter(hit_pred));
    lemma_positions_filter(apps.len(), hit_pred);
    if hits.len() == 0 {
        assert forall|i: int| 0 <= i < apps.len() implies !#[trigger] name_contains(apps, i, ql) by {
            if name_contains(apps, i, ql) {
                assert(hit_pred(i as usize));
                assert(hits.contains(i as usize));
            }
        }
    } else {
        assert(name_contains(apps, hits[0] as int, ql));
    }
    if hits.len() >= 1 && !(hits.len() > 1 && ex.len() == 0) {
        let target = if ex.len() > 0 {
            ex[0]
        } else {
            hits[0]
        };
        if ex.len() > 0 {
            hits.lemma_filter_pred(exact_pred, 0);
            assert(ex.contains(ex[0]));
            hits.lemma_filter_contains_rev(exact_pred, ex[0]);
        }
        assert(hits.contains(target));
        assert(target < apps.len() && name_contains(apps, target as int, ql));
        if exists|i: int, j: int| 0 <= i < j < apps.len() && #[trigger] name_contains(apps, i, ql) && #[trigger] name_contains(apps, j, ql) {
            let (i, j) = choose|i: int, j: int| 0 <= i < j < apps.len() && #[trigger] name_contains(apps, i, ql) && #[trigger] name_contains(apps, j, ql);
            assert(hit_pred(i as usize));
            assert(hit_pred(j as usize));
            assert(hits.contains(i as usize));
            assert(hits.contains(j as usize));
            let a = choose|a: int| 0 <= a < hits.len() && hits[a] == i as usize;
            let b = choose|b: int| 0 <= b < hits.len() && hits[b] == j as usize;
            assert(a != b);
            assert(hits.len() > 1);
            assert(ex.len() > 0);
        }
    }
    if hits.len() > 1 && ex.len() == 0 {
        assert forall|i: int| 0 <= i < apps.len() implies lowercase(#[trigger] apps[i].name@) != ql by {
            if lowercase(apps[i].name@) == ql {
                assert(has_substring(lowercase(apps[i].name@), ql)) by {
                    assert(lowercase(apps[i].name@).subrange(0, ql.len() as int) =~= ql);
                    assert(crate::text::occurs_at(lowercase(apps[i].name@), ql, 0));
                }
                assert(hit_pred(i as usize));
                assert(hits.contains(i as usize));
                let a = choose|a: int| 0 <= a < hits.len() && hits[a] == i as usize;
                hits.lemma_filter_contains(exact_pred, a);
            }
        }
        assert forall|i: int| 0 <= i < apps.len() && #[trigger] name_contains(apps, i, ql) implies hits.contains(i as usize) by {
            assert(hit_pred(i as usize));
        }
    }
}

/// `kill --all` quits every listed application that is not protected and nothing that
/// is not listed, with the requested force, and counts the others as skipped.
pub proof fn law_kill_all_quits_every_unprotected(
    name: Option<String>,
    force: bool,
    apps: Seq<GuiApp>,
    protected: Seq<Seq<char>>,
    plan: Plan,
)
    requires
        plans(Commands::Kill { name, force, all: true }, apps, protected, plan),
    ensures
        plan matches Plan::QuitAll { targets, skipped, force: f } && f == force && skipped
            == apps.len() - targets@.len() && targets@.len() <= apps.len(),
        plan matches Plan::QuitAll { targets, .. } ==> forall|i: int|
            0 <= i < apps.len() && !protected.contains(#[trigger] apps[i].name@) ==> targets@.contains(
                apps[i],
            ),
        plan matches Plan::QuitAll { targets, .. } ==> forall|k: int|
            0 <= k < targets@.len() ==> apps.contains(#[trigger] targets@[k]),
{
    let pred = |a: GuiApp| !protected.contains(a.name@);
    apps.lemma_filter_len(pred);
    match plan {
        Plan::QuitAll { targets, .. } => {
            assert forall|i: int|
                0 <= i < apps.len() && !protected.contains(#[trigger] apps[i].name@) implies targets@.contains(
                apps[i],
            ) by {
                apps.lemma_filter_contains(pred, i);
            }
            assert forall|k: int| 0 <= k < targets@.len() implies apps.contains(#[trigger] targets@[k]) by {
                assert(targets@.contains(targets@[k]));
                apps.lemma_filter_contains_rev(pred, targets@[k]);
            }
        },
        _ => {},
    }
}

} // verus!
