//! Which applications the list shows, and in which order.
use vstd::prelude::*;
use vstd::relations::*;
use crate::app::SortMode;
use crate::process::GuiApp;
use crate::text::{contains_chars, has_substring, lemma_lex_lt_order, lex_less, lex_lt, lowercase, lowercase_chars};

verus! {

broadcast use vstd::seq_lib::group_to_multiset_ensures;

/// `a` comes strictly before `b` by the key of sort mode `mode`: the lowercase name,
/// ascending or descending, the pid ascending, or the memory descending.
pub open spec fn key_lt(mode: SortMode, a: GuiApp, b: GuiApp) -> bool {
    match mode {
        SortMode::NameAsc => lex_lt(lowercase(a.name@), lowercase(b.name@)),
        SortMode::NameDesc => lex_lt(lowercase(b.name@), lowercase(a.name@)),
        SortMode::PidAsc => a.pid < b.pid,
        SortMode::MemDesc => b.memory_kb < a.memory_kb,
    }
}

/// The order of positions `i` and `j` of `apps` in the list: by key, and by position
/// where the keys are equal (the sort is stable).
pub open spec fn index_leq(apps: Seq<GuiApp>, mode: SortMode, i: usize, j: usize) -> bool {
    key_lt(mode, apps[i as int], apps[j as int]) || (!key_lt(mode, apps[j as int], apps[i as int])
        && i <= j)
}

/// The comparison of list positions as a relation.
pub open spec fn position_order(apps: Seq<GuiApp>, mode: SortMode) -> spec_fn(usize, usize) -> bool {
    |i: usize, j: usize| index_leq(apps, mode, i, j)
}

/// The filter text matches the application: empty, or contained in its name, ignoring case.
pub open spec fn name_matches(app: GuiApp, query: Seq<char>) -> bool {
    query.len() == 0 || has_substring(lowercase(app.name@), lowercase(query))
}

/// The positions `0..n`.
pub open spec fn positions(n: nat) -> Seq<usize> {
    Seq::new(n, |i: int| i as usize)
}

/// Positions of the applications that match the filter text, in list order.
pub open spec fn filtered_positions(apps: Seq<GuiApp>, query: Seq<char>) -> Seq<usize> {
    positions(apps.len()).filter(|i: usize| name_matches(apps[i as int], query))
}

/// Positions of the applications shown, in the order shown: those that match the
/// filter, sorted stably by the key of the sort mode.
pub open spec fn visible_order(apps: Seq<GuiApp>, query: Seq<char>, mode: SortMode) -> Seq<usize> {
    filtered_positions(apps, query).sort_by(position_order(apps, mode))
}

proof fn lemma_key_lt(mode: SortMode, a: GuiApp, b: GuiApp, c: GuiApp)
    ensures
        !key_lt(mode, a, a),
        key_lt(mode, a, b) ==> !key_lt(mode, b, a),
        key_lt(mode, a, b) && key_lt(mode, b, c) ==> key_lt(mode, a, c),
        !key_lt(mode, a, b) && !key_lt(mode, b, a) ==> (key_lt(mode, a, c) == key_lt(mode, b, c)
            && key_lt(mode, c, a) == key_lt(mode, c, b)),
{
    let la = lowercase(a.name@);
    let lb = lowercase(b.name@);
    let lc = lowercase(c.name@);
    lemma_lex_lt_order(la, lb, lc);
    lemma_lex_lt_order(lc, lb, la);
    lemma_lex_lt_order(lb, la, lc);
    lemma_lex_lt_order(la, lc, lb);
    lemma_lex_lt_order(lb, lc, la);
    lemma_lex_lt_order(lc, la, lb);
}

/// The order of list positions is a total order.
pub proof fn lemma_position_order_total(apps: Seq<GuiApp>, mode: SortMode)
    ensures
        total_ordering(position_order(apps, mode)),
{
    let r = position_order(apps, mode);
    assert forall|x: usize, y: usize, z: usize| #[trigger] r(x, y) && #[trigger] r(y, z) implies r(
        x,
        z,
    ) by {
        lemma_key_lt(mode, apps[x as int], apps[y as int], apps[z as int]);
        lemma_key_lt(mode, apps[y as int], apps[z as int], apps[x as int]);
        lemma_key_lt(mode, apps[x as int], apps[z as int], apps[y as int]);
        lemma_key_lt(mode, apps[z as int], apps[y as int], apps[x as int]);
    }
    assert forall|x: usize, y: usize| #[trigger] r(x, y) && #[trigger] r(y, x) implies x == y by {
        lemma_key_lt(mode, apps[x as int], apps[y as int], apps[x as int]);
    }
    assert forall|x: usize, y: usize| #[trigger] r(x, y) || #[trigger] r(y, x) by {
        lemma_key_lt(mode, apps[x as int], apps[y as int], apps[x as int]);
    }
    assert forall|x: usize| #[trigger] r(x, x) by {
        lemma_key_lt(mode, apps[x as int], apps[x as int], apps[x as int]);
    }
}


/// The lowercase name of each application.
pub fn lowercase_names(apps: &Vec<GuiApp>) -> (r: Vec<Vec<char>>)
    ensures
        r@.len() == apps@.len(),
        forall|i: int| 0 <= i < r@.len() ==> #[trigger] r@[i]@ == lowercase(apps@[i].name@),
{
    let mut r: Vec<Vec<char>> = Vec::new();
    let mut i: usize = 0;
    while i < apps.len()
        invariant
            i <= apps@.len(),
            r@.len() == i,
            forall|k: int| 0 <= k < r@.len() ==> #[trigger] r@[k]@ == lowercase(apps@[k].name@),
        decreases apps@.len() - i,
    {
        r.push(lowercase_chars(apps[i].name.as_str()));
        i = i + 1;
    }
    r
}

/// Whether position `i` comes strictly before position `j` by the key of `mode`.
fn key_less(
    apps: &Vec<GuiApp>,
    lower: &Vec<Vec<char>>,
    mode: SortMode,
    i: usize,
    j: usize,
) -> (r: bool)
    requires
        lower@.len() == apps@.len(),
        forall|k: int| 0 <= k < lower@.len() ==> #[trigger] lower@[k]@ == lowercase(apps@[k].name@),
        i < apps@.len(),
        j < apps@.len(),
    ensures
        r == key_lt(mode, apps@[i as int], apps@[j as int]),
{
    match mode {
        SortMode::NameAsc => lex_less(&lower[i], &lower[j]),
        SortMode::NameDesc => lex_less(&lower[j], &lower[i]),
        SortMode::PidAsc => apps[i].pid < apps[j].pid,
        SortMode::MemDesc => apps[j].memory_kb < apps[i].memory_kb,
    }
}

/// Sorts positions of `apps` stably by the key of `mode`.
pub fn sort_positions(
    apps: &Vec<GuiApp>,
    lower: &Vec<Vec<char>>,
    mode: SortMode,
    v: &Vec<usize>,
) -> (r: Vec<usize>)
    requires
        lower@.len() == apps@.len(),
        forall|k: int| 0 <= k < lower@.len() ==> #[trigger] lower@[k]@ == lowercase(apps@[k].name@),
        forall|k: int| 0 <= k < v@.len() ==> #[trigger] v@[k] < apps@.len(),
    ensures
        r@ == v@.sort_by(position_order(apps@, mode)),
{
    let ghost leq = position_order(apps@, mode);
    proof {
        lemma_position_order_total(apps@, mode);
    }
    let mut out: Vec<usize> = Vec::new();
    let mut k: usize = 0;
    while k < v.len()
        invariant
            k <= v@.len(),
            leq == position_order(apps@, mode),
            total_ordering(leq),
            lower@.len() == apps@.len(),
            forall|q: int| 0 <= q < lower@.len() ==> #[trigger] lower@[q]@ == lowercase(apps@[q].name@),
            forall|q: int| 0 <= q < v@.len() ==> #[trigger] v@[q] < apps@.len(),
            forall|q: int| 0 <= q < out@.len() ==> #[trigger] out@[q] < apps@.len(),
            sorted_by(out@, leq),
            out@.to_multiset() == v@.take(k as int).to_multiset(),
        decreases v@.len() - k,
    {
        let x = v[k];
        let mut p: usize = 0;
        while p < out.len() && !(key_less(apps, lower, mode, x, out[p]) || (!key_less(
            apps,
            lower,
            mode,
            out[p],
            x,
        ) && x <= out[p]))
            invariant
                p <= out@.len(),
                x < apps@.len(),
                leq == position_order(apps@, mode),
                lower@.len() == apps@.len(),
                forall|q: int| 0 <= q < lower@.len() ==> #[trigger] lower@[q]@ == lowercase(apps@[q].name@),
                forall|q: int| 0 <= q < out@.len() ==> #[trigger] out@[q] < apps@.len(),
                forall|q: int| 0 <= q < p ==> !leq(x, #[trigger] out@[q]),
            decreases out@.len() - p,
        {
            p = p + 1;
        }
        let ghost old_out = out@;
        proof {
            assert forall|q: int| 0 <= q < p implies leq(#[trigger] old_out[q], x) by {
                assert(!leq(x, old_out[q]));
            }
        }
        out.insert(p, x);
        proof {
            assert(out@ == old_out.insert(p as int, x));
            assert forall|a: int, b: int| 0 <= a < b < out@.len() implies #[trigger] leq(
                out@[a],
                out@[b],
            ) by {
                if b < p {
                    assert(out@[a] == old_out[a] && out@[b] == old_out[b]);
                } else if b == p {
                    assert(out@[a] == old_out[a]);
                } else if a < p {
                    assert(out@[a] == old_out[a] && out@[b] == old_out[b - 1]);
                    assert(leq(old_out[a], x));
                    assert(leq(x, old_out[p as int]));
                    if (p as int) < b - 1 {
                        assert(leq(old_out[p as int], old_out[b - 1]));
                    }
                } else if a == p {
                    assert(out@[b] == old_out[b - 1]);
                    assert(leq(x, old_out[p as int]));
                    if (p as int) < b - 1 {
                        assert(leq(old_out[p as int], old_out[b - 1]));
                    }
                } else {
                    assert(out@[a] == old_out[a - 1] && out@[b] == old_out[b - 1]);
                }
            }
            vstd::seq_lib::to_multiset_insert(old_out, p as int, x);
            assert(v@.take(k + 1) =~= v@.take(k as int).push(x));
            vstd::seq_lib::to_multiset_build(v@.take(k as int), x);
        }
        k = k + 1;
    }
    proof {
        assert(v@.take(v@.len() as int) =~= v@);
        v@.lemma_sort_by_ensures(leq);
        vstd::seq_lib::lemma_sorted_unique(out@, v@.sort_by(leq), leq);
    }
    out
}


/// Positions of the applications whose name matches `query`, in list order.
pub fn filter_positions(apps: &Vec<GuiApp>, lower: &Vec<Vec<char>>, query: &str) -> (r: Vec<usize>)
    requires
        lower@.len() == apps@.len(),
        forall|k: int| 0 <= k < lower@.len() ==> #[trigger] lower@[k]@ == lowercase(apps@[k].name@),
    ensures
        r@ == filtered_positions(apps@, query@),
        forall|k: int| 0 <= k < r@.len() ==> #[trigger] r@[k] < apps@.len(),
{
    let ghost pred = |i: usize| name_matches(apps@[i as int], query@);
    let empty = query.is_empty();
    let q = if empty {
        Vec::new()
    } else {
        lowercase_chars(query)
    };
    let mut r: Vec<usize> = Vec::new();
    let mut i: usize = 0;
    proof {
        assert(positions(0) =~= Seq::<usize>::empty());
        reveal(Seq::filter);
    }
    while i < apps.len()
        invariant
            i <= apps@.len(),
            lower@.len() == apps@.len(),
            forall|k: int| 0 <= k < lower@.len() ==> #[trigger] lower@[k]@ == lowercase(apps@[k].name@),
            empty == (query@.len() == 0),
            !empty ==> q@ == lowercase(query@),
            pred == (|i: usize| name_matches(apps@[i as int], query@)),
            r@ == positions(i as nat).filter(pred),
            forall|k: int| 0 <= k < r@.len() ==> #[trigger] r@[k] < i,
        decreases apps@.len() - i,
    {
        let keep = empty || contains_chars(&lower[i], &q);
        proof {
            assert(positions((i + 1) as nat) =~= positions(i as nat).push(i));
            positions(i as nat).lemma_filter_push(i, pred);
            assert(keep == pred(i));
        }
        if keep {
            r.push(i);
        }
        i = i + 1;
    }
    r
}

/// Positions of the applications shown, in the order shown.
pub fn visible_positions(apps: &Vec<GuiApp>, query: &str, mode: SortMode) -> (r: Vec<usize>)
    ensures
        r@ == visible_order(apps@, query@, mode),
        forall|k: int| 0 <= k < r@.len() ==> #[trigger] r@[k] < apps@.len(),
{
    let lower = lowercase_names(apps);
    let filtered = filter_positions(apps, &lower, query);
    let r = sort_positions(apps, &lower, mode, &filtered);
    proof {
        lemma_position_order_total(apps@, mode);
        filtered@.lemma_sort_by_ensures(position_order(apps@, mode));
        assert forall|k: int| 0 <= k < r@.len() implies #[trigger] r@[k] < apps@.len() by {
            assert(r@.to_multiset().count(r@[k]) > 0);
            assert(filtered@.contains(r@[k]));
        }
    }
    r
}


proof fn lemma_filtered_prefix(apps: Seq<GuiApp>, query: Seq<char>, n: nat)
    requires
        n <= apps.len() <= usize::MAX,
    ensures
        ({
            let f = positions(n).filter(|i: usize| name_matches(apps[i as int], query));
            &&& forall|k: int| 0 <= k < f.len() ==> #[trigger] f[k] < n && name_matches(apps[f[k] as int], query)
            &&& forall|a: int, b: int| 0 <= a < b < f.len() ==> f[a] < f[b]
            &&& forall|i: int| 0 <= i < n && name_matches(apps[i], query) ==> f.contains(i as usize)
        }),
    decreases n,
{
    let pred = |i: usize| name_matches(apps[i as int], query);
    reveal(Seq::filter);
    if n > 0 {
        let m = (n - 1) as nat;
        lemma_filtered_prefix(apps, query, m);
        assert(positions(n) =~= positions(m).push(m as usize));
        positions(m).lemma_filter_push(m as usize, pred);
        let f0 = positions(m).filter(pred);
        let f = positions(n).filter(pred);
        assert forall|i: int| 0 <= i < n && name_matches(apps[i], query) implies f.contains(i as usize) by {
            if i < m {
                let k = choose|k: int| 0 <= k < f0.len() && f0[k] == i as usize;
                assert(f[k] == i as usize);
            } else {
                assert(f[f.len() - 1] == i as usize);
            }
        }
    } else {
        assert(positions(0).filter(pred) =~= Seq::<usize>::empty());
    }
}

/// The shown list consists of exactly the applications whose name matches the filter
/// text, each once, in the order of the sort mode (ties keep list order).
pub proof fn law_visible_order(apps: Seq<GuiApp>, query: Seq<char>, mode: SortMode)
    requires
        apps.len() <= usize::MAX,
    ensures
        ({
            let v = visible_order(apps, query, mode);
            &&& forall|k: int| 0 <= k < v.len() ==> #[trigger] v[k] < apps.len() && name_matches(apps[v[k] as int], query)
            &&& forall|i: int| 0 <= i < apps.len() && name_matches(apps[i], query) ==> v.contains(i as usize)
            &&& v.no_duplicates()
            &&& forall|a: int, b: int| 0 <= a < b < v.len() ==> index_leq(apps, mode, #[trigger] v[a], #[trigger] v[b])
        }),
{
    let f = filtered_positions(apps, query);
    let leq = position_order(apps, mode);
    let v = visible_order(apps, query, mode);
    lemma_filtered_prefix(apps, query, apps.len());
    lemma_position_order_total(apps, mode);
    f.lemma_sort_by_ensures(leq);
    assert forall|k: int| 0 <= k < v.len() implies #[trigger] v[k] < apps.len() && name_matches(apps[v[k] as int], query) by {
        assert(v.to_multiset().count(v[k]) > 0);
        assert(f.contains(v[k]));
    }
    assert forall|i: int| 0 <= i < apps.len() && name_matches(apps[i], query) implies v.contains(i as usize) by {
        assert(f.contains(i as usize));
        assert(f.to_multiset().count(i as usize) > 0);
    }
    assert(f.no_duplicates());
    f.lemma_multiset_has_no_duplicates();
    v.lemma_multiset_has_no_duplicates_conv();
    assert forall|a: int, b: int| 0 <= a < b < v.len() implies index_leq(apps, mode, #[trigger] v[a], #[trigger] v[b]) by {
        assert(leq(v[a], v[b]));
    }
}


/// A strictly increasing sequence of positions.
pub open spec fn increasing(s: Seq<usize>) -> bool {
    forall|a: int, b: int| 0 <= a < b < s.len() ==> s[a] < s[b]
}

/// The positions below `n` that satisfy `pred`, in increasing order.
pub proof fn lemma_positions_filter(n: nat, pred: spec_fn(usize) -> bool)
    requires
        n <= usize::MAX,
    ensures
        forall|k: int| 0 <= k < positions(n).filter(pred).len() ==> #[trigger] positions(n).filter(pred)[k] < n && pred(positions(n).filter(pred)[k]),
        increasing(positions(n).filter(pred)),
        forall|i: int| 0 <= i < n && #[trigger] pred(i as usize) ==> positions(n).filter(pred).contains(i as usize),
    decreases n,
{
    reveal(Seq::filter);
    if n > 0 {
        let m = (n - 1) as nat;
        lemma_positions_filter(m, pred);
        assert(positions(n) =~= positions(m).push(m as usize));
        positions(m).lemma_filter_push(m as usize, pred);
        let f0 = positions(m).filter(pred);
        let f = positions(n).filter(pred);
        assert forall|i: int| 0 <= i < n && #[trigger] pred(i as usize) implies f.contains(i as usize) by {
            if i < m {
                let k = choose|k: int| 0 <= k < f0.len() && f0[k] == i as usize;
                assert(f[k] == i as usize);
            } else {
                assert(f[f.len() - 1] == i as usize);
            }
        }
    } else {
        assert(positions(0).filter(pred) =~= Seq::<usize>::empty());
    }
}

/// Filtering a strictly increasing sequence keeps it strictly increasing, and keeps only
/// its own elements.
pub proof fn lemma_filter_increasing(s: Seq<usize>, pred: spec_fn(usize) -> bool)
    requires
        increasing(s),
    ensures
        increasing(s.filter(pred)),
        forall|x: usize| s.filter(pred).contains(x) ==> s.contains(x) && pred(x),
    decreases s.len(),
{
    reveal(Seq::filter);
    if s.len() > 0 {
        let t = s.drop_last();
        lemma_filter_increasing(t, pred);
        assert(s =~= t.push(s.last()));
        t.lemma_filter_push(s.last(), pred);
        let f = s.filter(pred);
        let ft = t.filter(pred);
        assert forall|x: usize| f.contains(x) implies s.contains(x) && pred(x) by {
            let k = choose|k: int| 0 <= k < f.len() && f[k] == x;
            if pred(s.last()) && k == f.len() - 1 {
                assert(x == s.last());
                assert(s[s.len() - 1] == x);
            } else {
                assert(f[k] == ft[k]);
                assert(ft.contains(x));
                assert(t.contains(x) && pred(x));
                let j = choose|j: int| 0 <= j < t.len() && t[j] == x;
                assert(s[j] == t[j]);
            }
        }
        assert forall|a: int, b: int| 0 <= a < b < f.len() implies f[a] < f[b] by {
            if pred(s.last()) && b == f.len() - 1 {
                assert(f[a] == ft[a]);
                assert(ft.contains(f[a]));
                assert(t.contains(f[a]));
                let j = choose|j: int| 0 <= j < t.len() && t[j] == f[a];
                assert(s[j] == t[j]);
                assert(f[b] == s[s.len() - 1]);
            } else {
                assert(f[a] == ft[a] && f[b] == ft[b]);
            }
        }
    }
}

/// `a` comes no later than `b` by the sort mode, read off the applications themselves:
/// names ascending or descending ignoring case, pids ascending, memory descending.
pub open spec fn in_mode_order(mode: SortMode, a: GuiApp, b: GuiApp) -> bool {
    match mode {
        SortMode::NameAsc => !lex_lt(lowercase(b.name@), lowercase(a.name@)),
        SortMode::NameDesc => !lex_lt(lowercase(a.name@), lowercase(b.name@)),
        SortMode::PidAsc => a.pid <= b.pid,
        SortMode::MemDesc => a.memory_kb >= b.memory_kb,
    }
}

/// The two applications have the same sort key in the mode.
pub open spec fn same_key(mode: SortMode, a: GuiApp, b: GuiApp) -> bool {
    match mode {
        SortMode::NameAsc | SortMode::NameDesc => lowercase(a.name@) == lowercase(b.name@),
        SortMode::PidAsc => a.pid == b.pid,
        SortMode::MemDesc => a.memory_kb == b.memory_kb,
    }
}

/// The shown list is in the order of the sort mode: each application comes no later
/// than the next by the mode's key, and applications with the same key keep their order
/// in the listing.
pub proof fn law_sort_modes_order_the_list(apps: Seq<GuiApp>, query: Seq<char>, mode: SortMode)
    requires
        apps.len() <= usize::MAX,
    ensures
        ({
            let v = visible_order(apps, query, mode);
            &&& forall|a: int, b: int|
                0 <= a < b < v.len() ==> in_mode_order(
                    mode,
                    #[trigger] apps[v[a] as int],
                    #[trigger] apps[v[b] as int],
                )
            &&& forall|a: int, b: int|
                0 <= a < b < v.len() && same_key(mode, #[trigger] apps[v[a] as int], #[trigger] apps[v[b] as int])
                    ==> v[a] < v[b]
        }),
{
    law_visible_order(apps, query, mode);
    let v = visible_order(apps, query, mode);
    assert forall|a: int, b: int| 0 <= a < b < v.len() implies in_mode_order(
        mode,
        #[trigger] apps[v[a] as int],
        #[trigger] apps[v[b] as int],
    ) && (same_key(mode, apps[v[a] as int], apps[v[b] as int]) ==> v[a] < v[b]) by {
        let x = apps[v[a] as int];
        let y = apps[v[b] as int];
        assert(index_leq(apps, mode, v[a], v[b]));
        lemma_key_lt(mode, x, y, x);
        lemma_key_lt(mode, y, x, y);
        if same_key(mode, x, y) {
            assert(!key_lt(mode, x, y) && !key_lt(mode, y, x));
            assert(v[a] != v[b]);
        }
    }
}

/// `name` contains `text` when both are put in lowercase; every name contains the empty
/// text.
pub open spec fn contains_ignoring_case(name: Seq<char>, text: Seq<char>) -> bool {
    text.len() == 0 || has_substring(lowercase(name), lowercase(text))
}

/// The filter shows exactly the applications whose name contains the filter text,
/// ignoring case (all of them when the text is empty), each once.
pub proof fn law_filter_shows_matches(apps: Seq<GuiApp>, query: Seq<char>, mode: SortMode)
    requires
        apps.len() <= usize::MAX,
    ensures
        forall|i: int|
            0 <= i < apps.len() ==> (visible_order(apps, query, mode).contains(i as usize) <==> contains_ignoring_case(
                (#[trigger] apps[i]).name@,
                query,
            )),
        forall|k: int|
            0 <= k < visible_order(apps, query, mode).len() ==> #[trigger] visible_order(
                apps,
                query,
                mode,
            )[k] < apps.len(),
        visible_order(apps, query, mode).no_duplicates(),
{
    law_visible_order(apps, query, mode);
    let v = visible_order(apps, query, mode);
    assert forall|i: int| 0 <= i < apps.len() implies (visible_order(apps, query, mode).contains(i as usize) <==> contains_ignoring_case(
        (#[trigger] apps[i]).name@,
        query,
    )) by {
        if v.contains(i as usize) {
            let k = choose|k: int| 0 <= k < v.len() && v[k] == i as usize;
            assert(name_matches(apps[v[k] as int], query));
        } else {
            assert(!name_matches(apps[i], query));
        }
    }
}

} // verus!
