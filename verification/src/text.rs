//! Character-level text utilities with exact specifications.
use vstd::prelude::*;

verus! {

/// Calls `String::push`: the string's characters afterwards are the old ones followed
/// by `c`.
#[verifier::external_body]
pub(crate) fn push_char(s: &mut String, c: char)
    ensures
        final(s)@ == old(s)@.push(c),
{
    s.push(c);
}

/// Calls `String::pop`: an empty string stays empty and gives `None`; otherwise the
/// last character is removed and returned.
#[verifier::external_body]
pub(crate) fn pop_char(s: &mut String) -> (r: Option<char>)
    ensures
        old(s)@.len() == 0 ==> r is None && final(s)@ == old(s)@,
        old(s)@.len() > 0 ==> r == Some(old(s)@.last()) && final(s)@ == old(s)@.drop_last(),
{
    s.pop()
}

/// The characters of a string, in order.
pub fn chars_of(s: &str) -> (v: Vec<char>)
    ensures
        v@ == s@,
{
    let mut v: Vec<char> = Vec::new();
    for c in it: s.chars()
        invariant
            v@ == it.seq().take(it.index() as int),
            it.seq() == s@,
    {
        v.push(c);
    }
    v
}

/// Whether two strings have the same characters (`==` on `str`).
pub fn same_text(a: &str, b: &str) -> (r: bool)
    ensures
        r == (a@ == b@),
{
    let x = chars_of(a);
    let y = chars_of(b);
    if x.len() != y.len() {
        return false;
    }
    let mut i: usize = 0;
    while i < x.len()
        invariant
            x@ == a@,
            y@ == b@,
            x@.len() == y@.len(),
            i <= x@.len(),
            forall|k: int| 0 <= k < i ==> x@[k] == y@[k],
        decreases x@.len() - i,
    {
        if x[i] != y[i] {
            return false;
        }
        i = i + 1;
    }
    assert(x@ =~= y@);
    true
}

/// Appends a string slice.
pub fn append_str(s: &mut String, t: &str)
    ensures
        final(s)@ == old(s)@ + t@,
{
    s.append(t);
}


/// The result of `str::to_lowercase` on a string with the given characters.
pub uninterp spec fn lowercase(s: Seq<char>) -> Seq<char>;

/// Calls `str::to_lowercase` and collects the characters of the result. The contract
/// only names the result `lowercase` of the characters of `s`: the Unicode case mapping
/// that the standard library applies is not restated here.
#[verifier::external_body]
pub(crate) fn lowercase_chars(s: &str) -> (v: Vec<char>)
    ensures
        v@ == lowercase(s@),
{
    s.to_lowercase().chars().collect()
}

/// `needle` occurs in `hay` starting at position `i`.
pub open spec fn occurs_at(hay: Seq<char>, needle: Seq<char>, i: int) -> bool {
    0 <= i && i + needle.len() <= hay.len() && hay.subrange(i, i + needle.len()) == needle
}

/// `needle` occurs somewhere in `hay` (the empty needle occurs everywhere).
pub open spec fn has_substring(hay: Seq<char>, needle: Seq<char>) -> bool {
    exists|i: int| occurs_at(hay, needle, i)
}

/// Tests whether `needle` occurs in `hay` at position `i`.
fn matches_at(hay: &Vec<char>, needle: &Vec<char>, i: usize) -> (r: bool)
    requires
        i + needle@.len() <= hay@.len(),
    ensures
        r == occurs_at(hay@, needle@, i as int),
{
    let n = needle.len();
    let mut k: usize = 0;
    while k < n
        invariant
            n == needle@.len(),
            i + n <= hay.len(),
            k <= n,
            forall|j: int| 0 <= j < k ==> hay@[i + j] == needle@[j],
        decreases n - k,
    {
        if hay[i + k] != needle[k] {
            assert(hay@.subrange(i as int, i + n)[k as int] != needle@[k as int]);
            return false;
        }
        k = k + 1;
    }
    assert(hay@.subrange(i as int, i + n) =~= needle@);
    true
}

/// Substring search on characters (`str::contains` with a string pattern).
pub fn contains_chars(hay: &Vec<char>, needle: &Vec<char>) -> (r: bool)
    ensures
        r == has_substring(hay@, needle@),
{
    let n = needle.len();
    let h = hay.len();
    if n > h {
        assert forall|i: int| !occurs_at(hay@, needle@, i) by {}
        return false;
    }
    if n == 0 {
        assert(hay@.subrange(0, 0) =~= needle@);
        assert(occurs_at(hay@, needle@, 0));
        return true;
    }
    let mut i: usize = 0;
    while i <= h - n
        invariant
            n == needle@.len(),
            h == hay@.len(),
            1 <= n <= h,
            i <= h - n + 1,
            forall|j: int| 0 <= j < i ==> !occurs_at(hay@, needle@, j),
        decreases h - n + 1 - i,
    {
        if matches_at(hay, needle, i) {
            return true;
        }
        i = i + 1;
    }
    assert forall|j: int| !occurs_at(hay@, needle@, j) by {
        if 0 <= j < i {
        }
    }
    false
}

/// Strict lexicographic order on character sequences, comparing code points;
/// this is the order of `String`'s `Ord`, since UTF-8 preserves code point order.
pub open spec fn lex_lt(a: Seq<char>, b: Seq<char>) -> bool
    decreases a.len(),
{
    if a.len() == 0 {
        b.len() > 0
    } else if b.len() == 0 {
        false
    } else if (a[0] as u32) < (b[0] as u32) {
        true
    } else if a[0] == b[0] {
        lex_lt(a.drop_first(), b.drop_first())
    } else {
        false
    }
}

proof fn lemma_lex_lt_irreflexive(a: Seq<char>)
    ensures
        !lex_lt(a, a),
    decreases a.len(),
{
    if a.len() > 0 {
        lemma_lex_lt_irreflexive(a.drop_first());
    }
}

proof fn lemma_lex_lt_pair(a: Seq<char>, b: Seq<char>)
    ensures
        lex_lt(a, b) ==> !lex_lt(b, a),
        !lex_lt(a, b) && !lex_lt(b, a) ==> a == b,
    decreases a.len(),
{
    if a.len() > 0 && b.len() > 0 {
        lemma_lex_lt_pair(a.drop_first(), b.drop_first());
        if !lex_lt(a, b) && !lex_lt(b, a) {
            vstd::utf8::char_u32_cast(a[0], a[0] as u32);
            vstd::utf8::char_u32_cast(b[0], b[0] as u32);
            assert(a[0] == b[0]);
            assert(a =~= seq![a[0]] + a.drop_first());
            assert(b =~= seq![b[0]] + b.drop_first());
        }
    } else if a.len() == 0 && b.len() == 0 {
        assert(a =~= b);
    }
}

proof fn lemma_lex_lt_transitive(a: Seq<char>, b: Seq<char>, c: Seq<char>)
    ensures
        lex_lt(a, b) && lex_lt(b, c) ==> lex_lt(a, c),
    decreases a.len(),
{
    if a.len() > 0 && b.len() > 0 && c.len() > 0 {
        lemma_lex_lt_transitive(a.drop_first(), b.drop_first(), c.drop_first());
    }
}

/// `lex_lt` is a strict total order.
pub proof fn lemma_lex_lt_order(a: Seq<char>, b: Seq<char>, c: Seq<char>)
    ensures
        !lex_lt(a, a),
        lex_lt(a, b) ==> !lex_lt(b, a),
        !lex_lt(a, b) && !lex_lt(b, a) ==> a == b,
        lex_lt(a, b) && lex_lt(b, c) ==> lex_lt(a, c),
{
    lemma_lex_lt_irreflexive(a);
    lemma_lex_lt_pair(a, b);
    lemma_lex_lt_transitive(a, b, c);
}

/// Lexicographic comparison of character vectors.
pub fn lex_less(a: &Vec<char>, b: &Vec<char>) -> (r: bool)
    ensures
        r == lex_lt(a@, b@),
{
    let mut i: usize = 0;
    assert(a@.skip(0) =~= a@);
    assert(b@.skip(0) =~= b@);
    while i < a.len() && i < b.len()
        invariant
            i <= a@.len(),
            i <= b@.len(),
            lex_lt(a@, b@) == lex_lt(a@.skip(i as int), b@.skip(i as int)),
        decreases a@.len() - i,
    {
        let x = a[i];
        let y = b[i];
        assert(a@.skip(i as int)[0] == x);
        assert(b@.skip(i as int)[0] == y);
        if (x as u32) < (y as u32) {
            return true;
        }
        if x != y {
            return false;
        }
        assert(a@.skip(i as int).drop_first() =~= a@.skip(i + 1));
        assert(b@.skip(i as int).drop_first() =~= b@.skip(i + 1));
        i = i + 1;
    }
    i < b.len()
}


/// The decimal digit character for `d < 10`.
pub open spec fn digit_char(d: nat) -> char {
    if d == 0 {
        '0'
    } else if d == 1 {
        '1'
    } else if d == 2 {
        '2'
    } else if d == 3 {
        '3'
    } else if d == 4 {
        '4'
    } else if d == 5 {
        '5'
    } else if d == 6 {
        '6'
    } else if d == 7 {
        '7'
    } else if d == 8 {
        '8'
    } else {
        '9'
    }
}

/// The decimal representation of `n`, without sign or leading zeros (as `Display` prints it).
pub open spec fn decimal(n: nat) -> Seq<char>
    decreases n,
{
    if n < 10 {
        seq![digit_char(n)]
    } else {
        decimal(n / 10).push(digit_char(n % 10))
    }
}

pub fn digit_to_char(d: u64) -> (c: char)
    requires
        d < 10,
    ensures
        c == digit_char(d as nat),
{
    if d == 0 {
        '0'
    } else if d == 1 {
        '1'
    } else if d == 2 {
        '2'
    } else if d == 3 {
        '3'
    } else if d == 4 {
        '4'
    } else if d == 5 {
        '5'
    } else if d == 6 {
        '6'
    } else if d == 7 {
        '7'
    } else if d == 8 {
        '8'
    } else {
        '9'
    }
}

/// Appends the decimal representation of `n`.
pub fn push_decimal(s: &mut String, n: u64)
    ensures
        final(s)@ == old(s)@ + decimal(n as nat),
    decreases n,
{
    if n >= 10 {
        push_decimal(s, n / 10);
    }
    let c = digit_to_char(n % 10);
    push_char(s, c);
    proof {
        if n >= 10 {
            assert(old(s)@ + decimal(n as nat) =~= old(s)@ + decimal((n / 10) as nat) + seq![c]);
        } else {
            assert(old(s)@ + decimal(n as nat) =~= old(s)@.push(c));
        }
    }
}

/// The decimal representation of `n` as a new string.
pub fn decimal_string(n: u64) -> (s: String)
    ensures
        s@ == decimal(n as nat),
{
    let mut s = String::new();
    push_decimal(&mut s, n);
    proof {
        assert(Seq::<char>::empty() + decimal(n as nat) =~= decimal(n as nat));
    }
    s
}

/// `n` space characters.
pub open spec fn spaces(n: nat) -> Seq<char> {
    Seq::new(n, |_i: int| ' ')
}

/// Left-aligned in a field of `width` characters (`{:<width}`): padded with spaces on the right.
pub open spec fn pad_right(s: Seq<char>, width: nat) -> Seq<char> {
    if s.len() >= width {
        s
    } else {
        s + spaces((width - s.len()) as nat)
    }
}

/// Right-aligned in a field of `width` characters (`{:>width}`): padded with spaces on the left.
pub open spec fn pad_left(s: Seq<char>, width: nat) -> Seq<char> {
    if s.len() >= width {
        s
    } else {
        spaces((width - s.len()) as nat) + s
    }
}

/// Appends `n` spaces.
pub fn push_spaces(s: &mut String, n: usize)
    ensures
        final(s)@ == old(s)@ + spaces(n as nat),
{
    let mut k: usize = 0;
    while k < n
        invariant
            k <= n,
            s@ == old(s)@ + spaces(k as nat),
        decreases n - k,
    {
        push_char(s, ' ');
        k = k + 1;
        assert(s@ =~= old(s)@ + spaces(k as nat));
    }
}

/// Appends `t` left-aligned in a field of `width` characters.
pub fn push_padded_right(s: &mut String, t: &str, width: usize)
    ensures
        final(s)@ == old(s)@ + pad_right(t@, width as nat),
{
    let n = t.unicode_len();
    s.append(t);
    if n < width {
        push_spaces(s, width - n);
    }
    assert(s@ =~= old(s)@ + pad_right(t@, width as nat)) by {
        if n < width {
            assert(old(s)@ + t@ + spaces((width - n) as nat) =~= old(s)@ + (t@ + spaces((width - n) as nat)));
        }
    }
}

/// Appends `t` right-aligned in a field of `width` characters.
pub fn push_padded_left(s: &mut String, t: &str, width: usize)
    ensures
        final(s)@ == old(s)@ + pad_left(t@, width as nat),
{
    let n = t.unicode_len();
    if n < width {
        push_spaces(s, width - n);
    }
    s.append(t);
    assert(s@ =~= old(s)@ + pad_left(t@, width as nat)) by {
        if n < width {
            assert(old(s)@ + spaces((width - n) as nat) + t@ =~= old(s)@ + (spaces((width - n) as nat) + t@));
        }
    }
}


/// The Unicode `White_Space` property, which `char::is_whitespace` tests.
pub open spec fn is_white(c: char) -> bool {
    let u = c as u32;
    ||| 0x09 <= u <= 0x0d
    ||| u == 0x20
    ||| u == 0x85
    ||| u == 0xa0
    ||| u == 0x1680
    ||| 0x2000 <= u <= 0x200a
    ||| u == 0x2028
    ||| u == 0x2029
    ||| u == 0x202f
    ||| u == 0x205f
    ||| u == 0x3000
}

/// Whether `c` is white space (`char::is_whitespace`).
pub fn is_white_char(c: char) -> (r: bool)
    ensures
        r == is_white(c),
{
    let u = c as u32;
    (0x09 <= u && u <= 0x0d) || u == 0x20 || u == 0x85 || u == 0xa0 || u == 0x1680 || (0x2000
        <= u && u <= 0x200a) || u == 0x2028 || u == 0x2029 || u == 0x202f || u == 0x205f || u
        == 0x3000
}

/// `s` without its leading white space.
pub open spec fn trim_start(s: Seq<char>) -> Seq<char>
    decreases s.len(),
{
    if s.len() > 0 && is_white(s[0]) {
        trim_start(s.drop_first())
    } else {
        s
    }
}

/// `s` without its trailing white space.
pub open spec fn trim_end(s: Seq<char>) -> Seq<char>
    decreases s.len(),
{
    if s.len() > 0 && is_white(s.last()) {
        trim_end(s.drop_last())
    } else {
        s
    }
}

/// `s` without leading and trailing white space (`str::trim`).
pub open spec fn trim(s: Seq<char>) -> Seq<char> {
    trim_end(trim_start(s))
}

proof fn lemma_trim_start_skip(s: Seq<char>, i: int)
    requires
        0 <= i <= s.len(),
        forall|j: int| 0 <= j < i ==> is_white(s[j]),
    ensures
        trim_start(s) == trim_start(s.skip(i)),
    decreases i,
{
    if i > 0 {
        assert(s.drop_first().skip(i - 1) =~= s.skip(i));
        lemma_trim_start_skip(s.drop_first(), i - 1);
    } else {
        assert(s.skip(0) =~= s);
    }
}

proof fn lemma_trim_end_take(s: Seq<char>, i: int)
    requires
        0 <= i <= s.len(),
        forall|j: int| i <= j < s.len() ==> is_white(s[j]),
    ensures
        trim_end(s) == trim_end(s.take(i)),
    decreases s.len() - i,
{
    if i < s.len() {
        assert(s.drop_last().take(i) =~= s.take(i));
        lemma_trim_end_take(s.drop_last(), i);
    } else {
        assert(s.take(i) =~= s);
    }
}

proof fn lemma_trim_start_shape(s: Seq<char>)
    ensures
        trim_start(s).len() == 0 || !is_white(trim_start(s)[0]),
        trim_start(trim_start(s)) == trim_start(s),
    decreases s.len(),
{
    if s.len() > 0 && is_white(s[0]) {
        lemma_trim_start_shape(s.drop_first());
    }
}

proof fn lemma_trim_end_shape(s: Seq<char>)
    ensures
        trim_end(s).len() <= s.len(),
        trim_end(s) == s.take(trim_end(s).len() as int),
        trim_end(s).len() == 0 || !is_white(trim_end(s).last()),
    decreases s.len(),
{
    if s.len() > 0 && is_white(s.last()) {
        lemma_trim_end_shape(s.drop_last());
        assert(s.drop_last().take(trim_end(s).len() as int) =~= s.take(trim_end(s).len() as int));
    } else {
        assert(s.take(s.len() as int) =~= s);
    }
}

/// Trimming twice trims once (`s.trim().trim() == s.trim()`).
pub proof fn lemma_trim_idempotent(s: Seq<char>)
    ensures
        trim(trim(s)) == trim(s),
{
    let t = trim_start(s);
    let u = trim_end(t);
    lemma_trim_start_shape(s);
    lemma_trim_end_shape(t);
    if u.len() > 0 {
        assert(u[0] == t[0]);
    }
    assert(trim_start(u) == u);
    lemma_trim_end_shape(u);
    assert(trim_end(u) == u) by {
        if u.len() > 0 {
            assert(!is_white(u.last()));
        }
    }
}

/// The characters of `s[lo..hi]` with surrounding white space removed.
pub fn trimmed_range(s: &Vec<char>, lo: usize, hi: usize) -> (r: String)
    requires
        lo <= hi <= s@.len(),
    ensures
        r@ == trim(s@.subrange(lo as int, hi as int)),
{
    let ghost whole = s@.subrange(lo as int, hi as int);
    let mut a = lo;
    while a < hi && is_white_char(s[a])
        invariant
            lo <= a <= hi <= s@.len(),
            forall|j: int| lo <= j < a ==> is_white(s@[j]),
        decreases hi - a,
    {
        a = a + 1;
    }
    proof {
        lemma_trim_start_skip(whole, a - lo);
        assert(whole.skip(a - lo) =~= s@.subrange(a as int, hi as int));
        let t = s@.subrange(a as int, hi as int);
        if t.len() > 0 {
            assert(t[0] == s@[a as int]);
        }
        assert(trim_start(t) == t);
    }
    let mut b = hi;
    while b > a && is_white_char(s[b - 1])
        invariant
            lo <= a <= b <= hi <= s@.len(),
            forall|j: int| b <= j < hi ==> is_white(s@[j]),
        decreases b - a,
    {
        b = b - 1;
    }
    proof {
        let t = s@.subrange(a as int, hi as int);
        lemma_trim_end_take(t, b - a);
        assert(t.take(b - a) =~= s@.subrange(a as int, b as int));
        let u = s@.subrange(a as int, b as int);
        if u.len() > 0 {
            assert(u.last() == s@[b - 1]);
        }
        assert(trim_end(u) == u);
    }
    let mut r = String::new();
    let mut k = a;
    while k < b
        invariant
            a <= k <= b <= s@.len(),
            r@ == s@.subrange(a as int, k as int),
        decreases b - k,
    {
        push_char(&mut r, s[k]);
        k = k + 1;
        assert(r@ =~= s@.subrange(a as int, k as int));
    }
    r
}

/// The position of the first occurrence of `sep` in `s` at or after `i`, or -1.
pub open spec fn find_from(s: Seq<char>, sep: Seq<char>, i: int) -> int
    decreases s.len() - i,
{
    if i < 0 || i + sep.len() > s.len() {
        -1
    } else if occurs_at(s, sep, i) {
        i
    } else if i >= s.len() {
        -1
    } else {
        find_from(s, sep, i + 1)
    }
}

/// The pieces of `s[p..]` between the occurrences of the non-empty separator `sep`,
/// scanning left to right.
pub open spec fn split_from(s: Seq<char>, sep: Seq<char>, p: int) -> Seq<Seq<char>>
    decreases s.len() - p,
{
    let k = find_from(s, sep, p);
    if sep.len() == 0 || p < 0 || p > s.len() || k < 0 {
        seq![s.subrange(p, s.len() as int)]
    } else {
        proof {
            lemma_find_from(s, sep, p);
        }
        seq![s.subrange(p, k)] + split_from(s, sep, k + sep.len())
    }
}

/// The pieces of `s` between the occurrences of the non-empty separator `sep`
/// (`str::split` with a string pattern).
pub open spec fn split_by(s: Seq<char>, sep: Seq<char>) -> Seq<Seq<char>> {
    split_from(s, sep, 0)
}

/// `find_from` gives the first occurrence at or after `i`.
pub proof fn lemma_find_first(s: Seq<char>, sep: Seq<char>, i: int, k: int)
    requires
        0 <= i <= k,
        occurs_at(s, sep, k),
        forall|j: int| i <= j < k ==> !occurs_at(s, sep, j),
    ensures
        find_from(s, sep, i) == k,
    decreases k - i,
{
    if i < k {
        assert(!occurs_at(s, sep, i));
        lemma_find_first(s, sep, i + 1, k);
    }
}

/// Searching behind a prefix finds what searching the rest finds, shifted.
pub proof fn lemma_find_shift(pre: Seq<char>, t: Seq<char>, sep: Seq<char>, q: int)
    requires
        0 <= q,
    ensures
        find_from(pre + t, sep, pre.len() + q) == (if find_from(t, sep, q) < 0 {
            -1
        } else {
            pre.len() + find_from(t, sep, q)
        }),
    decreases t.len() - q,
{
    let s = pre + t;
    let i = pre.len() + q;
    if q + sep.len() <= t.len() {
        assert(s.subrange(i, i + sep.len()) =~= t.subrange(q, q + sep.len()));
        if !occurs_at(t, sep, q) && q < t.len() {
            lemma_find_shift(pre, t, sep, q + 1);
        }
    }
}

/// Splitting behind a prefix gives the pieces of the rest.
pub proof fn lemma_split_shift(pre: Seq<char>, t: Seq<char>, sep: Seq<char>, q: int)
    requires
        0 <= q <= t.len(),
    ensures
        split_from(pre + t, sep, pre.len() + q) == split_from(t, sep, q),
    decreases t.len() - q,
{
    let s = pre + t;
    let i = pre.len() + q;
    lemma_find_shift(pre, t, sep, q);
    lemma_find_from(t, sep, q);
    let k = find_from(t, sep, q);
    if sep.len() > 0 && k >= 0 {
        assert(s.subrange(i, pre.len() + k) =~= t.subrange(q, k));
        lemma_split_shift(pre, t, sep, k + sep.len());
        assert(pre.len() + k + sep.len() == pre.len() + (k + sep.len()));
    } else {
        assert(s.subrange(i, s.len() as int) =~= t.subrange(q, t.len() as int));
    }
}

/// The number of occurrences of the non-empty `sep` in `s[p..]`, counted left to right
/// without overlap (`str::matches(..).count()`).
pub open spec fn match_count(s: Seq<char>, sep: Seq<char>, p: int) -> nat
    decreases s.len() - p,
{
    let k = find_from(s, sep, p);
    if sep.len() == 0 || p < 0 || p > s.len() || k < 0 {
        0
    } else {
        proof {
            lemma_find_from(s, sep, p);
        }
        1 + match_count(s, sep, k + sep.len())
    }
}

/// There is one piece more than there are separators.
pub proof fn lemma_split_count(s: Seq<char>, sep: Seq<char>, p: int)
    ensures
        split_from(s, sep, p).len() == match_count(s, sep, p) + 1,
    decreases s.len() - p,
{
    let k = find_from(s, sep, p);
    if !(sep.len() == 0 || p < 0 || p > s.len() || k < 0) {
        lemma_find_from(s, sep, p);
        lemma_split_count(s, sep, k + sep.len());
    }
}

pub proof fn lemma_find_from(s: Seq<char>, sep: Seq<char>, i: int)
    requires
        0 <= i,
    ensures
        find_from(s, sep, i) == -1 || (i <= find_from(s, sep, i) && occurs_at(
            s,
            sep,
            find_from(s, sep, i),
        )),
        forall|j: int|
            i <= j && (find_from(s, sep, i) == -1 || j < find_from(s, sep, i)) ==> !occurs_at(
                s,
                sep,
                j,
            ),
    decreases s.len() - i,
{
    if i + sep.len() > s.len() {
    } else if !occurs_at(s, sep, i) && i < s.len() {
        lemma_find_from(s, sep, i + 1);
    }
}

/// Position of the first occurrence of `sep` in `s` at or after `i`, if any.
fn find_sep(s: &Vec<char>, sep: &Vec<char>, i: usize) -> (r: Option<usize>)
    requires
        sep@.len() > 0,
        i <= s@.len(),
    ensures
        r is None ==> find_from(s@, sep@, i as int) == -1,
        r matches Some(k) ==> find_from(s@, sep@, i as int) == k && k + sep@.len() <= s@.len(),
{
    let n = sep.len();
    let h = s.len();
    let mut j = i;
    while j <= h && n <= h - j
        invariant
            n == sep@.len() >= 1,
            h == s@.len(),
            i <= j,
            find_from(s@, sep@, i as int) == find_from(s@, sep@, j as int),
        decreases h - j,
    {
        if matches_at(s, sep, j) {
            return Some(j);
        }
        j = j + 1;
    }
    None
}

/// Splits `s` at each occurrence of the non-empty separator `sep` and trims each piece.
pub fn split_trimmed(s: &Vec<char>, sep: &Vec<char>) -> (r: Vec<String>)
    requires
        sep@.len() > 0,
    ensures
        r@.len() == split_by(s@, sep@).len(),
        forall|i: int| 0 <= i < r@.len() ==> #[trigger] r@[i]@ == trim(split_by(s@, sep@)[i]),
{
    let mut r: Vec<String> = Vec::new();
    let mut p: usize = 0;
    let ghost done: Seq<Seq<char>> = seq![];
    loop
        invariant
            p <= s@.len(),
            sep@.len() > 0,
            done + split_from(s@, sep@, p as int) == split_by(s@, sep@),
            r@.len() == done.len(),
            forall|i: int| 0 <= i < r@.len() ==> #[trigger] r@[i]@ == trim(done[i]),
        decreases s@.len() - p,
    {
        match find_sep(s, sep, p) {
            None => {
                let piece = trimmed_range(s, p, s.len());
                r.push(piece);
                proof {
                    let ghost last = s@.subrange(p as int, s@.len() as int);
                    assert(split_from(s@, sep@, p as int) == seq![last]);
                    assert(done.push(last) =~= done + split_from(s@, sep@, p as int));
                    done = done.push(last);
                }
                return r;
            },
            Some(k) => {
                proof {
                    lemma_find_from(s@, sep@, p as int);
                }
                let piece = trimmed_range(s, p, k);
                r.push(piece);
                proof {
                    let ghost first = s@.subrange(p as int, k as int);
                    assert(split_from(s@, sep@, p as int) == seq![first] + split_from(
                        s@,
                        sep@,
                        k + sep@.len(),
                    ));
                    assert(done + split_from(s@, sep@, p as int) =~= done.push(first)
                        + split_from(s@, sep@, k + sep@.len()));
                    done = done.push(first);
                }
                let h = s.len();
                assert(k + sep.len() <= h);
                p = k + sep.len();
            },
        }
    }
}


/// `s` without one trailing carriage return.
pub open spec fn strip_cr(s: Seq<char>) -> Seq<char> {
    if s.len() > 0 && s.last() == '\r' {
        s.drop_last()
    } else {
        s
    }
}

/// The lines of `s` (`str::lines`): split at `\n`, a final line ending is optional,
/// and a `\r` directly before a `\n` belongs to the line ending.
pub open spec fn lines_of(s: Seq<char>) -> Seq<Seq<char>> {
    if s.len() == 0 {
        seq![]
    } else {
        let p = split_by(s, seq!['\n']);
        let body = if s.last() == '\n' {
            p.drop_last()
        } else {
            p
        };
        Seq::new(
            body.len(),
            |i: int|
                if i < p.len() - 1 {
                    strip_cr(body[i])
                } else {
                    body[i]
                },
        )
    }
}

/// The first position at or after `i` that holds no white space, or `s.len()`.
pub open spec fn skip_white(s: Seq<char>, i: int) -> int
    decreases s.len() - i,
{
    if i < 0 || i >= s.len() || !is_white(s[i]) {
        i
    } else {
        skip_white(s, i + 1)
    }
}

/// The first position at or after `i` that holds white space, or `s.len()`.
pub open spec fn skip_word(s: Seq<char>, i: int) -> int
    decreases s.len() - i,
{
    if i < 0 || i >= s.len() || is_white(s[i]) {
        i
    } else {
        skip_word(s, i + 1)
    }
}

pub proof fn lemma_skip_bounds(s: Seq<char>, i: int)
    requires
        0 <= i <= s.len(),
    ensures
        i <= skip_white(s, i) <= s.len(),
        i <= skip_word(s, i) <= s.len(),
        skip_white(s, i) < s.len() ==> !is_white(s[skip_white(s, i)]),
        skip_word(s, i) < s.len() ==> is_white(s[skip_word(s, i)]),
        forall|j: int| i <= j < skip_white(s, i) ==> is_white(s[j]),
        forall|j: int| i <= j < skip_word(s, i) ==> !is_white(s[j]),
    decreases s.len() - i,
{
    if i < s.len() {
        lemma_skip_bounds(s, i + 1);
    }
}

/// The white-space separated words of `s[i..]`.
pub open spec fn words_from(s: Seq<char>, i: int) -> Seq<Seq<char>>
    decreases s.len() - i,
{
    if i < 0 || i > s.len() {
        seq![]
    } else {
        let j = skip_white(s, i);
        if j >= s.len() {
            seq![]
        } else {
            let e = skip_word(s, j);
            proof {
                lemma_skip_bounds(s, i);
                lemma_skip_bounds(s, j);
            }
            seq![s.subrange(j, e)] + words_from(s, e)
        }
    }
}

/// The white-space separated words of `s` (`str::split_whitespace`).
pub open spec fn words(s: Seq<char>) -> Seq<Seq<char>> {
    words_from(s, 0)
}

/// The words of `s[lo..hi]`, at most `limit` of them, and whether there were more.
pub fn first_words(s: &Vec<char>, lo: usize, hi: usize, limit: usize) -> (r: (Vec<Vec<char>>, bool))
    requires
        lo <= hi <= s@.len(),
    ensures
        r.0@.len() == if words(s@.subrange(lo as int, hi as int)).len() < limit {
            words(s@.subrange(lo as int, hi as int)).len()
        } else {
            limit as nat
        },
        forall|k: int|
            0 <= k < r.0@.len() ==> #[trigger] r.0@[k]@ == words(s@.subrange(lo as int, hi as int))[k],
        r.1 == (words(s@.subrange(lo as int, hi as int)).len() > limit),
{
    let ghost t = s@.subrange(lo as int, hi as int);
    let mut out: Vec<Vec<char>> = Vec::new();
    let mut i = lo;
    let ghost done: Seq<Seq<char>> = seq![];
    loop
        invariant
            lo <= i <= hi <= s@.len(),
            t == s@.subrange(lo as int, hi as int),
            done + words_from(t, i - lo) == words(t),
            out@.len() == done.len() <= limit,
            forall|k: int| 0 <= k < out@.len() ==> #[trigger] out@[k]@ == done[k],
        decreases hi - i,
    {
        let ghost rel = (i - lo) as int;
        let mut j = i;
        while j < hi && is_white_char(s[j])
            invariant
                lo <= i <= j <= hi <= s@.len(),
                t == s@.subrange(lo as int, hi as int),
                skip_white(t, rel) == skip_white(t, j - lo),
                rel == i - lo,
            decreases hi - j,
        {
            assert(t[j - lo] == s@[j as int]);
            j = j + 1;
        }
        if j >= hi {
            proof {
                assert(words_from(t, rel) =~= seq![]);
                assert(done + words_from(t, rel) =~= done);
            }
            return (out, false);
        }
        let mut e = j;
        while e < hi && !is_white_char(s[e])
            invariant
                lo <= j <= e <= hi <= s@.len(),
                t == s@.subrange(lo as int, hi as int),
                skip_word(t, j - lo) == skip_word(t, e - lo),
            decreases hi - e,
        {
            assert(t[e - lo] == s@[e as int]);
            e = e + 1;
        }
        proof {
            lemma_skip_bounds(t, rel);
            lemma_skip_bounds(t, j - lo);
            assert(words_from(t, rel) == seq![t.subrange(j - lo, e - lo)] + words_from(t, e - lo));
        }
        if out.len() == limit {
            proof {
                assert(words(t) == done + (seq![t.subrange(j - lo, e - lo)] + words_from(t, e - lo)));
                assert(words(t).len() > limit);
            }
            return (out, true);
        }
        let mut w: Vec<char> = Vec::new();
        let mut k = j;
        while k < e
            invariant
                j <= k <= e <= s@.len(),
                w@ == s@.subrange(j as int, k as int),
            decreases e - k,
        {
            w.push(s[k]);
            k = k + 1;
            assert(w@ =~= s@.subrange(j as int, k as int));
        }
        proof {
            assert(s@.subrange(j as int, e as int) =~= t.subrange(j - lo, e - lo));
            let piece = t.subrange(j - lo, e - lo);
            assert(done + words_from(t, rel) =~= done.push(piece) + words_from(t, e - lo));
            done = done.push(piece);
        }
        out.push(w);
        i = e;
    }
}

/// The value of a string of decimal digits.
pub open spec fn digits_value(s: Seq<char>) -> nat
    decreases s.len(),
{
    if s.len() == 0 {
        0
    } else {
        digits_value(s.drop_last()) * 10 + ((s.last() as u32) - ('0' as u32)) as nat
    }
}

/// All characters are ASCII decimal digits.
pub open spec fn all_digits(s: Seq<char>) -> bool {
    forall|i: int| 0 <= i < s.len() ==> '0' <= #[trigger] s[i] <= '9'
}

/// The number that an unsigned integer's `FromStr` reads from `s`, before the range
/// check: an optional `+`, then at least one decimal digit and nothing else.
pub open spec fn unsigned_value(s: Seq<char>) -> Option<nat> {
    let body = unsigned_body(s);
    if body.len() > 0 && all_digits(body) {
        Some(digits_value(body))
    } else {
        None
    }
}

/// `s` without one leading `+`.
pub open spec fn unsigned_body(s: Seq<char>) -> Seq<char> {
    if s.len() > 0 && s[0] == '+' {
        s.drop_first()
    } else {
        s
    }
}

/// What `str::parse::<u64>()` accepts: the value, if it is in range.
pub open spec fn parse_u64_spec(s: Seq<char>) -> Option<u64> {
    match unsigned_value(s) {
        Some(v) => if v <= u64::MAX {
            Some(v as u64)
        } else {
            None
        },
        None => None,
    }
}

/// What `str::parse::<u32>()` accepts: the value, if it is in range.
pub open spec fn parse_u32_spec(s: Seq<char>) -> Option<u32> {
    match unsigned_value(s) {
        Some(v) => if v <= u32::MAX {
            Some(v as u32)
        } else {
            None
        },
        None => None,
    }
}

proof fn lemma_digits_value_prefix(s: Seq<char>, k: int)
    requires
        0 <= k <= s.len(),
    ensures
        digits_value(s.take(k)) <= digits_value(s),
    decreases s.len() - k,
{
    if k < s.len() {
        lemma_digits_value_prefix(s.drop_last(), k);
        assert(s.drop_last().take(k) =~= s.take(k));
    } else {
        assert(s.take(k) =~= s);
    }
}

/// Parses an unsigned decimal integer as `str::parse::<u64>()` does.
pub fn parse_u64(s: &Vec<char>) -> (r: Option<u64>)
    ensures
        r == parse_u64_spec(s@),
{
    let mut start: usize = 0;
    if s.len() > 0 && s[0] == '+' {
        start = 1;
    }
    let ghost body = s@.skip(start as int);
    proof {
        if start == 1 {
            assert(body =~= s@.drop_first());
        } else {
            assert(body =~= s@);
        }
        assert(body == unsigned_body(s@));
    }
    if start >= s.len() {
        return None;
    }
    let mut acc: u64 = 0;
    let mut i = start;
    while i < s.len()
        invariant
            start <= i <= s@.len(),
            start < s@.len(),
            body == s@.skip(start as int),
            body == unsigned_body(s@),
            all_digits(body.take(i - start)),
            acc == digits_value(body.take(i - start)),
        decreases s@.len() - i,
    {
        let c = s[i];
        if !('0' <= c && c <= '9') {
            proof {
                assert(body[i - start] == c);
                assert(!all_digits(body));
            }
            return None;
        }
        let d = (c as u32 - '0' as u32) as u64;
        proof {
            let b1 = body.take(i - start + 1);
            assert(b1.drop_last() =~= body.take(i - start));
            assert(b1.last() == c);
        }
        if acc > (u64::MAX - d) / 10 {
            proof {
                let b1 = body.take(i - start + 1);
                assert(digits_value(b1) == acc * 10 + d);
                assert(digits_value(b1) > u64::MAX) by (nonlinear_arith)
                    requires
                        acc > (u64::MAX - d) / 10,
                        digits_value(b1) == acc * 10 + d,
                        d <= 9,
                {
                }
                lemma_digits_value_prefix(body, i - start + 1);
                if all_digits(body) {
                    assert(unsigned_value(s@) == Some(digits_value(body)));
                }
            }
            return None;
        }
        acc = acc * 10 + d;
        i = i + 1;
        proof {
            let b1 = body.take(i - start);
            assert forall|j: int| 0 <= j < b1.len() implies '0' <= #[trigger] b1[j] <= '9' by {
                if j < b1.len() - 1 {
                    assert(b1[j] == body.take(i - start - 1)[j]);
                }
            }
        }
    }
    proof {
        assert(body.take(s@.len() - start) =~= body);
    }
    Some(acc)
}

/// Parses an unsigned decimal integer as `str::parse::<u32>()` does.
pub fn parse_u32(s: &Vec<char>) -> (r: Option<u32>)
    ensures
        r == parse_u32_spec(s@),
{
    match parse_u64(s) {
        Some(v) => if v <= u32::MAX as u64 {
            Some(v as u32)
        } else {
            None
        },
        None => {
            proof {
                if let Some(v) = unsigned_value(s@) {
                    assert(v > u64::MAX);
                }
            }
            None
        },
    }
}


/// Number of bytes in the UTF-8 encoding of `c`.
pub open spec fn utf8_width(c: char) -> nat {
    let u = c as u32;
    if u < 0x80 {
        1
    } else if u < 0x800 {
        2
    } else if u < 0x10000 {
        3
    } else {
        4
    }
}

/// Number of bytes in the UTF-8 encoding of `s` (`str::len`).
pub open spec fn utf8_len(s: Seq<char>) -> nat
    decreases s.len(),
{
    if s.len() == 0 {
        0
    } else {
        utf8_width(s[0]) + utf8_len(s.drop_first())
    }
}

/// `utf8_len` is the length of vstd's UTF-8 encoding.
pub proof fn lemma_utf8_len_encoding(s: Seq<char>)
    ensures
        utf8_len(s) == vstd::utf8::encode_utf8(s).len(),
    decreases s.len(),
{
    if s.len() > 0 {
        vstd::utf8::char_is_scalar(s[0]);
        lemma_utf8_len_encoding(s.drop_first());
    }
}

proof fn lemma_utf8_len_push(s: Seq<char>, c: char)
    ensures
        utf8_len(s.push(c)) == utf8_len(s) + utf8_width(c),
    decreases s.len(),
{
    if s.len() > 0 {
        assert(s.push(c).drop_first() =~= s.drop_first().push(c));
        lemma_utf8_len_push(s.drop_first(), c);
    } else {
        assert(s.push(c).drop_first() =~= s);
    }
}

proof fn lemma_utf8_len_take_mono(s: Seq<char>, i: int, j: int)
    requires
        0 <= i < j <= s.len(),
    ensures
        utf8_len(s.take(i)) < utf8_len(s.take(j)),
    decreases j - i,
{
    assert(s.take(j) =~= s.take(j - 1).push(s[j - 1]));
    lemma_utf8_len_push(s.take(j - 1), s[j - 1]);
    if i < j - 1 {
        lemma_utf8_len_take_mono(s, i, j - 1);
    }
}

/// Byte offset `b` falls between two characters of `s` (`str::is_char_boundary`).
pub open spec fn is_char_boundary(s: Seq<char>, b: nat) -> bool {
    exists|k: int| 0 <= k <= s.len() && utf8_len(#[trigger] s.take(k)) == b
}

/// The number of characters of `s` that make up its first `b` bytes, where `b` is a boundary.
pub open spec fn chars_in_bytes(s: Seq<char>, b: nat) -> int {
    choose|k: int| 0 <= k <= s.len() && utf8_len(#[trigger] s.take(k)) == b
}

/// `s` cut to at most `max` bytes: unchanged if it fits, otherwise its first `max - 1`
/// bytes followed by an ellipsis.
pub open spec fn truncated(s: Seq<char>, max: nat) -> Seq<char> {
    if utf8_len(s) <= max {
        s
    } else {
        s.take(chars_in_bytes(s, (max - 1) as nat)) + seq!['\u{2026}']
    }
}

/// `s` can be cut to `max` bytes without slicing inside a character.
pub open spec fn can_truncate(s: Seq<char>, max: nat) -> bool {
    utf8_len(s) <= max || (max >= 1 && is_char_boundary(s, (max - 1) as nat))
}

fn char_width(c: char) -> (w: usize)
    ensures
        w == utf8_width(c),
{
    let u = c as u32;
    if u < 0x80 {
        1
    } else if u < 0x800 {
        2
    } else if u < 0x10000 {
        3
    } else {
        4
    }
}

/// The byte length of `s` and whether cutting it to `max` bytes is possible.
pub fn check_truncate(s: &str, max: usize) -> (r: bool)
    ensures
        r == can_truncate(s@, max as nat),
{
    let chars = chars_of(s);
    let n = chars.len();
    let mut acc: usize = 0;
    let mut i: usize = 0;
    let mut boundary = max >= 1 && max - 1 == 0;
    proof {
        assert(s@.take(0) =~= Seq::<char>::empty());
    }
    while i < n
        invariant
            n == chars@.len(),
            chars@ == s@,
            i <= n,
            acc <= max,
            acc == utf8_len(s@.take(i as int)),
            boundary == (max >= 1 && exists|k: int| 0 <= k <= i && utf8_len(#[trigger] s@.take(k))
                == max - 1),
        decreases n - i,
    {
        let w = char_width(chars[i]);
        proof {
            assert(s@.take(i + 1) =~= s@.take(i as int).push(s@[i as int]));
            lemma_utf8_len_push(s@.take(i as int), s@[i as int]);
        }
        if w > max - acc {
            proof {
                assert forall|k: int| 0 <= k <= n && k > i implies utf8_len(#[trigger] s@.take(k)) > max by {
                    if k > i + 1 {
                        lemma_utf8_len_take_mono(s@, i + 1, k);
                    }
                }
                if i + 1 < n {
                    lemma_utf8_len_take_mono(s@, i + 1, n as int);
                }
                assert(s@.take(n as int) =~= s@);
            }
            return boundary;
        }
        acc = acc + w;
        i = i + 1;
        if max >= 1 && acc == max - 1 {
            boundary = true;
        }
    }
    proof {
        assert(s@.take(n as int) =~= s@);
    }
    true
}

/// Whether the UTF-8 encoding of `s` has at most `max` bytes.
pub fn fits_in(s: &Vec<char>, max: usize) -> (r: bool)
    ensures
        r == (utf8_len(s@) <= max),
{
    let n = s.len();
    let mut acc: usize = 0;
    let mut i: usize = 0;
    proof {
        assert(s@.take(0) =~= Seq::<char>::empty());
    }
    while i < n
        invariant
            n == s@.len(),
            i <= n,
            acc <= max,
            acc == utf8_len(s@.take(i as int)),
        decreases n - i,
    {
        let w = char_width(s[i]);
        proof {
            assert(s@.take(i + 1) =~= s@.take(i as int).push(s@[i as int]));
            lemma_utf8_len_push(s@.take(i as int), s@[i as int]);
        }
        if w > max - acc {
            proof {
                if i + 1 < n {
                    lemma_utf8_len_take_mono(s@, i + 1, n as int);
                }
                assert(s@.take(n as int) =~= s@);
            }
            return false;
        }
        acc = acc + w;
        i = i + 1;
    }
    proof {
        assert(s@.take(n as int) =~= s@);
    }
    true
}

/// Appends `t` cut to at most `max` bytes (`t` itself, or its first `max - 1` bytes
/// and an ellipsis).
pub fn push_truncated(out: &mut String, t: &str, max: usize)
    requires
        can_truncate(t@, max as nat),
    ensures
        final(out)@ == old(out)@ + truncated(t@, max as nat),
{
    let chars = chars_of(t);
    let n = chars.len();
    if fits_in(&chars, max) {
        out.append(t);
        return;
    }
    proof {
        let k = chars_in_bytes(t@, (max - 1) as nat);
        let kk = choose|k: int| 0 <= k <= t@.len() && utf8_len(#[trigger] t@.take(k)) == max - 1;
        assert(k == kk);
    }
    let ghost target = chars_in_bytes(t@, (max - 1) as nat);
    let mut j: usize = 0;
    let mut bytes: usize = 0;
    while bytes < max - 1
        invariant
            n == chars@.len(),
            chars@ == t@,
            utf8_len(t@) > max >= 1,
            0 <= target <= n,
            utf8_len(t@.take(target)) == max - 1,
            j <= target,
            bytes == utf8_len(t@.take(j as int)),
            out@ == old(out)@ + t@.take(j as int),
        decreases target - j,
    {
        proof {
            if j == target {
                assert(false);
            }
        }
        let c = chars[j];
        push_char(out, c);
        proof {
            assert(t@.take(j + 1) =~= t@.take(j as int).push(c));
            lemma_utf8_len_push(t@.take(j as int), c);
            if j + 1 < target {
                lemma_utf8_len_take_mono(t@, j + 1, target);
            }
        }
        bytes = bytes + char_width(c);
        j = j + 1;
        proof {
            assert(out@ =~= old(out)@ + t@.take(j as int));
            if j > target {
                lemma_utf8_len_take_mono(t@, target, j as int);
            }
        }
    }
    proof {
        if (j as int) < target {
            lemma_utf8_len_take_mono(t@, j as int, target);
        }
        assert(j == target);
    }
    push_char(out, '\u{2026}');
    proof {
        assert(out@ =~= old(out)@ + (t@.take(target) + seq!['\u{2026}']));
    }
}


/// The start and end positions of each line of `s` (`str::lines`).
pub fn line_ranges(s: &Vec<char>) -> (r: Vec<(usize, usize)>)
    ensures
        r@.len() == lines_of(s@).len(),
        forall|k: int|
            #![trigger r@[k]]
            0 <= k < r@.len() ==> r@[k].0 <= r@[k].1 && r@[k].1 <= s@.len() && s@.subrange(
                r@[k].0 as int,
                r@[k].1 as int,
            ) == lines_of(s@)[k],
{
    let mut ranges: Vec<(usize, usize)> = Vec::new();
    let n = s.len();
    if n == 0 {
        return ranges;
    }
    let ghost sep = seq!['\n'];
    let ghost pieces = split_by(s@, sep);
    let ghost done: Seq<(usize, usize)> = seq![];
    let mut p: usize = 0;
    let mut nl = Vec::new();
    nl.push('\n');
    assert(nl@ =~= sep);
    loop
        invariant_except_break
            Seq::new(done.len(), |k: int| s@.subrange(done[k].0 as int, done[k].1 as int))
                + split_from(s@, sep, p as int) == pieces,
        invariant
            n == s@.len() > 0,
            sep == seq!['\n'],
            sep.len() == 1,
            nl@ == sep,
            p <= n,
            pieces == split_by(s@, sep),
            ranges@.len() == done.len(),
            forall|k: int| 0 <= k < ranges@.len() ==> #[trigger] ranges@[k] == done[k],
            forall|k: int| 0 <= k < done.len() ==> #[trigger] done[k].0 <= done[k].1 <= n,
        ensures
            Seq::new(done.len(), |k: int| s@.subrange(done[k].0 as int, done[k].1 as int)) == pieces,
        decreases n - p,
    {
        match find_sep(s, &nl, p) {
            None => {
                proof {
                    let last = s@.subrange(p as int, n as int);
                    assert(split_from(s@, sep, p as int) == seq![last]);
                }
                ranges.push((p, n));
                proof {
                    let d2 = done.push((p, n));
                    assert(Seq::new(d2.len(), |k: int| s@.subrange(d2[k].0 as int, d2[k].1 as int))
                        =~= Seq::new(done.len(), |k: int| s@.subrange(done[k].0 as int, done[k].1 as int))
                        + split_from(s@, sep, p as int));
                    assert(Seq::new(d2.len(), |k: int| s@.subrange(d2[k].0 as int, d2[k].1 as int)) == pieces);
                    done = d2;
                }
                break;
            },
            Some(k) => {
                proof {
                    lemma_find_from(s@, sep, p as int);
                }
                ranges.push((p, k));
                proof {
                    let first = s@.subrange(p as int, k as int);
                    assert(find_from(s@, sep, p as int) == k);
                    assert(split_from(s@, sep, p as int) == seq![first] + split_from(s@, sep, k + 1));
                    let d2 = done.push((p, k));
                    assert(Seq::new(d2.len(), |q: int| s@.subrange(d2[q].0 as int, d2[q].1 as int))
                        + split_from(s@, sep, k + 1) =~= Seq::new(
                        done.len(),
                        |q: int| s@.subrange(done[q].0 as int, done[q].1 as int),
                    ) + split_from(s@, sep, p as int));
                    done = d2;
                }
                p = k + 1;
            },
        }
    }
    proof {
        assert(Seq::new(done.len(), |k: int| s@.subrange(done[k].0 as int, done[k].1 as int)) =~= pieces);
        assert forall|q: int| 0 <= q < pieces.len() implies #[trigger] s@.subrange(done[q].0 as int, done[q].1 as int) == pieces[q] by {
            assert(Seq::new(done.len(), |k: int| s@.subrange(done[k].0 as int, done[k].1 as int))[q] == pieces[q]);
        }
    }
    let pieces_len = ranges.len();
    proof {
        assert(pieces.len() >= 1);
        assert(s@.last() == s@[n - 1]);
    }
    let body_len = if s[n - 1] == '\n' {
        pieces_len - 1
    } else {
        pieces_len
    };
    let mut out: Vec<(usize, usize)> = Vec::new();
    let mut k: usize = 0;
    while k < body_len
        invariant
            n == s@.len() > 0,
            sep == seq!['\n'],
            pieces == split_by(s@, sep),
            pieces_len == ranges@.len() == done.len() == pieces.len(),
            body_len == lines_of(s@).len(),
            body_len == (if s@.last() == '\n' {
                pieces_len - 1
            } else {
                pieces_len as int
            }),
            pieces_len >= 1,
            body_len <= pieces_len,
            forall|q: int| 0 <= q < ranges@.len() ==> #[trigger] ranges@[q] == done[q],
            forall|q: int| 0 <= q < done.len() ==> #[trigger] done[q].0 <= done[q].1 <= n,
            forall|q: int| 0 <= q < pieces.len() ==> #[trigger] s@.subrange(done[q].0 as int, done[q].1 as int) == pieces[q],
            k <= body_len,
            out@.len() == k,
            forall|q: int| 0 <= q < out@.len() ==> #[trigger] out@[q].0 <= out@[q].1 <= n && s@.subrange(
                out@[q].0 as int,
                out@[q].1 as int,
            ) == lines_of(s@)[q],
        decreases body_len - k,
    {
        let (a, b) = ranges[k];
        let mut e = b;
        if k + 1 < pieces_len && b > a && s[b - 1] == '\r' {
            e = b - 1;
        }
        proof {
            let piece = s@.subrange(a as int, b as int);
            assert(piece == pieces[k as int]);
            let body = if s@.last() == '\n' {
                pieces.drop_last()
            } else {
                pieces
            };
            assert(body[k as int] == pieces[k as int]);
            assert(lines_of(s@)[k as int] == if k < pieces.len() - 1 {
                strip_cr(pieces[k as int])
            } else {
                pieces[k as int]
            });
            if k + 1 < pieces_len && b > a && s@[b - 1] == '\r' {
                assert(piece.last() == '\r');
                assert(s@.subrange(a as int, e as int) =~= piece.drop_last());
            } else if k + 1 < pieces_len {
                if b > a {
                    assert(piece.last() == s@[b - 1]);
                }
                assert(strip_cr(piece) == piece);
            }
        }
        out.push((a, e));
        k = k + 1;
    }
    assert(out@.len() == lines_of(s@).len());
    assert forall|q: int| #![trigger out@[q]] 0 <= q < out@.len() implies out@[q].0 <= out@[q].1 && out@[q].1 <= s@.len() && s@.subrange(
        out@[q].0 as int,
        out@[q].1 as int,
    ) == lines_of(s@)[q] by {
        assert(out@[q].0 <= out@[q].1 <= n);
    }
    out
}


/// Number of bytes in the UTF-8 encoding of `s` (`str::len`).
pub fn byte_len(s: &str) -> (r: usize)
    requires
        utf8_len(s@) <= usize::MAX,
    ensures
        r == utf8_len(s@),
{
    let chars = chars_of(s);
    let n = chars.len();
    let mut acc: usize = 0;
    let mut i: usize = 0;
    proof {
        assert(s@.take(0) =~= Seq::<char>::empty());
    }
    while i < n
        invariant
            n == chars@.len(),
            chars@ == s@,
            i <= n,
            utf8_len(s@) <= usize::MAX,
            acc == utf8_len(s@.take(i as int)),
        decreases n - i,
    {
        proof {
            assert(s@.take(i + 1) =~= s@.take(i as int).push(s@[i as int]));
            lemma_utf8_len_push(s@.take(i as int), s@[i as int]);
            if i + 1 < n {
                lemma_utf8_len_take_mono(s@, i + 1, n as int);
            }
            assert(s@.take(n as int) =~= s@);
        }
        acc = acc + char_width(chars[i]);
        i = i + 1;
    }
    proof {
        assert(s@.take(n as int) =~= s@);
    }
    acc
}

/// `s` begins with `p`.
pub open spec fn starts_with(s: Seq<char>, p: Seq<char>) -> bool {
    p.len() <= s.len() && s.take(p.len() as int) == p
}

/// Whether `s` begins with `p` (`str::starts_with`).
pub fn starts_with_str(s: &str, p: &str) -> (r: bool)
    ensures
        r == starts_with(s@, p@),
{
    let x = chars_of(s);
    let y = chars_of(p);
    if y.len() > x.len() {
        return false;
    }
    let mut i: usize = 0;
    while i < y.len()
        invariant
            x@ == s@,
            y@ == p@,
            y@.len() <= x@.len(),
            i <= y@.len(),
            forall|k: int| 0 <= k < i ==> x@[k] == y@[k],
        decreases y@.len() - i,
    {
        if x[i] != y[i] {
            assert(s@.take(p@.len() as int)[i as int] != p@[i as int]);
            return false;
        }
        i = i + 1;
    }
    assert(s@.take(p@.len() as int) =~= p@);
    true
}

} // verus!
