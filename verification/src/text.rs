//! Character-level text utilities with their specifications: whitespace,
//! trimming, line splitting, substring search, word splitting, joining,
//! lexicographic order and lower-casing.

use vstd::prelude::*;

verus! {

// ---------------------------------------------------------------------------
// Characters
// ---------------------------------------------------------------------------

/// Unicode `White_Space`, the set used by `char::is_whitespace`, `str::trim`
/// and `str::split_whitespace`.
pub open spec fn is_ws(c: char) -> bool {
    let u = c as u32;
    ||| 0x09 <= u <= 0x0D
    ||| u == 0x20
    ||| u == 0x85
    ||| u == 0xA0
    ||| u == 0x1680
    ||| 0x2000 <= u <= 0x200A
    ||| u == 0x2028
    ||| u == 0x2029
    ||| u == 0x202F
    ||| u == 0x205F
    ||| u == 0x3000
}

pub fn is_whitespace(c: char) -> (r: bool)
    ensures
        r == is_ws(c),
{
    let u = c as u32;
    (0x09 <= u && u <= 0x0D) || u == 0x20 || u == 0x85 || u == 0xA0 || u == 0x1680 || (0x2000
        <= u && u <= 0x200A) || u == 0x2028 || u == 0x2029 || u == 0x202F || u == 0x205F || u
        == 0x3000
}

pub open spec fn ws_pred() -> spec_fn(char) -> bool {
    |c: char| is_ws(c)
}

pub open spec fn non_ws_pred() -> spec_fn(char) -> bool {
    |c: char| !is_ws(c)
}

pub open spec fn is_char_pred(c: char) -> spec_fn(char) -> bool {
    |x: char| x == c
}

pub open spec fn not_char_pred(c: char) -> spec_fn(char) -> bool {
    |x: char| x != c
}

// ---------------------------------------------------------------------------
// Runs of characters
// ---------------------------------------------------------------------------

/// The end of the run of characters satisfying `pred` that starts at `p`.
pub open spec fn run_end(s: Seq<char>, p: int, pred: spec_fn(char) -> bool) -> int
    decreases s.len() - p,
{
    if 0 <= p < s.len() && pred(s[p]) {
        run_end(s, p + 1, pred)
    } else {
        p
    }
}

pub proof fn lemma_run_end(s: Seq<char>, p: int, pred: spec_fn(char) -> bool)
    requires
        0 <= p <= s.len(),
    ensures
        p <= run_end(s, p, pred) <= s.len(),
        forall|k: int| p <= k < run_end(s, p, pred) ==> pred(#[trigger] s[k]),
        run_end(s, p, pred) < s.len() ==> !pred(s[run_end(s, p, pred)]),
    decreases s.len() - p,
{
    if p < s.len() && pred(s[p]) {
        lemma_run_end(s, p + 1, pred);
    }
}

/// The end of the line holding position `p`: the first `'\n'` at or after
/// `p`, or the end of the text.
pub open spec fn line_end(s: Seq<char>, p: int) -> int {
    run_end(s, p, not_char_pred('\n'))
}

/// `p` is the start of a line: the start of the text or just after a `'\n'`.
pub open spec fn is_line_start(s: Seq<char>, p: int) -> bool {
    p == 0 || (0 < p <= s.len() && s[p - 1] == '\n')
}

pub fn ws_run_end(v: &Vec<char>, p: usize) -> (r: usize)
    requires
        p <= v.len(),
    ensures
        r == run_end(v@, p as int, ws_pred()),
{
    let mut i = p;
    while i < v.len() && is_whitespace(v[i])
        invariant
            p <= i <= v.len(),
            run_end(v@, p as int, ws_pred()) == run_end(v@, i as int, ws_pred()),
        decreases v.len() - i,
    {
        i += 1;
    }
    i
}

pub fn non_ws_run_end(v: &Vec<char>, p: usize) -> (r: usize)
    requires
        p <= v.len(),
    ensures
        r == run_end(v@, p as int, non_ws_pred()),
{
    let mut i = p;
    while i < v.len() && !is_whitespace(v[i])
        invariant
            p <= i <= v.len(),
            run_end(v@, p as int, non_ws_pred()) == run_end(v@, i as int, non_ws_pred()),
        decreases v.len() - i,
    {
        i += 1;
    }
    i
}

/// The end of the run of characters equal to `c` from `p`.
pub fn same_run_end(v: &Vec<char>, p: usize, c: char) -> (r: usize)
    requires
        p <= v.len(),
    ensures
        r == run_end(v@, p as int, is_char_pred(c)),
{
    let mut i = p;
    while i < v.len() && v[i] == c
        invariant
            p <= i <= v.len(),
            run_end(v@, p as int, is_char_pred(c)) == run_end(v@, i as int, is_char_pred(c)),
        decreases v.len() - i,
    {
        i += 1;
    }
    i
}

/// The first position at or after `p` holding `c`, or the end of `v`.
pub fn find_char_from(v: &Vec<char>, p: usize, c: char) -> (r: usize)
    requires
        p <= v.len(),
    ensures
        r == run_end(v@, p as int, not_char_pred(c)),
{
    let mut i = p;
    while i < v.len() && v[i] != c
        invariant
            p <= i <= v.len(),
            run_end(v@, p as int, not_char_pred(c)) == run_end(v@, i as int, not_char_pred(c)),
        decreases v.len() - i,
    {
        i += 1;
    }
    i
}

pub fn line_end_of(v: &Vec<char>, p: usize) -> (r: usize)
    requires
        p <= v.len(),
    ensures
        r == line_end(v@, p as int),
{
    find_char_from(v, p, '\n')
}

/// A copy of `v[from..to]`.
pub fn slice_vec(v: &Vec<char>, from: usize, to: usize) -> (r: Vec<char>)
    requires
        from <= to <= v.len(),
    ensures
        r@ == v@.subrange(from as int, to as int),
{
    let mut r: Vec<char> = Vec::new();
    let mut i = from;
    while i < to
        invariant
            from <= i <= to <= v.len(),
            r@ == v@.subrange(from as int, i as int),
        decreases to - i,
    {
        r.push(v[i]);
        i += 1;
        assert(r@ =~= v@.subrange(from as int, i as int));
    }
    r
}

// ---------------------------------------------------------------------------
// Conversions between `str`, `String` and `Vec<char>`
// ---------------------------------------------------------------------------

/// The characters of `s`, in order.
pub fn chars_of(s: &str) -> (r: Vec<char>)
    ensures
        r@ == s@,
{
    let mut r: Vec<char> = Vec::new();
    for c in it: s.chars()
        invariant
            r@ == it.seq().take(it.index() as int),
            it.seq() == s@,
    {
        r.push(c);
    }
    r
}

/// `String::push`.
#[verifier::external_body]
fn push_char(s: &mut String, c: char)
    ensures
        final(s)@ == old(s)@.push(c),
{
    s.push(c);
}

/// The string made of the characters `v[from..to]`.
pub fn string_of_range(v: &Vec<char>, from: usize, to: usize) -> (r: String)
    requires
        from <= to <= v.len(),
    ensures
        r@ == v@.subrange(from as int, to as int),
{
    let mut r = String::new();
    let mut i = from;
    while i < to
        invariant
            from <= i <= to <= v.len(),
            r@ == v@.subrange(from as int, i as int),
        decreases to - i,
    {
        push_char(&mut r, v[i]);
        i += 1;
        assert(r@ == v@.subrange(from as int, i as int));
    }
    r
}

/// The string made of all the characters of `v`.
pub fn string_of(v: &Vec<char>) -> (r: String)
    ensures
        r@ == v@,
{
    let r = string_of_range(v, 0, v.len());
    assert(v@.subrange(0, v@.len() as int) =~= v@);
    r
}

/// A copy of a list of strings.
pub fn clone_strings(v: &Vec<String>) -> (r: Vec<String>)
    ensures
        r.deep_view() == v.deep_view(),
{
    let mut r: Vec<String> = Vec::new();
    let mut i: usize = 0;
    while i < v.len()
        invariant
            i <= v.len(),
            r.deep_view() == v.deep_view().take(i as int),
        decreases v.len() - i,
    {
        let ghost old_r = r.deep_view();
        let c = v[i].clone();
        assert(c@ == v.deep_view()[i as int]);
        r.push(c);
        assert(r.deep_view() =~= old_r.push(c@));
        i += 1;
        assert(r.deep_view() =~= v.deep_view().take(i as int));
    }
    assert(v.deep_view().take(v.len() as int) =~= v.deep_view());
    r
}

// ---------------------------------------------------------------------------
// Trimming
// ---------------------------------------------------------------------------

pub open spec fn trim_start(s: Seq<char>) -> Seq<char>
    decreases s.len(),
{
    if s.len() > 0 && is_ws(s[0]) {
        trim_start(s.drop_first())
    } else {
        s
    }
}

pub open spec fn trim_end(s: Seq<char>) -> Seq<char>
    decreases s.len(),
{
    if s.len() > 0 && is_ws(s.last()) {
        trim_end(s.drop_last())
    } else {
        s
    }
}

/// `str::trim`: the text without its leading and trailing whitespace.
pub open spec fn trim(s: Seq<char>) -> Seq<char> {
    trim_end(trim_start(s))
}

/// Strips every leading `c` (`str::trim_start_matches` with a char).
pub open spec fn strip_start(s: Seq<char>, c: char) -> Seq<char>
    decreases s.len(),
{
    if s.len() > 0 && s[0] == c {
        strip_start(s.drop_first(), c)
    } else {
        s
    }
}

/// Strips every trailing `c` (`str::trim_end_matches` with a char).
pub open spec fn strip_end(s: Seq<char>, c: char) -> Seq<char>
    decreases s.len(),
{
    if s.len() > 0 && s.last() == c {
        strip_end(s.drop_last(), c)
    } else {
        s
    }
}

/// `str::trim_matches` with a char.
pub open spec fn strip_both(s: Seq<char>, c: char) -> Seq<char> {
    strip_end(strip_start(s, c), c)
}

/// The bounds of `trim(v[from..to])` within `v`.
pub fn trim_range(v: &Vec<char>, from: usize, to: usize) -> (r: (usize, usize))
    requires
        from <= to <= v.len(),
    ensures
        from <= r.0 <= r.1 <= to,
        v@.subrange(r.0 as int, r.1 as int) == trim(v@.subrange(from as int, to as int)),
{
    let mut a = from;
    while a < to && is_whitespace(v[a])
        invariant
            from <= a <= to <= v.len(),
            trim_start(v@.subrange(from as int, to as int)) == trim_start(
                v@.subrange(a as int, to as int),
            ),
        decreases to - a,
    {
        assert(v@.subrange(a as int, to as int).drop_first() =~= v@.subrange(a + 1, to as int));
        a += 1;
    }
    let mut b = to;
    while b > a && is_whitespace(v[b - 1])
        invariant
            from <= a <= b <= to <= v.len(),
            trim_end(v@.subrange(a as int, to as int)) == trim_end(
                v@.subrange(a as int, b as int),
            ),
        decreases b - a,
    {
        assert(v@.subrange(a as int, b as int).drop_last() =~= v@.subrange(a as int, b - 1));
        b -= 1;
    }
    (a, b)
}

/// The bounds of `strip_both(v[from..to], c)` within `v`.
pub fn strip_range(v: &Vec<char>, from: usize, to: usize, c: char) -> (r: (usize, usize))
    requires
        from <= to <= v.len(),
    ensures
        from <= r.0 <= r.1 <= to,
        v@.subrange(r.0 as int, r.1 as int) == strip_both(v@.subrange(from as int, to as int), c),
{
    let mut a = from;
    while a < to && v[a] == c
        invariant
            from <= a <= to <= v.len(),
            strip_start(v@.subrange(from as int, to as int), c) == strip_start(
                v@.subrange(a as int, to as int),
                c,
            ),
        decreases to - a,
    {
        assert(v@.subrange(a as int, to as int).drop_first() =~= v@.subrange(a + 1, to as int));
        a += 1;
    }
    let mut b = to;
    while b > a && v[b - 1] == c
        invariant
            from <= a <= b <= to <= v.len(),
            strip_end(v@.subrange(a as int, to as int), c) == strip_end(
                v@.subrange(a as int, b as int),
                c,
            ),
        decreases b - a,
    {
        assert(v@.subrange(a as int, b as int).drop_last() =~= v@.subrange(a as int, b - 1));
        b -= 1;
    }
    (a, b)
}


// ---------------------------------------------------------------------------
// Lines
// ---------------------------------------------------------------------------

/// Drops one trailing `'\r'`.
pub open spec fn strip_cr(l: Seq<char>) -> Seq<char> {
    if l.len() > 0 && l.last() == '\r' {
        l.drop_last()
    } else {
        l
    }
}

/// `str::lines` on the text from position `p`: pieces between `'\n'`s, each
/// piece that a `'\n'` ends losing one trailing `'\r'`; a final piece that
/// no `'\n'` ends is kept as it is unless it is empty.
pub open spec fn lines_from(s: Seq<char>, p: int) -> Seq<Seq<char>>
    decreases s.len() - p,
{
    if p < 0 || p >= s.len() {
        seq![]
    } else {
        let e = line_end(s, p);
        proof {
            lemma_run_end(s, p, not_char_pred('\n'));
        }
        if e < s.len() {
            seq![strip_cr(s.subrange(p, e))] + lines_from(s, e + 1)
        } else {
            seq![s.subrange(p, s.len() as int)]
        }
    }
}

/// `str::lines`.
pub open spec fn lines(s: Seq<char>) -> Seq<Seq<char>> {
    lines_from(s, 0)
}

// ---------------------------------------------------------------------------
// Substring search
// ---------------------------------------------------------------------------

/// `str::contains` with a string pattern: `needle` occurs in `hay`.
pub open spec fn contains_seq(hay: Seq<char>, needle: Seq<char>) -> bool {
    exists|i: int|
        0 <= i <= hay.len() - needle.len() && #[trigger] hay.subrange(i, i + needle.len())
            == needle
}

pub proof fn lemma_contains_self(x: Seq<char>)
    ensures
        contains_seq(x, x),
{
    let z: int = 0;
    assert(x.subrange(z, z + x.len()) =~= x);
}

pub proof fn lemma_contains_concat(x: Seq<char>, y: Seq<char>, z: Seq<char>)
    ensures
        contains_seq(x, z) ==> contains_seq(x + y, z),
        contains_seq(y, z) ==> contains_seq(x + y, z),
{
    if contains_seq(x, z) {
        let i = choose|i: int|
            0 <= i <= x.len() - z.len() && #[trigger] x.subrange(i, i + z.len()) == z;
        assert((x + y).subrange(i, i + z.len()) =~= x.subrange(i, i + z.len()));
    }
    if contains_seq(y, z) {
        let i = choose|i: int|
            0 <= i <= y.len() - z.len() && #[trigger] y.subrange(i, i + z.len()) == z;
        assert((x + y).subrange(x.len() + i, x.len() + i + z.len()) =~= y.subrange(
            i,
            i + z.len(),
        ));
    }
}

pub proof fn lemma_contains_trans(x: Seq<char>, y: Seq<char>, z: Seq<char>)
    requires
        contains_seq(x, y),
        contains_seq(y, z),
    ensures
        contains_seq(x, z),
{
    let i = choose|i: int| 0 <= i <= x.len() - y.len() && #[trigger] x.subrange(i, i + y.len()) == y;
    let j = choose|j: int| 0 <= j <= y.len() - z.len() && #[trigger] y.subrange(j, j + z.len()) == z;
    assert(x.subrange(i + j, i + j + z.len()) =~= y.subrange(j, j + z.len()));
}

pub fn contains_chars(hay: &Vec<char>, needle: &Vec<char>) -> (r: bool)
    ensures
        r == contains_seq(hay@, needle@),
{
    let n = needle.len();
    if n > hay.len() {
        return false;
    }
    let last = hay.len() - n;
    let mut i: usize = 0;
    while i <= last
        invariant
            n == needle.len(),
            last == hay.len() - n,
            forall|k: int| 0 <= k < i ==> #[trigger] hay@.subrange(k, k + n) != needle@,
        decreases last + 1 - i,
    {
        let mut j: usize = 0;
        let mut ok = true;
        while j < n
            invariant
                n == needle.len(),
                i <= last == hay.len() - n,
                j <= n,
                ok == (forall|t: int| 0 <= t < j ==> hay@[i + t] == needle@[t]),
            decreases n - j,
        {
            if hay[i + j] != needle[j] {
                ok = false;
            }
            j += 1;
        }
        if ok {
            assert(hay@.subrange(i as int, i + n) =~= needle@);
            return true;
        }
        assert(hay@.subrange(i as int, i + n) != needle@) by {
            let t = choose|t: int| 0 <= t < n && hay@[i + t] != needle@[t];
            assert(hay@.subrange(i as int, i + n)[t] == hay@[i + t]);
        }
        i += 1;
    }
    false
}

/// `str::contains` with a `&str` pattern.
pub fn str_contains(hay: &str, needle: &str) -> (r: bool)
    ensures
        r == contains_seq(hay@, needle@),
{
    let h = chars_of(hay);
    let n = chars_of(needle);
    contains_chars(&h, &n)
}

// ---------------------------------------------------------------------------
// Words
// ---------------------------------------------------------------------------

/// `str::split_whitespace` on the text from position `p`: the maximal runs
/// of non-whitespace characters.
pub open spec fn words_from(s: Seq<char>, p: int) -> Seq<Seq<char>>
    decreases s.len() - p,
{
    if p < 0 || p > s.len() {
        seq![]
    } else {
        let a = run_end(s, p, ws_pred());
        proof {
            lemma_run_end(s, p, ws_pred());
        }
        if a >= s.len() {
            seq![]
        } else {
            let b = run_end(s, a, non_ws_pred());
            proof {
                lemma_run_end(s, a, non_ws_pred());
            }
            seq![s.subrange(a, b)] + words_from(s, b)
        }
    }
}

/// `str::split_whitespace`.
pub open spec fn words(s: Seq<char>) -> Seq<Seq<char>> {
    words_from(s, 0)
}

/// Every word found from `p` is non-empty and holds no whitespace.
pub proof fn law_words_are_non_whitespace_runs(s: Seq<char>, p: int)
    ensures
        forall|i: int|
            0 <= i < words_from(s, p).len() ==> #[trigger] words_from(s, p)[i].len() > 0
                && forall|k: int|
                0 <= k < words_from(s, p)[i].len() ==> !is_ws(words_from(s, p)[i][k]),
    decreases s.len() - p,
{
    if 0 <= p <= s.len() {
        lemma_run_end(s, p, ws_pred());
        let a = run_end(s, p, ws_pred());
        if a < s.len() {
            lemma_run_end(s, a, non_ws_pred());
            let b = run_end(s, a, non_ws_pred());
            law_words_are_non_whitespace_runs(s, b);
            let ws = words_from(s, p);
            assert(ws == seq![s.subrange(a, b)] + words_from(s, b));
            assert forall|i: int| 0 <= i < ws.len() implies #[trigger] ws[i].len() > 0 && forall|
                k: int,
            | 0 <= k < ws[i].len() ==> !is_ws(ws[i][k]) by {
                if i == 0 {
                    assert(ws[0] == s.subrange(a, b));
                    assert forall|k: int| 0 <= k < ws[0].len() implies !is_ws(ws[0][k]) by {
                        assert(ws[0][k] == s[a + k]);
                        assert(non_ws_pred()(s[a + k]));
                    }
                } else {
                    assert(ws[i] == words_from(s, b)[i - 1]);
                }
            }
        }
    }
}

/// The words of `s`, as separate character vectors.
pub fn split_words(s: &Vec<char>) -> (r: Vec<Vec<char>>)
    ensures
        r.deep_view() == words(s@),
{
    let mut r: Vec<Vec<char>> = Vec::new();
    let mut p: usize = 0;
    loop
        invariant
            p <= s.len(),
            words(s@) == r.deep_view() + words_from(s@, p as int),
        decreases s.len() - p,
    {
        let a = ws_run_end(s, p);
        proof {
            lemma_run_end(s@, p as int, ws_pred());
        }
        if a >= s.len() {
            assert(words_from(s@, p as int) =~= seq![]);
            assert(r.deep_view() + seq![] =~= r.deep_view());
            return r;
        }
        let b = non_ws_run_end(s, a);
        proof {
            lemma_run_end(s@, a as int, non_ws_pred());
        }
        let mut w: Vec<char> = Vec::new();
        let mut k = a;
        while k < b
            invariant
                a <= k <= b <= s.len(),
                w@ == s@.subrange(a as int, k as int),
            decreases b - k,
        {
            w.push(s[k]);
            k += 1;
            assert(w@ =~= s@.subrange(a as int, k as int));
        }
        let ghost old_r = r.deep_view();
        assert(w.deep_view() =~= w@);
        r.push(w);
        assert(r.deep_view() =~= old_r.push(s@.subrange(a as int, b as int)));
        assert(words_from(s@, p as int) == seq![s@.subrange(a as int, b as int)] + words_from(
            s@,
            b as int,
        ));
        assert(old_r + words_from(s@, p as int) =~= r.deep_view() + words_from(s@, b as int));
        p = b;
    }
}

// ---------------------------------------------------------------------------
// Joining
// ---------------------------------------------------------------------------

/// `[T]::join`: the parts with `sep` between neighbours.
pub open spec fn join(parts: Seq<Seq<char>>, sep: Seq<char>) -> Seq<char>
    decreases parts.len(),
{
    if parts.len() == 0 {
        seq![]
    } else if parts.len() == 1 {
        parts[0]
    } else {
        join(parts.drop_last(), sep) + sep + parts.last()
    }
}

/// Every part occurs in the joined text.
pub proof fn law_join_contains_parts(parts: Seq<Seq<char>>, sep: Seq<char>, k: int)
    requires
        0 <= k < parts.len(),
    ensures
        contains_seq(join(parts, sep), parts[k]),
    decreases parts.len(),
{
    if parts.len() == 1 {
        lemma_contains_self(parts[0]);
    } else {
        let init = parts.drop_last();
        let j = join(init, sep);
        if k == parts.len() - 1 {
            lemma_contains_self(parts[k]);
            lemma_contains_concat(j + sep, parts.last(), parts[k]);
        } else {
            law_join_contains_parts(init, sep, k);
            assert(init[k] == parts[k]);
            lemma_contains_concat(j, sep, parts[k]);
            lemma_contains_concat(j + sep, parts.last(), parts[k]);
        }
    }
}

pub fn join_strings(parts: &Vec<String>, sep: &str) -> (r: String)
    ensures
        r@ == join(parts.deep_view(), sep@),
{
    let mut r = String::new();
    let ghost dv = parts.deep_view();
    let mut i: usize = 0;
    while i < parts.len()
        invariant
            i <= parts.len(),
            dv == parts.deep_view(),
            r@ == join(dv.take(i as int), sep@),
        decreases parts.len() - i,
    {
        assert(dv.take(i + 1).drop_last() =~= dv.take(i as int));
        assert(dv.take(i + 1).last() == parts[i as int]@);
        if i == 0 {
            assert(join(dv.take(1), sep@) == dv.take(1)[0]);
            r.append(parts[i].as_str());
            assert(r@ =~= join(dv.take(1), sep@));
        } else {
            r.append(sep);
            r.append(parts[i].as_str());
        }
        i += 1;
    }
    assert(dv.take(parts.len() as int) =~= dv);
    r
}

// ---------------------------------------------------------------------------
// Lexicographic order
// ---------------------------------------------------------------------------

/// The order of `String` (`Ord` compares the UTF-8 bytes, which orders
/// strings as their sequences of code points).
pub open spec fn seq_lt(a: Seq<char>, b: Seq<char>) -> bool
    decreases a.len(),
{
    if a.len() == 0 {
        b.len() > 0
    } else if b.len() == 0 {
        false
    } else if a[0] != b[0] {
        (a[0] as int) < (b[0] as int)
    } else {
        seq_lt(a.drop_first(), b.drop_first())
    }
}

pub proof fn lemma_seq_lt_transitive(a: Seq<char>, b: Seq<char>, c: Seq<char>)
    requires
        seq_lt(a, b),
        seq_lt(b, c),
    ensures
        seq_lt(a, c),
    decreases a.len(),
{
    if a.len() > 0 && b.len() > 0 && c.len() > 0 && a[0] == b[0] && b[0] == c[0] {
        lemma_seq_lt_transitive(a.drop_first(), b.drop_first(), c.drop_first());
    }
}

pub proof fn lemma_seq_lt_total(a: Seq<char>, b: Seq<char>)
    requires
        a != b,
    ensures
        seq_lt(a, b) || seq_lt(b, a),
    decreases a.len(),
{
    if a.len() == 0 {
        assert(b.len() > 0) by {
            if b.len() == 0 {
                assert(a =~= b);
            }
        }
    } else if b.len() == 0 {
    } else if a[0] != b[0] {
    } else {
        assert(a.drop_first() != b.drop_first()) by {
            if a.drop_first() == b.drop_first() {
                assert(a =~= seq![a[0]] + a.drop_first());
                assert(b =~= seq![b[0]] + b.drop_first());
            }
        }
        lemma_seq_lt_total(a.drop_first(), b.drop_first());
    }
}

/// `seq_lt` is the lexicographic order by code point: `a` comes before `b`
/// exactly when `a` is a proper prefix of `b`, or at the first position
/// where they differ `a` holds the smaller code point. Length plays no other
/// part.
pub proof fn law_seq_lt_is_lexicographic(a: Seq<char>, b: Seq<char>)
    ensures
        seq_lt(a, b) <==> (a.len() < b.len() && b.take(a.len() as int) == a) || exists|k: int|
            0 <= k < a.len() && k < b.len() && a.take(k) == b.take(k) && (a[k] as int) < (
            b[k] as int),
    decreases a.len(),
{
    let prefix = a.len() < b.len() && b.take(a.len() as int) == a;
    if a.len() == 0 {
        assert(b.take(0) =~= a);
    } else if b.len() == 0 {
    } else if a[0] != b[0] {
        assert(a.take(0) =~= b.take(0));
        if prefix {
            assert(b.take(a.len() as int)[0] == b[0]);
        }
        assert forall|k: int|
            0 <= k < a.len() && k < b.len() && a.take(k) == b.take(k) && (a[k] as int) < (
            b[k] as int) implies k == 0 by {
            if k > 0 {
                assert(a.take(k)[0] == b.take(k)[0]);
            }
        }
    } else {
        let a1 = a.drop_first();
        let b1 = b.drop_first();
        law_seq_lt_is_lexicographic(a1, b1);
        if a1.len() < b1.len() && b1.take(a1.len() as int) == a1 {
            assert(b.take(a.len() as int) =~= seq![b[0]] + b1.take(a1.len() as int));
            assert(a =~= seq![a[0]] + a1);
        }
        if prefix {
            assert(b1.take(a1.len() as int) =~= b.take(a.len() as int).drop_first());
            assert(a1 =~= a.drop_first());
        }
        if exists|k: int|
            0 <= k < a1.len() && k < b1.len() && a1.take(k) == b1.take(k) && (a1[k] as int) < (
            b1[k] as int) {
            let k = choose|k: int|
                0 <= k < a1.len() && k < b1.len() && a1.take(k) == b1.take(k) && (a1[k] as int)
                    < (b1[k] as int);
            assert(a.take(k + 1) =~= seq![a[0]] + a1.take(k));
            assert(b.take(k + 1) =~= seq![b[0]] + b1.take(k));
            assert(a[k + 1] == a1[k]);
        }
        if exists|k: int|
            0 <= k < a.len() && k < b.len() && a.take(k) == b.take(k) && (a[k] as int) < (
            b[k] as int) {
            let k = choose|k: int|
                0 <= k < a.len() && k < b.len() && a.take(k) == b.take(k) && (a[k] as int) < (
                b[k] as int);
            assert(k > 0);
            assert(a1.take(k - 1) =~= a.take(k).drop_first());
            assert(b1.take(k - 1) =~= b.take(k).drop_first());
            assert(a1[k - 1] == a[k]);
            assert(b1[k - 1] == b[k]);
        }
    }
}

/// A character's code point read as a `u32` is its code point.
pub proof fn lemma_char_as_u32(c: char)
    ensures
        (c as u32) as int == c as int,
{
}

pub fn chars_lt(a: &Vec<char>, b: &Vec<char>) -> (r: bool)
    ensures
        r == seq_lt(a@, b@),
{
    let mut i: usize = 0;
    assert(a@.skip(0) =~= a@);
    assert(b@.skip(0) =~= b@);
    while i < a.len() && i < b.len() && a[i] == b[i]
        invariant
            i <= a.len(),
            i <= b.len(),
            seq_lt(a@, b@) == seq_lt(a@.skip(i as int), b@.skip(i as int)),
        decreases a.len() - i,
    {
        assert(a@.skip(i as int).drop_first() =~= a@.skip(i + 1));
        assert(b@.skip(i as int).drop_first() =~= b@.skip(i + 1));
        i += 1;
    }
    if i == a.len() {
        i < b.len()
    } else if i == b.len() {
        false
    } else {
        assert(a@.skip(i as int)[0] == a@[i as int]);
        assert(b@.skip(i as int)[0] == b@[i as int]);
        proof {
            lemma_char_as_u32(a@[i as int]);
            lemma_char_as_u32(b@[i as int]);
        }
        (a[i] as u32) < (b[i] as u32)
    }
}

// ---------------------------------------------------------------------------
// Lower-casing and replacement
// ---------------------------------------------------------------------------

/// What `str::to_lowercase` returns for the text `s` (Unicode lower-casing).
pub uninterp spec fn spec_to_lowercase(s: Seq<char>) -> Seq<char>;

/// `str::to_lowercase`: the result is the Unicode lower-case form of `s`,
/// a function of `s` alone; its tables are not restated here.
#[verifier::external_body]
pub(crate) fn to_lowercase(s: &str) -> (r: String)
    ensures
        r@ == spec_to_lowercase(s@),
{
    s.to_lowercase()
}

/// Every `from` replaced by `to` (`str::replace` with one-char patterns).
pub open spec fn replace_char(s: Seq<char>, from: char, to: char) -> Seq<char> {
    s.map_values(|c: char| if c == from { to } else { c })
}

pub fn replace_char_in(s: &str, from: char, to: char) -> (r: String)
    ensures
        r@ == replace_char(s@, from, to),
{
    let v = chars_of(s);
    let mut w: Vec<char> = Vec::new();
    let mut i: usize = 0;
    while i < v.len()
        invariant
            i <= v.len(),
            w@ == replace_char(v@.take(i as int), from, to),
        decreases v.len() - i,
    {
        let c = if v[i] == from {
            to
        } else {
            v[i]
        };
        w.push(c);
        i += 1;
        assert(w@ =~= replace_char(v@.take(i as int), from, to));
    }
    assert(v@.take(v.len() as int) =~= v@);
    string_of(&w)
}

} // verus!
