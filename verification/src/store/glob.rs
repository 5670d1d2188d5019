//! Redis-style glob matching: `*`, `?` and `[abc]` classes.

use vstd::prelude::*;
use vstd::string::StringSliceAdditionalSpecFns;

verus! {

/// The first `]` at or after `from`.
pub open spec fn class_end(p: Seq<u8>, from: int) -> Option<int>
    decreases p.len() - from,
{
    if from < 0 || from >= p.len() {
        None
    } else if p[from] == 93 {
        Some(from)
    } else {
        class_end(p, from + 1)
    }
}

/// Whether the pattern bytes from index `i` match the subject bytes from
/// index `j`: `*` matches any run of bytes (the empty one too), `?` any one
/// byte, `[C]` one byte of the class `C` (the bytes up to the first `]`; with
/// no `]` the pattern matches nothing there), and any other byte itself.
pub open spec fn glob_at(p: Seq<u8>, s: Seq<u8>, i: int, j: int) -> bool
    decreases p.len() - i, s.len() - j,
    when 0 <= i <= p.len() && 0 <= j <= s.len()
{
    if i == p.len() {
        j == s.len()
    } else if p[i] == 42 {
        glob_at(p, s, i + 1, j) || (j < s.len() && glob_at(p, s, i, j + 1))
    } else if j == s.len() {
        false
    } else if p[i] == 63 {
        glob_at(p, s, i + 1, j + 1)
    } else if p[i] == 91 {
        match class_end(p, i + 1) {
            None => false,
            Some(c) => {
                proof {
                    lemma_class_end_bounds(p, i + 1);
                }
                p.subrange(i + 1, c).contains(s[j]) && glob_at(p, s, c + 1, j + 1)
            },
        }
    } else {
        p[i] == s[j] && glob_at(p, s, i + 1, j + 1)
    }
}

/// Whether the pattern bytes `p` match the subject bytes `s`.
pub open spec fn glob_spec(p: Seq<u8>, s: Seq<u8>) -> bool {
    glob_at(p, s, 0, 0)
}

pub proof fn lemma_class_end_bounds(p: Seq<u8>, from: int)
    ensures
        class_end(p, from) matches Some(c) ==> from <= c < p.len() && p[c] == 93,
    decreases p.len() - from,
{
    if !(from < 0 || from >= p.len()) && p[from] != 93 {
        lemma_class_end_bounds(p, from + 1);
    }
}

/// No byte of `p` is `*`, `?` or `[`.
pub open spec fn plain(p: Seq<u8>) -> bool {
    forall|k: int| 0 <= k < p.len() ==> #[trigger] p[k] != 42 && p[k] != 63 && p[k] != 91
}

proof fn lemma_plain_at(p: Seq<u8>, s: Seq<u8>, i: int, j: int)
    requires
        plain(p),
        0 <= i <= p.len(),
        0 <= j <= s.len(),
    ensures
        glob_at(p, s, i, j) == (p.skip(i) == s.skip(j)),
    decreases p.len() - i,
{
    if i == p.len() {
        if j < s.len() {
            assert(p.skip(i).len() != s.skip(j).len());
        } else {
            assert(p.skip(i) =~= s.skip(j));
        }
    } else if j == s.len() {
        assert(p[i] != 42);
        assert(p.skip(i).len() != s.skip(j).len());
    } else {
        assert(p[i] != 42 && p[i] != 63 && p[i] != 91);
        lemma_plain_at(p, s, i + 1, j + 1);
        assert(p.skip(i) =~= seq![p[i]] + p.skip(i + 1));
        assert(s.skip(j) =~= seq![s[j]] + s.skip(j + 1));
        if p.skip(i) == s.skip(j) {
            assert(p.skip(i)[0] == s.skip(j)[0]);
            assert(p.skip(i + 1) =~= p.skip(i).drop_first());
            assert(s.skip(j + 1) =~= s.skip(j).drop_first());
        }
    }
}

/// A pattern without `*`, `?` or `[` matches exactly the subject equal to it.
pub proof fn law_plain_pattern_matches_itself(p: Seq<u8>, s: Seq<u8>)
    requires
        plain(p),
    ensures
        glob_spec(p, s) == (p == s),
{
    lemma_plain_at(p, s, 0, 0);
    assert(p.skip(0) =~= p);
    assert(s.skip(0) =~= s);
}

proof fn lemma_star_at(s: Seq<u8>, j: int)
    requires
        0 <= j <= s.len(),
    ensures
        glob_at(seq![42u8], s, 0, j),
    decreases s.len() - j,
{
    let p = seq![42u8];
    assert(p.len() == 1 && p[0] == 42);
    assert(glob_at(p, s, 1, j) == (j == s.len()));
    if j < s.len() {
        lemma_star_at(s, j + 1);
    }
}

/// The pattern `*` matches every subject.
pub proof fn law_star_matches(s: Seq<u8>)
    ensures
        glob_spec(seq![42u8], s),
{
    lemma_star_at(s, 0);
}

proof fn lemma_class_end_shift(p: Seq<u8>, a: int, from: int)
    requires
        0 <= a <= from,
        a <= p.len(),
    ensures
        class_end(p, from) == match class_end(p.skip(a), from - a) {
            Some(c) => Some(c + a),
            None => None::<int>,
        },
    decreases p.len() - from,
{
    if from < p.len() {
        assert(p.skip(a)[from - a] == p[from]);
        if p[from] != 93 {
            lemma_class_end_shift(p, a, from + 1);
        }
    }
}

/// Matching does not depend on the bytes before the positions compared: it is
/// the same on the pattern and subject with leading bytes dropped.
proof fn lemma_glob_shift(p: Seq<u8>, s: Seq<u8>, a: int, b: int, i: int, j: int)
    requires
        0 <= a <= i <= p.len(),
        0 <= b <= j <= s.len(),
    ensures
        glob_at(p, s, i, j) == glob_at(p.skip(a), s.skip(b), i - a, j - b),
    decreases p.len() - i, s.len() - j,
{
    let p2 = p.skip(a);
    let s2 = s.skip(b);
    if i < p.len() {
        assert(p2[i - a] == p[i]);
        if j < s.len() {
            assert(s2[j - b] == s[j]);
        }
        if p[i] == 42 {
            lemma_glob_shift(p, s, a, b, i + 1, j);
            if j < s.len() {
                lemma_glob_shift(p, s, a, b, i, j + 1);
            }
        } else if j < s.len() {
            if p[i] == 91 {
                lemma_class_end_shift(p, a, i + 1);
                lemma_class_end_bounds(p, i + 1);
                if let Some(c) = class_end(p, i + 1) {
                    assert(p.subrange(i + 1, c) =~= p2.subrange(i + 1 - a, c - a));
                    lemma_glob_shift(p, s, a, b, c + 1, j + 1);
                }
            } else {
                lemma_glob_shift(p, s, a, b, i + 1, j + 1);
            }
        }
    }
}

/// `?` matches exactly one byte: a pattern that starts with `?` matches a
/// subject exactly when the subject has a first byte and the rest of the
/// pattern matches the rest of the subject.
pub proof fn law_question_mark_matches_one_byte(p: Seq<u8>, s: Seq<u8>)
    requires
        p.len() > 0,
        p[0] == 63,
    ensures
        glob_spec(p, s) == (s.len() > 0 && glob_spec(p.drop_first(), s.drop_first())),
{
    if s.len() > 0 {
        lemma_glob_shift(p, s, 1, 1, 1, 1);
        assert(p.skip(1) =~= p.drop_first());
        assert(s.skip(1) =~= s.drop_first());
    }
}

/// A pattern of `k` question marks matches exactly the subjects of `k` bytes.
pub proof fn law_question_marks_match_length(k: nat, s: Seq<u8>)
    ensures
        glob_spec(Seq::new(k, |i: int| 63u8), s) == (s.len() == k),
    decreases k,
{
    let p = Seq::new(k, |i: int| 63u8);
    if k > 0 {
        law_question_mark_matches_one_byte(p, s);
        assert(p.drop_first() =~= Seq::new((k - 1) as nat, |i: int| 63u8));
        if s.len() > 0 {
            law_question_marks_match_length((k - 1) as nat, s.drop_first());
        }
    }
}

proof fn lemma_star_at_any(p: Seq<u8>, s: Seq<u8>, j: int)
    requires
        p.len() > 0,
        p[0] == 42,
        0 <= j <= s.len(),
    ensures
        glob_at(p, s, 0, j) == exists|k: int| j <= k <= s.len() && #[trigger] glob_at(p, s, 1, k),
    decreases s.len() - j,
{
    if glob_at(p, s, 1, j) {
        assert(j <= j <= s.len() && glob_at(p, s, 1, j));
    }
    if j < s.len() {
        lemma_star_at_any(p, s, j + 1);
        if glob_at(p, s, 0, j + 1) {
            let k = choose|k: int| j + 1 <= k <= s.len() && #[trigger] glob_at(p, s, 1, k);
            assert(j <= k <= s.len() && glob_at(p, s, 1, k));
        }
        if exists|k: int| j <= k <= s.len() && #[trigger] glob_at(p, s, 1, k) {
            let k = choose|k: int| j <= k <= s.len() && #[trigger] glob_at(p, s, 1, k);
            if k > j {
                assert(j + 1 <= k <= s.len() && glob_at(p, s, 1, k));
            }
        }
    } else {
        if exists|k: int| j <= k <= s.len() && #[trigger] glob_at(p, s, 1, k) {
            let k = choose|k: int| j <= k <= s.len() && #[trigger] glob_at(p, s, 1, k);
            assert(k == j);
        }
    }
}

/// `*` matches any run of bytes: a pattern that starts with `*` matches a
/// subject exactly when the rest of the pattern matches what is left of the
/// subject after some prefix of it (the empty one or the whole included).
pub proof fn law_star_matches_any_run(p: Seq<u8>, s: Seq<u8>)
    requires
        p.len() > 0,
        p[0] == 42,
    ensures
        glob_spec(p, s) == exists|k: int|
            0 <= k <= s.len() && #[trigger] glob_spec(p.drop_first(), s.skip(k)),
{
    lemma_star_at_any(p, s, 0);
    assert(p.skip(1) =~= p.drop_first());
    assert forall|k: int| 0 <= k <= s.len() implies glob_at(p, s, 1, k) == #[trigger] glob_spec(
        p.drop_first(),
        s.skip(k),
    ) by {
        lemma_glob_shift(p, s, 1, k, 1, k);
    }
    if glob_spec(p, s) {
        let k = choose|k: int| 0 <= k <= s.len() && #[trigger] glob_at(p, s, 1, k);
        assert(glob_spec(p.drop_first(), s.skip(k)));
    }
    if exists|k: int| 0 <= k <= s.len() && #[trigger] glob_spec(p.drop_first(), s.skip(k)) {
        let k = choose|k: int| 0 <= k <= s.len() && #[trigger] glob_spec(p.drop_first(), s.skip(k));
        assert(glob_at(p, s, 1, k));
    }
}

proof fn lemma_class_end_first(p: Seq<u8>, from: int, c: int)
    requires
        0 <= from <= c < p.len(),
        p[c] == 93,
        forall|t: int| from <= t < c ==> p[t] != 93,
    ensures
        class_end(p, from) == Some(c),
    decreases c - from,
{
    if from < c {
        lemma_class_end_first(p, from + 1, c);
    }
}

/// `[C]` matches one byte of the class: a pattern that starts with `[`, whose
/// first `]` after it is at `c`, matches a subject exactly when the subject's
/// first byte is one of the bytes between them and the rest of the pattern
/// matches the rest of the subject.
pub proof fn law_class_matches_one_byte_of_it(p: Seq<u8>, s: Seq<u8>, c: int)
    requires
        p.len() > 0,
        p[0] == 91,
        1 <= c < p.len(),
        p[c] == 93,
        forall|t: int| 1 <= t < c ==> p[t] != 93,
    ensures
        glob_spec(p, s) == (s.len() > 0 && p.subrange(1, c).contains(s[0]) && glob_spec(
            p.skip(c + 1),
            s.drop_first(),
        )),
{
    lemma_class_end_first(p, 1, c);
    if s.len() > 0 {
        lemma_glob_shift(p, s, c + 1, 1, c + 1, 1);
        assert(s.skip(1) =~= s.drop_first());
    }
}

/// A `[` with no `]` after it matches nothing at its place: such a pattern
/// matches no subject.
pub proof fn law_unclosed_class_matches_nothing(p: Seq<u8>, s: Seq<u8>)
    requires
        p.len() > 0,
        p[0] == 91,
        forall|t: int| 1 <= t < p.len() ==> p[t] != 93,
    ensures
        !glob_spec(p, s),
{
    assert(class_end(p, 1) is None) by {
        lemma_class_end_bounds(p, 1);
    }
}

/// The first `]` at or after `from`, as an index.
fn find_close(p: &[u8], from: usize) -> (r: Option<usize>)
    requires
        from <= p.len(),
    ensures
        match class_end(p@, from as int) {
            Some(c) => r == Some(c as usize),
            None => r is None,
        },
{
    proof {
        lemma_class_end_bounds(p@, from as int);
    }
    let mut close = from;
    while close < p.len() && p[close] != 93
        invariant
            from <= close <= p.len(),
            class_end(p@, from as int) == class_end(p@, close as int),
        decreases p.len() - close,
    {
        close = close + 1;
    }
    if close == p.len() {
        None
    } else {
        Some(close)
    }
}

/// Whether the byte `b` is one of `p[lo..hi]`.
fn class_has(p: &[u8], lo: usize, hi: usize, b: u8) -> (r: bool)
    requires
        lo <= hi <= p.len(),
    ensures
        r == p@.subrange(lo as int, hi as int).contains(b),
{
    let mut k = lo;
    while k < hi
        invariant
            lo <= k <= hi <= p.len(),
            forall|t: int| lo <= t < k ==> p@[t] != b,
        decreases hi - k,
    {
        if p[k] == b {
            proof {
                assert(p@.subrange(lo as int, hi as int)[k - lo] == b);
            }
            return true;
        }
        k = k + 1;
    }
    proof {
        let class = p@.subrange(lo as int, hi as int);
        assert forall|t: int| 0 <= t < class.len() implies class[t] != b by {
            assert(class[t] == p@[lo + t]);
        }
    }
    false
}

/// Matches the subject bytes `s` against the pattern bytes `p`. The answers
/// for every suffix of the pattern against every suffix of the subject are
/// filled in, from the end of the pattern back to its start.
pub fn glob_helper(p: &[u8], s: &[u8]) -> (r: bool)
    ensures
        r == glob_spec(p@, s@),
{
    let n = p.len();
    let m = s.len();
    // `table[n - i][j]` holds whether `p[i..]` matches `s[j..]`.
    let mut last: Vec<bool> = Vec::new();
    let mut j: usize = 0;
    while j < m
        invariant
            j <= m,
            last.len() == j,
            forall|t: int| 0 <= t < j ==> last@[t] == false,
        decreases m - j,
    {
        last.push(false);
        j = j + 1;
    }
    last.push(true);
    let mut table: Vec<Vec<bool>> = Vec::new();
    table.push(last);
    let mut i: usize = n;
    while i > 0
        invariant
            i <= n == p.len(),
            m == s.len(),
            table.len() == n - i + 1,
            forall|r: int| 0 <= r < table.len() ==> (#[trigger] table@[r]).len() == m + 1,
            forall|r: int, t: int|
                0 <= r < table.len() && 0 <= t <= m ==> (#[trigger] table@[r]@[t]) == glob_at(
                    p@,
                    s@,
                    n - r,
                    t,
                ),
        decreases i,
    {
        i = i - 1;
        let c = p[i];
        let close = if c == 91 {
            find_close(p, i + 1)
        } else {
            None
        };
        proof {
            lemma_class_end_bounds(p@, i + 1);
        }
        let mut cur: Vec<bool> = Vec::new();
        let mut k: usize = 0;
        while k < m
            invariant
                k <= m,
                cur.len() == k,
            decreases m - k,
        {
            cur.push(false);
            k = k + 1;
        }
        proof {
            assert(table@[n - i - 1]@[m as int] == glob_at(p@, s@, i + 1, m as int));
        }
        let at_end = if c == 42 {
            table[n - i - 1][m]
        } else {
            false
        };
        cur.push(at_end);
        let mut j: usize = m;
        while j > 0
            invariant
                i < n == p.len(),
                m == s.len(),
                c == p@[i as int],
                c == 91 ==> match class_end(p@, i + 1) {
                    Some(cl) => close == Some(cl as usize) && i + 1 <= cl < n,
                    None => close is None,
                },
                table.len() == n - i,
                forall|r: int| 0 <= r < table.len() ==> (#[trigger] table@[r]).len() == m + 1,
                forall|r: int, t: int|
                    0 <= r < table.len() && 0 <= t <= m ==> (#[trigger] table@[r]@[t]) == glob_at(
                        p@,
                        s@,
                        n - r,
                        t,
                    ),
                j <= m,
                cur.len() == m + 1,
                forall|t: int| j <= t <= m ==> #[trigger] cur@[t] == glob_at(p@, s@, i as int, t),
            decreases j,
        {
            j = j - 1;
            let next = &table[n - i - 1];
            proof {
                assert(table@[n - i - 1]@[j as int] == glob_at(p@, s@, i + 1, j as int));
            }
            let v = if c == 42 {
                next[j] || cur[j + 1]
            } else if c == 63 {
                proof {
                    assert(table@[n - i - 1]@[j + 1] == glob_at(p@, s@, i + 1, j + 1));
                }
                next[j + 1]
            } else if c == 91 {
                match close {
                    None => false,
                    Some(cl) => {
                        proof {
                            assert(table@[n - cl - 1]@[j + 1] == glob_at(p@, s@, cl + 1, j + 1));
                        }
                        class_has(p, i + 1, cl, s[j]) && table[n - cl - 1][j + 1]
                    },
                }
            } else {
                proof {
                    assert(table@[n - i - 1]@[j + 1] == glob_at(p@, s@, i + 1, j + 1));
                }
                c == s[j] && next[j + 1]
            };
            cur.set(j, v);
        }
        table.push(cur);
    }
    proof {
        assert(table@[n as int]@[0] == glob_at(p@, s@, 0, 0));
    }
    table[n][0]
}

/// Matches `s` against the glob `pattern`, byte by byte.
pub fn glob_match(pattern: &str, s: &str) -> (r: bool)
    ensures
        r == glob_spec(pattern.spec_bytes(), s.spec_bytes()),
{
    glob_helper(pattern.as_bytes(), s.as_bytes())
}

} // verus!
