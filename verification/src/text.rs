//! Verified primitives on character sequences: pattern search, substring
//! replacement and whitespace trimming, the building blocks of diagnostic
//! normalization.

use vstd::prelude::*;

verus! {

/// The Unicode `White_Space` characters, the set trimmed from line ends.
pub open spec fn is_ws(c: char) -> bool {
    c == ' ' || c == '\t' || c == '\n' || c == '\r' || c == '\u{b}' || c == '\u{c}'
        || c == '\u{85}' || c == '\u{a0}' || c == '\u{1680}' || ('\u{2000}' <= c && c
        <= '\u{200a}') || c == '\u{2028}' || c == '\u{2029}' || c == '\u{202f}' || c == '\u{205f}'
        || c == '\u{3000}'
}

/// Executable test for the `White_Space` set described by `is_ws`.
pub fn is_whitespace(c: char) -> (r: bool)
    ensures
        r == is_ws(c),
{
    c == ' ' || c == '\t' || c == '\n' || c == '\r' || c == '\u{b}' || c == '\u{c}'
        || c == '\u{85}' || c == '\u{a0}' || c == '\u{1680}' || ('\u{2000}' <= c && c
        <= '\u{200a}') || c == '\u{2028}' || c == '\u{2029}' || c == '\u{202f}' || c == '\u{205f}'
        || c == '\u{3000}'
}

/// `pat` occurs in `s` starting at position `i`.
pub open spec fn matches_at(s: Seq<char>, pat: Seq<char>, i: int) -> bool {
    0 <= i && i + pat.len() <= s.len() && (forall|k: int|
        0 <= k < pat.len() ==> s[i + k] == pat[k])
}

/// `s` begins with `pat`.
pub open spec fn starts_with(s: Seq<char>, pat: Seq<char>) -> bool {
    matches_at(s, pat, 0)
}

/// Occurrences in a suffix correspond to shifted occurrences in the whole.
pub proof fn lemma_matches_at_skip(s: Seq<char>, pat: Seq<char>, d: int, j: int)
    requires
        0 <= d <= s.len(),
        0 <= j,
    ensures
        matches_at(s.skip(d), pat, j) == matches_at(s, pat, d + j),
{
    let t = s.skip(d);
    if matches_at(t, pat, j) {
        assert forall|k: int| 0 <= k < pat.len() implies s[d + j + k] == pat[k] by {
            assert(t[j + k] == pat[k]);
            assert(t[j + k] == s[d + j + k]);
        }
    }
    if matches_at(s, pat, d + j) && j + pat.len() <= t.len() {
        assert forall|k: int| 0 <= k < pat.len() implies t[j + k] == pat[k] by {
            assert(s[d + j + k] == pat[k]);
            assert(t[j + k] == s[d + j + k]);
        }
    }
}

/// Executable occurrence test at one position.
pub fn is_match_at(s: &Vec<char>, pat: &Vec<char>, i: usize) -> (r: bool)
    requires
        i <= s@.len(),
    ensures
        r == matches_at(s@, pat@, i as int),
{
    if s.len() - i < pat.len() {
        return false;
    }
    let mut k: usize = 0;
    while k < pat.len()
        invariant
            0 <= k <= pat@.len(),
            i + pat@.len() <= s@.len() <= usize::MAX,
            forall|j: int| 0 <= j < k ==> s@[i + j] == pat@[j],
        decreases pat@.len() - k,
    {
        if s[i + k] != pat[k] {
            return false;
        }
        k += 1;
    }
    true
}

/// Executable prefix test.
pub fn begins_with(s: &Vec<char>, pat: &Vec<char>) -> (r: bool)
    ensures
        r == starts_with(s@, pat@),
{
    is_match_at(s, pat, 0)
}

/// Index of the first occurrence of the character `c` in `s`.
pub open spec fn find_char_at(s: Seq<char>, c: char) -> Option<int>
    decreases s.len(),
{
    if s.len() == 0 {
        None
    } else if s[0] == c {
        Some(0)
    } else {
        match find_char_at(s.skip(1), c) {
            None => None,
            Some(i) => Some(i + 1),
        }
    }
}

/// What `find_char_at` returns: the least index holding `c`, if any.
pub proof fn lemma_find_char_at(s: Seq<char>, c: char)
    ensures
        match find_char_at(s, c) {
            Some(i) => 0 <= i < s.len() && s[i] == c && (forall|j: int|
                0 <= j < i ==> s[j] != c),
            None => forall|j: int| 0 <= j < s.len() ==> s[j] != c,
        },
    decreases s.len(),
{
    if s.len() > 0 && s[0] != c {
        lemma_find_char_at(s.skip(1), c);
        match find_char_at(s.skip(1), c) {
            None => {
                assert forall|j: int| 0 <= j < s.len() implies s[j] != c by {
                    if j > 0 {
                        assert(s.skip(1)[j - 1] != c);
                        assert(s.skip(1)[j - 1] == s[j]);
                    }
                }
            },
            Some(i) => {
                assert(s.skip(1)[i] == s[i + 1]);
                assert forall|j: int| 0 <= j < i + 1 implies s[j] != c by {
                    if j > 0 {
                        assert(s.skip(1)[j - 1] != c);
                        assert(s.skip(1)[j - 1] == s[j]);
                    }
                }
            },
        }
    }
}

/// Executable search for the first occurrence of a character.
#[verifier::loop_isolation(false)]
pub fn find_char(s: &Vec<char>, c: char) -> (r: Option<usize>)
    ensures
        match r {
            Some(i) => find_char_at(s@, c) == Some(i as int),
            None => find_char_at(s@, c) is None,
        },
{
    proof {
        lemma_find_char_at(s@, c);
    }
    let mut i: usize = 0;
    while i < s.len()
        invariant
            0 <= i <= s@.len(),
            forall|j: int| 0 <= j < i ==> s@[j] != c,
        decreases s@.len() - i,
    {
        if s[i] == c {
            return Some(i);
        }
        i += 1;
    }
    None
}

/// Index of the last path separator (`/` or `\`) in `s`.
pub open spec fn rfind_sep_at(s: Seq<char>) -> Option<int>
    decreases s.len(),
{
    if s.len() == 0 {
        None
    } else if s[s.len() - 1] == '/' || s[s.len() - 1] == '\\' {
        Some(s.len() - 1)
    } else {
        rfind_sep_at(s.drop_last())
    }
}

/// What `rfind_sep_at` returns: the greatest index holding a separator.
pub proof fn lemma_rfind_sep_at(s: Seq<char>)
    ensures
        match rfind_sep_at(s) {
            Some(i) => 0 <= i < s.len() && (s[i] == '/' || s[i] == '\\') && (forall|j: int|
                i < j < s.len() ==> s[j] != '/' && s[j] != '\\'),
            None => forall|j: int| 0 <= j < s.len() ==> s[j] != '/' && s[j] != '\\',
        },
    decreases s.len(),
{
    if s.len() > 0 && !(s[s.len() - 1] == '/' || s[s.len() - 1] == '\\') {
        lemma_rfind_sep_at(s.drop_last());
        assert(forall|j: int| 0 <= j < s.len() - 1 ==> s.drop_last()[j] == s[j]);
    }
}

/// Executable search for the last path separator.
#[verifier::loop_isolation(false)]
pub fn rfind_sep(s: &Vec<char>) -> (r: Option<usize>)
    ensures
        match r {
            Some(i) => rfind_sep_at(s@) == Some(i as int),
            None => rfind_sep_at(s@) is None,
        },
{
    proof {
        lemma_rfind_sep_at(s@);
    }
    let mut i: usize = s.len();
    while i > 0
        invariant
            0 <= i <= s@.len(),
            forall|j: int| i <= j < s@.len() ==> s@[j] != '/' && s@[j] != '\\',
        decreases i,
    {
        i -= 1;
        if s[i] == '/' || s[i] == '\\' {
            return Some(i);
        }
    }
    None
}

/// Index of the first occurrence of the substring `pat` in `s`.
pub open spec fn find_sub_at(s: Seq<char>, pat: Seq<char>) -> Option<int>
    decreases s.len(),
{
    if matches_at(s, pat, 0) {
        Some(0)
    } else if s.len() == 0 {
        None
    } else {
        match find_sub_at(s.skip(1), pat) {
            None => None,
            Some(i) => Some(i + 1),
        }
    }
}

/// What `find_sub_at` returns: the least index where `pat` occurs, if any.
pub proof fn lemma_find_sub_at(s: Seq<char>, pat: Seq<char>)
    ensures
        match find_sub_at(s, pat) {
            Some(i) => matches_at(s, pat, i) && (forall|j: int|
                0 <= j < i ==> !matches_at(s, pat, j)),
            None => forall|j: int| 0 <= j < s.len() ==> !matches_at(s, pat, j),
        },
    decreases s.len(),
{
    if !matches_at(s, pat, 0) && s.len() > 0 {
        lemma_find_sub_at(s.skip(1), pat);
        assert forall|j: int| 0 <= j implies matches_at(s.skip(1), pat, j) == matches_at(
            s,
            pat,
            j + 1,
        ) by {
            lemma_matches_at_skip(s, pat, 1, j);
        }
        match find_sub_at(s.skip(1), pat) {
            None => {
                assert forall|j: int| 0 <= j < s.len() implies !matches_at(s, pat, j) by {
                    if j > 0 {
                        assert(!matches_at(s.skip(1), pat, j - 1));
                    }
                }
            },
            Some(i) => {
                assert(matches_at(s.skip(1), pat, i));
                assert forall|j: int| 0 <= j < i + 1 implies !matches_at(s, pat, j) by {
                    if j > 0 {
                        assert(!matches_at(s.skip(1), pat, j - 1));
                    }
                }
            },
        }
    }
}

/// Executable search for the first occurrence of a substring.
#[verifier::loop_isolation(false)]
pub fn find_sub(s: &Vec<char>, pat: &Vec<char>) -> (r: Option<usize>)
    ensures
        match r {
            Some(i) => find_sub_at(s@, pat@) == Some(i as int),
            None => find_sub_at(s@, pat@) is None,
        },
{
    proof {
        lemma_find_sub_at(s@, pat@);
    }
    let mut i: usize = 0;
    loop
        invariant
            0 <= i <= s@.len(),
            forall|j: int| 0 <= j < i ==> !matches_at(s@, pat@, j),
        decreases s@.len() + 1 - i,
    {
        if is_match_at(s, pat, i) {
            return Some(i);
        }
        if i == s.len() {
            return None;
        }
        i += 1;
    }
}

/// `s` with every occurrence of `from` replaced by `to`, scanning left to
/// right without overlap; an empty `from` leaves `s` unchanged.
pub open spec fn replace_all(s: Seq<char>, from: Seq<char>, to: Seq<char>) -> Seq<char>
    decreases s.len(),
{
    if from.len() == 0 || s.len() < from.len() {
        s
    } else if matches_at(s, from, 0) {
        to + replace_all(s.skip(from.len() as int), from, to)
    } else {
        seq![s[0]] + replace_all(s.skip(1), from, to)
    }
}

/// If `from` never occurs in `s`, replacement leaves `s` unchanged.
pub proof fn lemma_replace_all_absent(s: Seq<char>, from: Seq<char>, to: Seq<char>)
    requires
        forall|j: int| 0 <= j < s.len() ==> !matches_at(s, from, j),
    ensures
        replace_all(s, from, to) == s,
    decreases s.len(),
{
    if from.len() == 0 || s.len() < from.len() {
    } else {
        assert(!matches_at(s, from, 0));
        assert forall|j: int| 0 <= j < s.skip(1).len() implies !matches_at(s.skip(1), from, j) by {
            lemma_matches_at_skip(s, from, 1, j);
        }
        lemma_replace_all_absent(s.skip(1), from, to);
        assert(seq![s[0]] + s.skip(1) =~= s);
    }
}

/// One scanning step of `replace_all`, phrased at offset `i` into `s`.
pub proof fn lemma_replace_step(s: Seq<char>, from: Seq<char>, to: Seq<char>, i: int, hit: bool)
    requires
        from.len() > 0,
        0 <= i < s.len(),
        hit == matches_at(s, from, i),
    ensures
        hit ==> replace_all(s.skip(i), from, to) == to + replace_all(
            s.skip(i + from.len()),
            from,
            to,
        ),
        !hit ==> replace_all(s.skip(i), from, to) == seq![s[i]] + replace_all(
            s.skip(i + 1),
            from,
            to,
        ),
{
    let t = s.skip(i);
    lemma_matches_at_skip(s, from, i, 0);
    if hit {
        assert(matches_at(t, from, 0));
        assert(t.skip(from.len() as int) =~= s.skip(i + from.len()));
    } else {
        assert(!matches_at(t, from, 0));
        if t.len() >= from.len() {
            assert(t.skip(1) =~= s.skip(i + 1));
            assert(t[0] == s[i]);
            assert(seq![t[0]] + replace_all(t.skip(1), from, to) =~= seq![s[i]] + replace_all(
                s.skip(i + 1),
                from,
                to,
            ));
        } else {
            assert(replace_all(t, from, to) == t);
            assert(s.skip(i + 1).len() < from.len());
            assert(replace_all(s.skip(i + 1), from, to) == s.skip(i + 1));
            assert(t =~= seq![s[i]] + s.skip(i + 1));
        }
    }
}

/// Append a copy of `b` to `a`.
pub fn extend_chars(a: &mut Vec<char>, b: &Vec<char>)
    ensures
        final(a)@ == old(a)@ + b@,
{
    let mut i: usize = 0;
    while i < b.len()
        invariant
            0 <= i <= b@.len(),
            a@ == old(a)@ + b@.take(i as int),
        decreases b@.len() - i,
    {
        proof {
            assert(old(a)@ + b@.take(i + 1) =~= (old(a)@ + b@.take(i as int)).push(b@[i as int]));
        }
        a.push(b[i]);
        i += 1;
    }
    proof {
        assert(old(a)@ + b@.take(b@.len() as int) =~= old(a)@ + b@);
    }
}

/// Executable left-to-right substring replacement.
#[verifier::loop_isolation(false)]
pub fn replace_chars(s: &Vec<char>, from: &Vec<char>, to: &Vec<char>) -> (r: Vec<char>)
    ensures
        r@ == replace_all(s@, from@, to@),
{
    let mut out: Vec<char> = Vec::new();
    if from.len() == 0 {
        extend_chars(&mut out, s);
        return out;
    }
    proof {
        assert(s@.skip(0) =~= s@);
    }
    let mut i: usize = 0;
    while i < s.len()
        invariant
            0 <= i <= s@.len(),
            replace_all(s@, from@, to@) == out@ + replace_all(s@.skip(i as int), from@, to@),
        decreases s@.len() - i,
    {
        if is_match_at(s, from, i) {
            proof {
                lemma_replace_step(s@, from@, to@, i as int, true);
            }
            extend_chars(&mut out, to);
            i += from.len();
        } else {
            proof {
                lemma_replace_step(s@, from@, to@, i as int, false);
                assert(out@ + (seq![s@[i as int]] + replace_all(s@.skip(i + 1), from@, to@))
                    =~= out@.push(s@[i as int]) + replace_all(s@.skip(i + 1), from@, to@));
            }
            out.push(s[i]);
            i += 1;
        }
    }
    proof {
        assert(s@.skip(s@.len() as int).len() == 0);
        assert(replace_all(s@.skip(s@.len() as int), from@, to@) == s@.skip(s@.len() as int));
        assert(out@ + s@.skip(s@.len() as int) =~= out@);
    }
    out
}

/// Length of `s` once trailing whitespace is removed.
pub open spec fn trim_end_len(s: Seq<char>) -> int
    decreases s.len(),
{
    if s.len() == 0 {
        0
    } else if is_ws(s[s.len() - 1]) {
        trim_end_len(s.drop_last())
    } else {
        s.len() as int
    }
}

/// `s` without its trailing whitespace.
pub open spec fn trim_end(s: Seq<char>) -> Seq<char> {
    s.take(trim_end_len(s))
}

/// Bounds and characterization of `trim_end_len`: everything past it is
/// whitespace, and the last kept character is not.
pub proof fn lemma_trim_end_len(s: Seq<char>)
    ensures
        0 <= trim_end_len(s) <= s.len(),
        forall|j: int| trim_end_len(s) <= j < s.len() ==> is_ws(s[j]),
        trim_end_len(s) > 0 ==> !is_ws(s[trim_end_len(s) - 1]),
    decreases s.len(),
{
    if s.len() > 0 && is_ws(s[s.len() - 1]) {
        lemma_trim_end_len(s.drop_last());
        assert(forall|j: int| 0 <= j < s.len() - 1 ==> s.drop_last()[j] == s[j]);
    }
}

/// The characterization of `lemma_trim_end_len` pins the trim point.
pub proof fn lemma_trim_end_unique(s: Seq<char>, n: int)
    requires
        0 <= n <= s.len(),
        forall|j: int| n <= j < s.len() ==> is_ws(s[j]),
        n > 0 ==> !is_ws(s[n - 1]),
    ensures
        trim_end_len(s) == n,
{
    lemma_trim_end_len(s);
    if trim_end_len(s) < n {
        assert(is_ws(s[n - 1]));
    }
    if trim_end_len(s) > n {
        assert(is_ws(s[trim_end_len(s) - 1]));
    }
}

/// Executable trailing-whitespace trim.
#[verifier::loop_isolation(false)]
pub fn trim_end_chars(s: &Vec<char>) -> (r: Vec<char>)
    ensures
        r@ == trim_end(s@),
{
    proof {
        lemma_trim_end_len(s@);
    }
    let mut n: usize = s.len();
    let mut done: bool = false;
    while !done && n > 0
        invariant
            0 <= n <= s@.len(),
            forall|j: int| n <= j < s@.len() ==> is_ws(s@[j]),
            done ==> trim_end_len(s@) == n,
        decreases n + (if done { 0int } else { 1int }),
    {
        if !is_whitespace(s[n - 1]) {
            proof {
                lemma_trim_end_unique(s@, n as int);
            }
            done = true;
        } else {
            n -= 1;
        }
    }
    proof {
        if !done {
            lemma_trim_end_unique(s@, 0);
        }
    }
    let mut out: Vec<char> = Vec::new();
    let mut i: usize = 0;
    while i < n
        invariant
            0 <= i <= n,
            out@ == s@.take(n as int).take(i as int),
        decreases n - i,
    {
        proof {
            assert(s@.take(n as int).take(i + 1) =~= s@.take(n as int).take(i as int).push(
                s@[i as int],
            ));
        }
        out.push(s[i]);
        i += 1;
    }
    proof {
        assert(s@.take(n as int).take(n as int) =~= s@.take(n as int));
    }
    out
}

/// Copy of the range `[from, to)` of `s`.
#[verifier::loop_isolation(false)]
pub fn subvec(s: &Vec<char>, from: usize, to: usize) -> (r: Vec<char>)
    requires
        0 <= from <= to <= s@.len(),
    ensures
        r@ == s@.subrange(from as int, to as int),
{
    let mut out: Vec<char> = Vec::new();
    let mut i: usize = from;
    while i < to
        invariant
            from <= i <= to,
            out@ == s@.subrange(from as int, i as int),
        decreases to - i,
    {
        proof {
            assert(s@.subrange(from as int, i + 1) =~= s@.subrange(from as int, i as int).push(
                s@[i as int],
            ));
        }
        out.push(s[i]);
        i += 1;
    }
    out
}

/// Turn a string slice into its character sequence.
#[verifier::loop_isolation(false)]
pub fn str_to_chars(s: &str) -> (r: Vec<char>)
    ensures
        r@ == s@,
{
    let n = s.unicode_len();
    let mut out: Vec<char> = Vec::new();
    let mut i: usize = 0;
    while i < n
        invariant
            0 <= i <= n,
            n == s@.len(),
            out@ == s@.take(i as int),
        decreases n - i,
    {
        proof {
            assert(s@.take(i + 1) =~= s@.take(i as int).push(s@[i as int]));
        }
        out.push(s.get_char(i));
        i += 1;
    }
    proof {
        assert(s@.take(s@.len() as int) =~= s@);
    }
    out
}

/// Equality of two character vectors.
pub fn chars_eq(a: &Vec<char>, b: &Vec<char>) -> (r: bool)
    ensures
        r == (a@ == b@),
{
    if a.len() != b.len() {
        proof {
            assert(a@.len() != b@.len());
        }
        return false;
    }
    let mut i: usize = 0;
    while i < a.len()
        invariant
            0 <= i <= a@.len(),
            a@.len() == b@.len(),
            forall|j: int| 0 <= j < i ==> a@[j] == b@[j],
        decreases a@.len() - i,
    {
        if a[i] != b[i] {
            return false;
        }
        i += 1;
    }
    proof {
        assert(a@ =~= b@);
    }
    true
}


/// Number of leading whitespace characters of `s`.
pub open spec fn trim_start_len(s: Seq<char>) -> int
    decreases s.len(),
{
    if s.len() == 0 {
        0
    } else if is_ws(s[0]) {
        1 + trim_start_len(s.skip(1))
    } else {
        0
    }
}

/// The characterization that pins `trim_start_len`.
pub proof fn lemma_trim_start_unique(s: Seq<char>, n: int)
    requires
        0 <= n <= s.len(),
        forall|j: int| 0 <= j < n ==> is_ws(s[j]),
        n < s.len() ==> !is_ws(s[n]),
    ensures
        trim_start_len(s) == n,
    decreases s.len(),
{
    if s.len() == 0 {
    } else if is_ws(s[0]) {
        assert(n > 0);
        assert forall|j: int| 0 <= j < n - 1 implies is_ws(s.skip(1)[j]) by {
            assert(s.skip(1)[j] == s[j + 1]);
            assert(is_ws(s[j + 1]));
        }
        if n - 1 < s.len() - 1 {
            assert(s.skip(1)[n - 1] == s[n]);
        }
        lemma_trim_start_unique(s.skip(1), n - 1);
    } else {
        if n > 0 {
            assert(is_ws(s[0]));
        }
    }
}

/// Executable scan for the first non-whitespace position.
#[verifier::loop_isolation(false)]
pub fn first_non_ws(s: &Vec<char>) -> (r: usize)
    ensures
        r as int == trim_start_len(s@),
        r <= s@.len(),
{
    let mut i: usize = 0;
    loop
        invariant
            0 <= i <= s@.len(),
            forall|j: int| 0 <= j < i ==> is_ws(s@[j]),
        decreases s@.len() - i,
    {
        if i == s.len() {
            proof {
                lemma_trim_start_unique(s@, i as int);
            }
            return i;
        }
        if !is_whitespace(s[i]) {
            proof {
                lemma_trim_start_unique(s@, i as int);
            }
            return i;
        }
        i += 1;
    }
}

/// Copy of a character vector.
pub fn clone_chars(s: &Vec<char>) -> (r: Vec<char>)
    ensures
        r@ == s@,
{
    let r = subvec(s, 0, s.len());
    proof {
        assert(s@.subrange(0, s@.len() as int) =~= s@);
    }
    r
}

} // verus!
