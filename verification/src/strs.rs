//! Verified text utilities shared by the notation reader, the notation
//! writer and the parser: searching, splitting and trimming over the
//! character sequences that `String` and `&str` denote.

use vstd::prelude::*;

verus! {

/// The whitespace characters that the notation treats as blank: the space,
/// the tab and the two line-end characters alone; no other Unicode
/// whitespace counts.
pub open spec fn is_ws(c: char) -> bool {
    c == ' ' || c == '\t' || c == '\n' || c == '\r'
}

/// Index of the first occurrence of `c` in `s`, or `s.len()` if absent.
pub open spec fn find_ch(s: Seq<char>, c: char) -> int
    decreases s.len(),
{
    if s.len() == 0 {
        0
    } else if s[0] == c {
        0
    } else {
        1 + find_ch(s.drop_first(), c)
    }
}

pub proof fn lemma_find_ch(s: Seq<char>, c: char)
    ensures
        0 <= find_ch(s, c) <= s.len(),
        find_ch(s, c) < s.len() ==> s[find_ch(s, c)] == c,
        forall|j: int| 0 <= j < find_ch(s, c) ==> s[j] != c,
    decreases s.len(),
{
    if s.len() > 0 && s[0] != c {
        lemma_find_ch(s.drop_first(), c);
        assert forall|j: int| 0 <= j < find_ch(s, c) implies s[j] != c by {
            if j > 0 {
                assert(s.drop_first()[j - 1] == s[j]);
            }
        }
    }
}

/// `s` split on every occurrence of `c`; an absent separator yields one piece.
pub open spec fn spec_split(s: Seq<char>, c: char) -> Seq<Seq<char>>
    decreases s.len(),
{
    proof {
        lemma_find_ch(s, c);
    }
    let i = find_ch(s, c);
    if i >= s.len() {
        seq![s]
    } else {
        seq![s.take(i)] + spec_split(s.skip(i + 1), c)
    }
}

pub proof fn lemma_split_len(s: Seq<char>, c: char)
    ensures
        spec_split(s, c).len() >= 1,
    decreases s.len(),
{
    lemma_find_ch(s, c);
    let i = find_ch(s, c);
    if i < s.len() {
        lemma_split_len(s.skip(i + 1), c);
    }
}

/// The view of each string in a vector.
pub open spec fn views(v: Seq<String>) -> Seq<Seq<char>> {
    v.map_values(|x: String| x@)
}

/// Exec search for the first occurrence of a character.
pub fn find_char(s: &str, c: char) -> (i: usize)
    ensures
        i as int == find_ch(s@, c),
{
    let n = s.unicode_len();
    for i in 0..n
        invariant
            n == s@.len(),
            forall|j: int| 0 <= j < i ==> s@[j] != c,
    {
        if s.get_char(i) == c {
            proof {
                lemma_find_ch(s@, c);
            }
            return i;
        }
    }
    proof {
        lemma_find_ch(s@, c);
    }
    n
}

/// Exec split on a character.
pub fn split_char(s: &str, c: char) -> (r: Vec<String>)
    ensures
        views(r@) == spec_split(s@, c),
    decreases s@.len(),
{
    proof { lemma_find_ch(s@, c); }
    let n = s.unicode_len();
    let i = find_char(s, c);
    if i == n {
        let mut r: Vec<String> = Vec::new();
        r.push(String::from_str(s));
        proof {
            assert(views(r@) =~= seq![s@]);
        }
        r
    } else {
        let head = s.substring_char(0, i);
        let tail = s.substring_char(i + 1, n);
        let mut r = split_char(tail, c);
        r.insert(0, String::from_str(head));
        proof {
            assert(head@ =~= s@.take(i as int));
            assert(tail@ =~= s@.skip(i as int + 1));
            assert(views(r@) =~= seq![s@.take(i as int)] + spec_split(s@.skip(i as int + 1), c));
        }
        r
    }
}

/// Leading whitespace removed.
pub open spec fn spec_trim_start(s: Seq<char>) -> Seq<char>
    decreases s.len(),
{
    if s.len() > 0 && is_ws(s[0]) {
        spec_trim_start(s.drop_first())
    } else {
        s
    }
}

/// Trailing whitespace removed.
pub open spec fn spec_trim_end(s: Seq<char>) -> Seq<char>
    decreases s.len(),
{
    if s.len() > 0 && is_ws(s[s.len() - 1]) {
        spec_trim_end(s.drop_last())
    } else {
        s
    }
}

/// Whitespace removed from both ends.
pub open spec fn spec_trim(s: Seq<char>) -> Seq<char> {
    spec_trim_end(spec_trim_start(s))
}

proof fn lemma_trim_start_range(s: Seq<char>, i: int)
    requires
        0 <= i <= s.len(),
        forall|j: int| 0 <= j < i ==> is_ws(s[j]),
        i < s.len() ==> !is_ws(s[i]),
    ensures
        spec_trim_start(s) == s.skip(i),
    decreases s.len(),
{
    if s.len() > 0 && is_ws(s[0]) {
        assert(i > 0);
        lemma_trim_start_range(s.drop_first(), i - 1);
        assert(s.drop_first().skip(i - 1) =~= s.skip(i));
    } else {
        assert(i == 0);
        assert(s.skip(0) =~= s);
    }
}

proof fn lemma_trim_end_range(s: Seq<char>, i: int)
    requires
        0 <= i <= s.len(),
        forall|j: int| i <= j < s.len() ==> is_ws(s[j]),
        i > 0 ==> !is_ws(s[i - 1]),
    ensures
        spec_trim_end(s) == s.take(i),
    decreases s.len(),
{
    if s.len() > 0 && is_ws(s[s.len() - 1]) {
        assert(i < s.len());
        lemma_trim_end_range(s.drop_last(), i);
        assert(s.drop_last().take(i) =~= s.take(i));
    } else {
        assert(i == s.len());
        assert(s.take(i) =~= s);
    }
}

/// Exec whitespace test.
pub fn ws_char(c: char) -> (r: bool)
    ensures
        r == is_ws(c),
{
    c == ' ' || c == '\t' || c == '\n' || c == '\r'
}

/// Exec trim of both ends.
pub fn trim(s: &str) -> (r: String)
    ensures
        r@ == spec_trim(s@),
{
    let n = s.unicode_len();
    let mut lo: usize = 0;
    while lo < n && ws_char(s.get_char(lo))
        invariant
            n == s@.len(),
            0 <= lo <= n,
            forall|j: int| 0 <= j < lo ==> is_ws(s@[j]),
        decreases n - lo,
    {
        lo += 1;
    }
    proof { lemma_trim_start_range(s@, lo as int); }
    let mut hi: usize = n;
    while hi > lo && ws_char(s.get_char(hi - 1))
        invariant
            n == s@.len(),
            lo <= hi <= n,
            forall|j: int| hi <= j < n ==> is_ws(s@[j]),
        decreases hi,
    {
        hi -= 1;
    }
    let r = s.substring_char(lo, hi);
    proof {
        let t = s@.skip(lo as int);
        assert forall|j: int| (hi - lo) <= j < t.len() implies is_ws(t[j]) by {
            assert(t[j] == s@[j + lo]);
        }
        if hi > lo {
            assert(t[hi - lo - 1] == s@[hi - 1]);
        }
        lemma_trim_end_range(t, hi - lo);
        assert(r@ =~= t.take(hi - lo));
    }
    String::from_str(r)
}

/// Does `p` begin `s`?
pub open spec fn spec_starts_with(s: Seq<char>, p: Seq<char>) -> bool {
    p.len() <= s.len() && s.take(p.len() as int) == p
}

/// Exec character-wise equality of two string slices.
pub fn str_eq(a: &str, b: &str) -> (r: bool)
    ensures
        r == (a@ == b@),
{
    let na = a.unicode_len();
    let nb = b.unicode_len();
    if na != nb {
        proof {
            assert(a@ != b@);
        }
        return false;
    }
    for i in 0..na
        invariant
            na == a@.len(),
            na == b@.len(),
            forall|j: int| 0 <= j < i ==> a@[j] == b@[j],
    {
        if a.get_char(i) != b.get_char(i) {
            proof {
                assert(a@[i as int] != b@[i as int]);
            }
            return false;
        }
    }
    proof {
        assert(a@ =~= b@);
    }
    true
}

/// Exec test whether `s` begins with `p`.
pub fn starts_with(s: &str, p: &str) -> (r: bool)
    ensures
        r == spec_starts_with(s@, p@),
{
    let n = s.unicode_len();
    let m = p.unicode_len();
    if m > n {
        return false;
    }
    let head = s.substring_char(0, m);
    let r = str_eq(head, p);
    proof {
        assert(head@ =~= s@.take(p@.len() as int));
    }
    r
}

/// Does `pat` occur in `s` at position `i`?
pub open spec fn occurs_at(s: Seq<char>, pat: Seq<char>, i: int) -> bool {
    0 <= i && i + pat.len() <= s.len() && s.subrange(i, i + pat.len()) == pat
}

/// Index of the first occurrence of `pat` in `s`, or `-1` if absent.
pub open spec fn find_sub(s: Seq<char>, pat: Seq<char>) -> int
    decreases s.len(),
{
    if occurs_at(s, pat, 0) {
        0
    } else if s.len() == 0 {
        -1
    } else {
        let r = find_sub(s.drop_first(), pat);
        if r < 0 {
            -1
        } else {
            1 + r
        }
    }
}

pub proof fn lemma_find_sub(s: Seq<char>, pat: Seq<char>)
    ensures
        -1 <= find_sub(s, pat) <= s.len(),
        find_sub(s, pat) >= 0 ==> occurs_at(s, pat, find_sub(s, pat)),
        forall|j: int|
            0 <= j && (find_sub(s, pat) == -1 || j < find_sub(s, pat)) ==> !occurs_at(s, pat, j),
    decreases s.len(),
{
    if !occurs_at(s, pat, 0) && s.len() > 0 {
        lemma_find_sub(s.drop_first(), pat);
        let t = s.drop_first();
        assert forall|j: int|
            1 <= j && (find_sub(s, pat) == -1 || j < find_sub(s, pat)) implies !occurs_at(
            s,
            pat,
            j,
        ) by {
            if occurs_at(s, pat, j) {
                assert(t.subrange(j - 1, j - 1 + pat.len() as int) =~= s.subrange(
                    j,
                    j + pat.len(),
                ));
                assert(occurs_at(t, pat, j - 1));
            }
        }
        if find_sub(s, pat) >= 0 {
            let r = find_sub(t, pat);
            assert(t.subrange(r, r + pat.len() as int) =~= s.subrange(
                r + 1,
                r + 1 + pat.len(),
            ));
        }
    }
}

/// Exec search for the first occurrence of `pat`, `None` if absent.
pub fn find_str(s: &str, pat: &str) -> (r: Option<usize>)
    ensures
        match r {
            Some(i) => i as int == find_sub(s@, pat@),
            None => find_sub(s@, pat@) == -1,
        },
{
    let n = s.unicode_len();
    let m = pat.unicode_len();
    proof {
        lemma_find_sub(s@, pat@);
    }
    if m > n {
        return None;
    }
    if m == 0 {
        proof {
            assert(s@.subrange(0, 0) =~= pat@);
            assert(occurs_at(s@, pat@, 0));
        }
        return Some(0);
    }
    let mut i: usize = 0;
    while i <= n - m
        invariant
            n == s@.len(),
            m == pat@.len(),
            0 < m <= n,
            0 <= i <= n - m + 1,
            forall|j: int| 0 <= j < i ==> !occurs_at(s@, pat@, j),
        decreases n - i,
    {
        let w = s.substring_char(i, i + m);
        if str_eq(w, pat) {
            proof {
                lemma_find_sub(s@, pat@);
                assert(w@ =~= s@.subrange(i as int, i as int + m as int));
                assert(occurs_at(s@, pat@, i as int));
            }
            return Some(i);
        }
        proof {
            assert(w@ =~= s@.subrange(i as int, i as int + m as int));
        }
        i += 1;
    }
    proof {
        lemma_find_sub(s@, pat@);
        assert forall|j: int| 0 <= j implies !occurs_at(s@, pat@, j) by {
            if occurs_at(s@, pat@, j) {
                assert(j < i);
            }
        }
    }
    None
}

/// Does `pat` occur anywhere in `s`?
pub open spec fn spec_contains(s: Seq<char>, pat: Seq<char>) -> bool {
    find_sub(s, pat) >= 0
}

/// Exec substring containment.
pub fn contains_str(s: &str, pat: &str) -> (r: bool)
    ensures
        r == spec_contains(s@, pat@),
{
    match find_str(s, pat) {
        Some(_) => true,
        None => false,
    }
}

/// `s` split around the first occurrence of `pat`: `None` when `pat` is absent.
pub open spec fn spec_split_once(s: Seq<char>, pat: Seq<char>) -> Option<(Seq<char>, Seq<char>)> {
    let i = find_sub(s, pat);
    if i < 0 {
        None
    } else {
        Some((s.take(i), s.skip(i + pat.len())))
    }
}

/// Exec split around the first occurrence of `pat`.
pub fn split_once_str(s: &str, pat: &str) -> (r: Option<(String, String)>)
    ensures
        match r {
            Some(p) => spec_split_once(s@, pat@) == Some((p.0@, p.1@)),
            None => spec_split_once(s@, pat@) is None,
        },
{
    let n = s.unicode_len();
    let m = pat.unicode_len();
    match find_str(s, pat) {
        Some(i) => {
            proof {
                lemma_find_sub(s@, pat@);
            }
            let left = s.substring_char(0, i);
            let right = s.substring_char(i + m, n);
            proof {
                assert(left@ =~= s@.take(i as int));
                assert(right@ =~= s@.skip(i as int + m as int));
            }
            Some((String::from_str(left), String::from_str(right)))
        },
        None => None,
    }
}

/// `s` split on every occurrence of `pat` (assumed non-empty).
pub open spec fn spec_split_str(s: Seq<char>, pat: Seq<char>) -> Seq<Seq<char>>
    recommends
        pat.len() > 0,
    decreases s.len(),
{
    proof {
        lemma_find_sub(s, pat);
    }
    let i = find_sub(s, pat);
    if i < 0 || pat.len() == 0 {
        seq![s]
    } else {
        seq![s.take(i)] + spec_split_str(s.skip(i + pat.len()), pat)
    }
}

/// Exec split on every occurrence of `pat`.
pub fn split_str(s: &str, pat: &str) -> (r: Vec<String>)
    requires
        pat@.len() > 0,
    ensures
        views(r@) == spec_split_str(s@, pat@),
    decreases s@.len(),
{
    let n = s.unicode_len();
    let m = pat.unicode_len();
    match find_str(s, pat) {
        Some(i) => {
            proof {
                lemma_find_sub(s@, pat@);
            }
            let head = s.substring_char(0, i);
            let tail = s.substring_char(i + m, n);
            let mut r = split_str(tail, pat);
            r.insert(0, String::from_str(head));
            proof {
                assert(head@ =~= s@.take(i as int));
                assert(tail@ =~= s@.skip(i as int + m as int));
                assert(views(r@) =~= seq![s@.take(i as int)] + spec_split_str(
                    s@.skip(i as int + m as int),
                    pat@,
                ));
            }
            r
        },
        None => {
            let mut r: Vec<String> = Vec::new();
            r.push(String::from_str(s));
            proof {
                assert(views(r@) =~= seq![s@]);
            }
            r
        },
    }
}

/// Index of the last occurrence of `c` in `s`, or `-1` if absent.
pub open spec fn rfind_ch(s: Seq<char>, c: char) -> int
    decreases s.len(),
{
    if s.len() == 0 {
        -1
    } else if s[s.len() - 1] == c {
        s.len() - 1
    } else {
        rfind_ch(s.drop_last(), c)
    }
}

pub proof fn lemma_rfind_ch(s: Seq<char>, c: char)
    ensures
        -1 <= rfind_ch(s, c) < s.len(),
        rfind_ch(s, c) >= 0 ==> s[rfind_ch(s, c)] == c,
        forall|j: int| rfind_ch(s, c) < j < s.len() ==> s[j] != c,
    decreases s.len(),
{
    if s.len() > 0 && s[s.len() - 1] != c {
        lemma_rfind_ch(s.drop_last(), c);
        assert forall|j: int| rfind_ch(s, c) < j < s.len() implies s[j] != c by {
            if j < s.len() - 1 {
                assert(s.drop_last()[j] == s[j]);
            }
        }
    }
}

/// Exec search for the last occurrence of a character.
pub fn rfind_char(s: &str, c: char) -> (r: Option<usize>)
    ensures
        match r {
            Some(i) => i as int == rfind_ch(s@, c),
            None => rfind_ch(s@, c) == -1,
        },
{
    let n = s.unicode_len();
    let mut i: usize = n;
    while i > 0
        invariant
            n == s@.len(),
            0 <= i <= n,
            forall|j: int| i <= j < n ==> s@[j] != c,
        decreases i,
    {
        i -= 1;
        if s.get_char(i) == c {
            proof {
                lemma_rfind_ch(s@, c);
            }
            return Some(i);
        }
    }
    proof {
        lemma_rfind_ch(s@, c);
    }
    None
}

/// All leading occurrences of `c` removed.
pub open spec fn spec_strip_start(s: Seq<char>, c: char) -> Seq<char>
    decreases s.len(),
{
    if s.len() > 0 && s[0] == c {
        spec_strip_start(s.drop_first(), c)
    } else {
        s
    }
}

/// All trailing occurrences of `c` removed.
pub open spec fn spec_strip_end(s: Seq<char>, c: char) -> Seq<char>
    decreases s.len(),
{
    if s.len() > 0 && s[s.len() - 1] == c {
        spec_strip_end(s.drop_last(), c)
    } else {
        s
    }
}

/// All occurrences of `c` removed from both ends.
pub open spec fn spec_strip(s: Seq<char>, c: char) -> Seq<char> {
    spec_strip_end(spec_strip_start(s, c), c)
}

proof fn lemma_strip_start_range(s: Seq<char>, c: char, i: int)
    requires
        0 <= i <= s.len(),
        forall|j: int| 0 <= j < i ==> s[j] == c,
        i < s.len() ==> s[i] != c,
    ensures
        spec_strip_start(s, c) == s.skip(i),
    decreases s.len(),
{
    if s.len() > 0 && s[0] == c {
        assert(i > 0);
        lemma_strip_start_range(s.drop_first(), c, i - 1);
        assert(s.drop_first().skip(i - 1) =~= s.skip(i));
    } else {
        assert(i == 0);
        assert(s.skip(0) =~= s);
    }
}

proof fn lemma_strip_end_range(s: Seq<char>, c: char, i: int)
    requires
        0 <= i <= s.len(),
        forall|j: int| i <= j < s.len() ==> s[j] == c,
        i > 0 ==> s[i - 1] != c,
    ensures
        spec_strip_end(s, c) == s.take(i),
    decreases s.len(),
{
    if s.len() > 0 && s[s.len() - 1] == c {
        assert(i < s.len());
        lemma_strip_end_range(s.drop_last(), c, i);
        assert(s.drop_last().take(i) =~= s.take(i));
    } else {
        assert(i == s.len());
        assert(s.take(i) =~= s);
    }
}

/// Exec strip of a character from the end alone, as `str::trim_end_matches`
/// does.
pub fn strip_end_chars(s: &str, c: char) -> (r: String)
    ensures
        r@ == spec_strip_end(s@, c),
{
    let n = s.unicode_len();
    let mut hi: usize = n;
    while hi > 0 && s.get_char(hi - 1) == c
        invariant
            n == s@.len(),
            0 <= hi <= n,
            forall|j: int| hi <= j < n ==> s@[j] == c,
        decreases hi,
    {
        hi -= 1;
    }
    let r = s.substring_char(0, hi);
    proof {
        lemma_strip_end_range(s@, c, hi as int);
        assert(r@ =~= s@.take(hi as int));
    }
    String::from_str(r)
}

/// Exec strip of a character from both ends, as `str::trim_matches` does.
pub fn strip_all(s: &str, c: char) -> (r: String)
    ensures
        r@ == spec_strip(s@, c),
{
    let n = s.unicode_len();
    let mut lo: usize = 0;
    while lo < n && s.get_char(lo) == c
        invariant
            n == s@.len(),
            0 <= lo <= n,
            forall|j: int| 0 <= j < lo ==> s@[j] == c,
        decreases n - lo,
    {
        lo += 1;
    }
    proof {
        lemma_strip_start_range(s@, c, lo as int);
    }
    let mut hi: usize = n;
    while hi > lo && s.get_char(hi - 1) == c
        invariant
            n == s@.len(),
            lo <= hi <= n,
            forall|j: int| hi <= j < n ==> s@[j] == c,
        decreases hi,
    {
        hi -= 1;
    }
    let r = s.substring_char(lo, hi);
    proof {
        let t = s@.skip(lo as int);
        assert forall|j: int| (hi - lo) <= j < t.len() implies t[j] == c by {
            assert(t[j] == s@[j + lo]);
        }
        if hi > lo {
            assert(t[hi - lo - 1] == s@[hi - 1]);
        }
        lemma_strip_end_range(t, c, hi - lo);
        assert(r@ =~= t.take(hi - lo));
    }
    String::from_str(r)
}

/// Maximal whitespace-free words of `s`, in order, all non-empty.
pub open spec fn spec_words(s: Seq<char>) -> Seq<Seq<char>>
    decreases s.len(),
{
    proof {
        lemma_find_ws(s);
    }
    if s.len() == 0 {
        Seq::empty()
    } else if is_ws(s[0]) {
        spec_words(s.drop_first())
    } else {
        let i = find_ws(s);
        seq![s.take(i)] + spec_words(s.skip(i))
    }
}

/// Index of the first whitespace character, or `s.len()` if none.
pub open spec fn find_ws(s: Seq<char>) -> int
    decreases s.len(),
{
    if s.len() == 0 {
        0
    } else if is_ws(s[0]) {
        0
    } else {
        1 + find_ws(s.drop_first())
    }
}

pub proof fn lemma_find_ws(s: Seq<char>)
    ensures
        0 <= find_ws(s) <= s.len(),
        find_ws(s) < s.len() ==> is_ws(s[find_ws(s)]),
        forall|j: int| 0 <= j < find_ws(s) ==> !is_ws(s[j]),
    decreases s.len(),
{
    if s.len() > 0 && !is_ws(s[0]) {
        lemma_find_ws(s.drop_first());
        assert forall|j: int| 0 <= j < find_ws(s) implies !is_ws(s[j]) by {
            if j > 0 {
                assert(s.drop_first()[j - 1] == s[j]);
            }
        }
    }
}

/// Exec splitting into whitespace-separated words.
pub fn words(s: &str) -> (r: Vec<String>)
    ensures
        views(r@) == spec_words(s@),
    decreases s@.len(),
{
    let n = s.unicode_len();
    if n == 0 {
        let r: Vec<String> = Vec::new();
        proof {
            assert(views(r@) =~= spec_words(s@));
        }
        return r;
    }
    if ws_char(s.get_char(0)) {
        let tail = s.substring_char(1, n);
        let r = words(tail);
        proof {
            assert(tail@ =~= s@.drop_first());
        }
        return r;
    }
    proof {
        lemma_find_ws(s@);
    }
    let mut i: usize = 0;
    while i < n && !ws_char(s.get_char(i))
        invariant
            n == s@.len(),
            0 <= i <= n,
            forall|j: int| 0 <= j < i ==> !is_ws(s@[j]),
        decreases n - i,
    {
        i += 1;
    }
    proof {
        lemma_find_ws(s@);
        assert(i as int == find_ws(s@));
    }
    let head = s.substring_char(0, i);
    let tail = s.substring_char(i, n);
    let mut r = words(tail);
    r.insert(0, String::from_str(head));
    proof {
        assert(head@ =~= s@.take(i as int));
        assert(tail@ =~= s@.skip(i as int));
        assert(views(r@) =~= seq![s@.take(i as int)] + spec_words(s@.skip(i as int)));
    }
    r
}

/// The pieces joined with `sep` between consecutive pieces.
pub open spec fn spec_join(parts: Seq<Seq<char>>, sep: Seq<char>) -> Seq<char>
    decreases parts.len(),
{
    if parts.len() == 0 {
        Seq::empty()
    } else if parts.len() == 1 {
        parts[0]
    } else {
        parts[0] + sep + spec_join(parts.drop_first(), sep)
    }
}

pub proof fn lemma_join_push(parts: Seq<Seq<char>>, sep: Seq<char>, x: Seq<char>)
    ensures
        spec_join(parts.push(x), sep) == if parts.len() == 0 {
            x
        } else {
            spec_join(parts, sep) + sep + x
        },
    decreases parts.len(),
{
    if parts.len() == 0 {
        assert(parts.push(x)[0] == x);
        assert(spec_join(parts.push(x), sep) == x);
    } else {
        lemma_join_push(parts.drop_first(), sep, x);
        assert(parts.push(x).drop_first() =~= parts.drop_first().push(x));
        if parts.len() == 1 {
            assert(spec_join(parts.push(x), sep) =~= parts[0] + sep + x);
            assert(spec_join(parts, sep) == parts[0]);
        } else {
            assert(spec_join(parts.push(x), sep) =~= spec_join(parts, sep) + sep + x);
        }
    }
}

/// Exec join of string pieces with a separator.
pub fn join(parts: &Vec<String>, sep: &str) -> (r: String)
    ensures
        r@ == spec_join(views(parts@), sep@),
{
    let mut out = String::new();
    let n = parts.len();
    for i in 0..n
        invariant
            n == parts@.len(),
            out@ == spec_join(views(parts@).take(i as int), sep@),
    {
        if i > 0 {
            out.append(sep);
        }
        out.append(parts[i].as_str());
        proof {
            lemma_join_push(views(parts@).take(i as int), sep@, parts@[i as int]@);
            assert(views(parts@).take(i as int).push(parts@[i as int]@) =~= views(
                parts@,
            ).take(i as int + 1));
        }
    }
    proof {
        assert(views(parts@).take(n as int) =~= views(parts@));
    }
    out
}

/// `n` copies of `c`.
pub open spec fn spec_repeat(c: char, n: nat) -> Seq<char> {
    Seq::new(n, |i: int| c)
}

/// Exec repetition of one character.
pub fn repeat_char(c: char, n: usize) -> (r: String)
    ensures
        r@ == spec_repeat(c, n as nat),
{
    let mut out = String::new();
    for i in 0..n
        invariant
            out@ == spec_repeat(c, i as nat),
    {
        push_char(&mut out, c);
        proof {
            assert(spec_repeat(c, i as nat).push(c) =~= spec_repeat(c, i as nat + 1));
        }
    }
    out
}

/// Lexicographic order on character sequences, by character code.
pub open spec fn lex_le(a: Seq<char>, b: Seq<char>) -> bool
    decreases a.len(),
{
    if a.len() == 0 {
        true
    } else if b.len() == 0 {
        false
    } else if a[0] != b[0] {
        a[0] < b[0]
    } else {
        lex_le(a.drop_first(), b.drop_first())
    }
}

/// Exec lexicographic comparison.
pub fn lex_le_str(a: &str, b: &str) -> (r: bool)
    ensures
        r == lex_le(a@, b@),
    decreases a@.len(),
{
    let na = a.unicode_len();
    let nb = b.unicode_len();
    if na == 0 {
        true
    } else if nb == 0 {
        false
    } else {
        let ca = a.get_char(0);
        let cb = b.get_char(0);
        if ca != cb {
            ca < cb
        } else {
            let r = lex_le_str(a.substring_char(1, na), b.substring_char(1, nb));
            proof {
                assert(a@.subrange(1, na as int) =~= a@.drop_first());
                assert(b@.subrange(1, nb as int) =~= b@.drop_first());
            }
            r
        }
    }
}

/// Relies on std's `String::push`: appends one character at the end.
#[verifier::external_body]
pub fn push_char(s: &mut String, c: char)
    ensures
        final(s)@ == old(s)@.push(c),
{
    s.push(c)
}

} // verus!
