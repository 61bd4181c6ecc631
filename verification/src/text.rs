//! Searching, splitting and trimming of character sequences.
//!
//! Texts are modelled as `Seq<char>`. Each executable function works on
//! `&str` and states its result over that model.

use vstd::prelude::*;
use vstd::string::*;

verus! {

/// `pat` stands in `s` at position `i`.
pub open spec fn occurs_at(s: Seq<char>, pat: Seq<char>, i: int) -> bool {
    0 <= i && i + pat.len() <= s.len() && s.subrange(i, i + pat.len()) == pat
}

/// The least position at or after `from` where `pat` stands in `s`.
pub open spec fn first_match(s: Seq<char>, pat: Seq<char>, from: int) -> Option<int>
    decreases s.len() + 1 - from,
{
    if from < 0 || from + pat.len() > s.len() {
        None
    } else if occurs_at(s, pat, from) {
        Some(from)
    } else {
        first_match(s, pat, from + 1)
    }
}

/// The pieces of `s` between the occurrences of the separator `pat`, taken
/// from left to right without overlap. A text without the separator is its
/// own single piece, and so is every text where the separator is empty.
pub open spec fn split(s: Seq<char>, pat: Seq<char>) -> Seq<Seq<char>>
    decreases s.len(),
{
    match first_match(s, pat, 0) {
        Some(i) if 0 <= i && 0 < pat.len() && i + pat.len() <= s.len() => seq![s.subrange(0, i)]
            + split(s.subrange(i + pat.len(), s.len() as int), pat),
        _ => seq![s],
    }
}

/// `s` without its leading characters that belong to `set`.
pub open spec fn trim_start(s: Seq<char>, set: Seq<char>) -> Seq<char>
    decreases s.len(),
{
    if s.len() > 0 && set.contains(s[0]) {
        trim_start(s.drop_first(), set)
    } else {
        s
    }
}

/// `s` without its trailing characters that belong to `set`.
pub open spec fn trim_end(s: Seq<char>, set: Seq<char>) -> Seq<char>
    decreases s.len(),
{
    if s.len() > 0 && set.contains(s.last()) {
        trim_end(s.drop_last(), set)
    } else {
        s
    }
}

/// `s` without the characters of `set` at its two ends.
pub open spec fn trimmed(s: Seq<char>, set: Seq<char>) -> Seq<char> {
    trim_end(trim_start(s, set), set)
}

/// The models of a list of owned texts.
pub open spec fn texts(v: Seq<String>) -> Seq<Seq<char>> {
    v.map_values(|t: String| t@)
}

/// What `first_match` finds is a match, and nothing before it is one.
pub proof fn lemma_first_match(s: Seq<char>, pat: Seq<char>, from: int)
    requires
        0 <= from,
    ensures
        match first_match(s, pat, from) {
            Some(i) => from <= i && occurs_at(s, pat, i) && forall|j: int|
                from <= j < i ==> !occurs_at(s, pat, j),
            None => forall|j: int| from <= j ==> !occurs_at(s, pat, j),
        },
    decreases s.len() + 1 - from,
{
    if from + pat.len() <= s.len() && !occurs_at(s, pat, from) {
        lemma_first_match(s, pat, from + 1);
    }
}

/// A match with no match before it is the first match.
pub proof fn lemma_first_match_is(s: Seq<char>, pat: Seq<char>, i: int)
    requires
        occurs_at(s, pat, i),
        forall|j: int| 0 <= j < i ==> !occurs_at(s, pat, j),
    ensures
        first_match(s, pat, 0) == Some(i),
{
    lemma_first_match(s, pat, 0);
}

/// A text in which the separator stands nowhere is a single piece.
pub proof fn lemma_split_whole(s: Seq<char>, pat: Seq<char>)
    requires
        forall|j: int| !occurs_at(s, pat, j),
    ensures
        split(s, pat) == seq![s],
{
    lemma_first_match(s, pat, 0);
}

/// Where the first separator follows `head`, the pieces are `head` and the
/// pieces of what follows the separator.
pub proof fn lemma_split_step(head: Seq<char>, pat: Seq<char>, tail: Seq<char>)
    requires
        pat.len() > 0,
        forall|j: int| 0 <= j < head.len() ==> !occurs_at(head + pat + tail, pat, j),
    ensures
        split(head + pat + tail, pat) == seq![head] + split(tail, pat),
{
    let s = head + pat + tail;
    let i = head.len() as int;
    assert(s.subrange(i, i + pat.len()) =~= pat);
    lemma_first_match_is(s, pat, i);
    assert(s.subrange(0, i) =~= head);
    assert(s.subrange(i + pat.len(), s.len() as int) =~= tail);
}

/// A part of a text in which `pat` stands nowhere holds no `pat` either.
pub proof fn lemma_subrange_keeps_free(s: Seq<char>, pat: Seq<char>, a: int, b: int)
    requires
        0 <= a <= b <= s.len(),
        forall|j: int| !occurs_at(s, pat, j),
    ensures
        forall|j: int| !occurs_at(s.subrange(a, b), pat, j),
{
    let part = s.subrange(a, b);
    assert forall|j: int| !occurs_at(part, pat, j) by {
        if occurs_at(part, pat, j) {
            assert(s.subrange(a + j, a + j + pat.len()) =~= part.subrange(j, j + pat.len()));
            assert(occurs_at(s, pat, a + j));
        }
    }
}

/// The separator stands in none of the pieces that it cuts a text into.
pub proof fn lemma_pieces_are_free(s: Seq<char>, pat: Seq<char>)
    requires
        pat.len() > 0,
    ensures
        forall|k: int, j: int|
            0 <= k < split(s, pat).len() ==> !(#[trigger] occurs_at(split(s, pat)[k], pat, j)),
    decreases s.len(),
{
    lemma_first_match(s, pat, 0);
    if let Some(i) = first_match(s, pat, 0) {
        let head = s.subrange(0, i);
        let tail = s.subrange(i + pat.len(), s.len() as int);
        lemma_pieces_are_free(tail, pat);
        assert forall|k: int, j: int| 0 <= k < split(s, pat).len() implies !(#[trigger] occurs_at(
            split(s, pat)[k],
            pat,
            j,
        )) by {
            if k == 0 {
                if occurs_at(head, pat, j) {
                    assert(s.subrange(j, j + pat.len()) =~= head.subrange(j, j + pat.len()));
                    assert(occurs_at(s, pat, j));
                }
            } else {
                assert(split(s, pat)[k] == split(tail, pat)[k - 1]);
            }
        }
    }
}

/// Where `other` stands nowhere in a text, it stands in none of the pieces
/// that a separator cuts the text into.
pub proof fn lemma_pieces_keep_free(s: Seq<char>, pat: Seq<char>, other: Seq<char>)
    requires
        forall|j: int| !occurs_at(s, other, j),
    ensures
        forall|k: int, j: int|
            0 <= k < split(s, pat).len() ==> !(#[trigger] occurs_at(split(s, pat)[k], other, j)),
    decreases s.len(),
{
    lemma_first_match(s, pat, 0);
    match first_match(s, pat, 0) {
        Some(i) if 0 <= i && 0 < pat.len() && i + pat.len() <= s.len() => {
            let head = s.subrange(0, i);
            let tail = s.subrange(i + pat.len(), s.len() as int);
            lemma_subrange_keeps_free(s, other, 0, i);
            lemma_subrange_keeps_free(s, other, i + pat.len(), s.len() as int);
            lemma_pieces_keep_free(tail, pat, other);
            assert forall|k: int, j: int| 0 <= k < split(s, pat).len() implies !(
            #[trigger] occurs_at(split(s, pat)[k], other, j)) by {
                if k > 0 {
                    assert(split(s, pat)[k] == split(tail, pat)[k - 1]);
                }
            }
        },
        _ => {},
    }
}

/// Trimming at the start brings no `pat` into a text that holds none.
pub proof fn lemma_trim_start_keeps_free(s: Seq<char>, set: Seq<char>, pat: Seq<char>)
    requires
        forall|j: int| !occurs_at(s, pat, j),
    ensures
        forall|j: int| !occurs_at(trim_start(s, set), pat, j),
    decreases s.len(),
{
    if s.len() > 0 && set.contains(s[0]) {
        lemma_subrange_keeps_free(s, pat, 1, s.len() as int);
        lemma_trim_start_keeps_free(s.drop_first(), set, pat);
        assert(trim_start(s, set) == trim_start(s.drop_first(), set));
    } else {
        assert(trim_start(s, set) == s);
    }
}

/// Trimming at the end brings no `pat` into a text that holds none.
pub proof fn lemma_trim_end_keeps_free(s: Seq<char>, set: Seq<char>, pat: Seq<char>)
    requires
        forall|j: int| !occurs_at(s, pat, j),
    ensures
        forall|j: int| !occurs_at(trim_end(s, set), pat, j),
    decreases s.len(),
{
    if s.len() > 0 && set.contains(s.last()) {
        lemma_subrange_keeps_free(s, pat, 0, s.len() - 1);
        lemma_trim_end_keeps_free(s.drop_last(), set, pat);
        assert(trim_end(s, set) == trim_end(s.drop_last(), set));
    } else {
        assert(trim_end(s, set) == s);
    }
}

/// Trimming brings no `pat` into a text that holds none.
pub proof fn lemma_trimmed_keeps_free(s: Seq<char>, set: Seq<char>, pat: Seq<char>)
    requires
        forall|j: int| !occurs_at(s, pat, j),
    ensures
        forall|j: int| !occurs_at(trimmed(s, set), pat, j),
{
    lemma_trim_start_keeps_free(s, set, pat);
    lemma_trim_end_keeps_free(trim_start(s, set), set, pat);
}

/// What trimming at the start leaves does not begin with a character of the
/// set.
pub proof fn lemma_trim_start_first(s: Seq<char>, set: Seq<char>)
    ensures
        trim_start(s, set).len() > 0 ==> !set.contains(trim_start(s, set)[0]),
    decreases s.len(),
{
    if s.len() > 0 && set.contains(s[0]) {
        lemma_trim_start_first(s.drop_first(), set);
    }
}

/// What trimming at the end leaves is the beginning of the text and does not
/// end with a character of the set.
pub proof fn lemma_trim_end_last(s: Seq<char>, set: Seq<char>)
    ensures
        trim_end(s, set).len() <= s.len(),
        trim_end(s, set) == s.take(trim_end(s, set).len() as int),
        trim_end(s, set).len() > 0 ==> !set.contains(trim_end(s, set).last()),
    decreases s.len(),
{
    if s.len() > 0 && set.contains(s.last()) {
        let front = s.drop_last();
        lemma_trim_end_last(front, set);
        assert(front.take(trim_end(front, set).len() as int) =~= s.take(
            trim_end(front, set).len() as int,
        ));
    } else {
        assert(s.take(s.len() as int) =~= s);
    }
}

/// A trimmed text neither begins nor ends with a character of the set.
pub proof fn lemma_trimmed_ends(s: Seq<char>, set: Seq<char>)
    ensures
        trimmed(s, set).len() > 0 ==> !set.contains(trimmed(s, set)[0]) && !set.contains(
            trimmed(s, set).last(),
        ),
{
    lemma_trim_start_first(s, set);
    lemma_trim_end_last(trim_start(s, set), set);
}

/// The two texts hold the same characters.
pub fn same_text(a: &str, b: &str) -> (r: bool)
    ensures
        r == (a@ == b@),
{
    let n: usize = a.unicode_len();
    if b.unicode_len() != n {
        return false;
    }
    let mut i: usize = 0;
    while i < n
        invariant
            n == a@.len(),
            n == b@.len(),
            i <= n,
            forall|j: int| 0 <= j < i ==> a@[j] == b@[j],
        decreases n - i,
    {
        if a.get_char(i) != b.get_char(i) {
            return false;
        }
        i += 1;
    }
    assert(a@ =~= b@);
    true
}

/// Whether `c` is one of the characters of `set`.
pub fn contains_char(set: &str, c: char) -> (r: bool)
    ensures
        r == set@.contains(c),
{
    let n: usize = set.unicode_len();
    let mut i: usize = 0;
    while i < n
        invariant
            n == set@.len(),
            i <= n,
            forall|j: int| 0 <= j < i ==> set@[j] != c,
        decreases n - i,
    {
        if set.get_char(i) == c {
            return true;
        }
        i += 1;
    }
    false
}

/// Whether `pat` stands in `s` at position `i`.
pub fn matches_at(s: &str, pat: &str, i: usize) -> (r: bool)
    ensures
        r == occurs_at(s@, pat@, i as int),
{
    let n: usize = s.unicode_len();
    let m: usize = pat.unicode_len();
    if m > n || i > n - m {
        return false;
    }
    let mut k: usize = 0;
    while k < m
        invariant
            n == s@.len(),
            m == pat@.len(),
            i + m <= n,
            k <= m,
            forall|j: int| 0 <= j < k ==> s@[i + j] == pat@[j],
        decreases m - k,
    {
        if s.get_char(i + k) != pat.get_char(k) {
            assert(s@.subrange(i as int, i + m)[k as int] == s@[i + k]);
            return false;
        }
        k += 1;
    }
    assert(s@.subrange(i as int, i + m) =~= pat@);
    true
}

/// The first position where `pat` stands in `s`, if there is one.
pub fn find(s: &str, pat: &str) -> (r: Option<usize>)
    ensures
        match r {
            Some(i) => first_match(s@, pat@, 0) == Some(i as int) && occurs_at(s@, pat@, i as int)
                && forall|j: int| 0 <= j < i ==> !occurs_at(s@, pat@, j),
            None => first_match(s@, pat@, 0) is None && forall|j: int| !occurs_at(s@, pat@, j),
        },
{
    let n: usize = s.unicode_len();
    let m: usize = pat.unicode_len();
    proof {
        lemma_first_match(s@, pat@, 0);
    }
    if m > n {
        return None;
    }
    let limit: usize = n - m;
    let mut i: usize = 0;
    loop
        invariant
            n == s@.len(),
            m == pat@.len(),
            limit == n - m,
            i <= limit,
            first_match(s@, pat@, 0) == first_match(s@, pat@, i as int),
        decreases limit - i,
    {
        if matches_at(s, pat, i) {
            proof {
                lemma_first_match(s@, pat@, 0);
            }
            return Some(i);
        }
        if i == limit {
            assert(first_match(s@, pat@, i + 1) is None);
            proof {
                lemma_first_match(s@, pat@, 0);
            }
            return None;
        }
        i += 1;
    }
}

/// Cuts `s` at each occurrence of the separator `pat`. An empty separator
/// cuts nowhere.
pub fn split_on(s: &str, pat: &str) -> (parts: Vec<String>)
    ensures
        texts(parts@) == split(s@, pat@),
{
    let m: usize = pat.unicode_len();
    let mut parts: Vec<String> = Vec::new();
    if m == 0 {
        parts.push(s.to_owned());
        assert(texts(parts@) =~= seq![s@]);
        return parts;
    }
    let mut rest: &str = s;
    assert(texts(parts@) + split(rest@, pat@) =~= split(s@, pat@));
    loop
        invariant
            m == pat@.len(),
            m > 0,
            split(s@, pat@) == texts(parts@) + split(rest@, pat@),
        decreases rest@.len(),
    {
        let n: usize = rest.unicode_len();
        let ghost before = parts@;
        match find(rest, pat) {
            None => {
                parts.push(rest.to_owned());
                assert(texts(parts@) =~= texts(before) + seq![rest@]);
                return parts;
            },
            Some(i) => {
                proof {
                    lemma_first_match(rest@, pat@, 0);
                }
                let head: &str = rest.substring_char(0, i);
                let tail: &str = rest.substring_char(i + m, n);
                parts.push(head.to_owned());
                assert(texts(parts@) + split(tail@, pat@) =~= texts(before) + (seq![head@] + split(
                    tail@,
                    pat@,
                )));
                rest = tail;
            },
        }
    }
}

/// Removes the characters of `set` from the two ends of `s`.
pub fn trim<'a>(s: &'a str, set: &str) -> (r: &'a str)
    ensures
        r@ == trimmed(s@, set@),
{
    let n: usize = s.unicode_len();
    let mut a: usize = 0;
    assert(s@.subrange(0, n as int) =~= s@);
    loop
        invariant
            n == s@.len(),
            a <= n,
            trim_start(s@, set@) == trim_start(s@.subrange(a as int, n as int), set@),
        ensures
            a <= n,
            trim_start(s@, set@) == s@.subrange(a as int, n as int),
        decreases n - a,
    {
        if a == n {
            break ;
        }
        if !contains_char(set, s.get_char(a)) {
            break ;
        }
        assert(s@.subrange(a as int, n as int).drop_first() =~= s@.subrange(a + 1, n as int));
        a += 1;
    }
    let mut b: usize = n;
    loop
        invariant
            n == s@.len(),
            a <= b <= n,
            trim_end(s@.subrange(a as int, n as int), set@) == trim_end(
                s@.subrange(a as int, b as int),
                set@,
            ),
        ensures
            a <= b <= n,
            trim_end(s@.subrange(a as int, n as int), set@) == s@.subrange(a as int, b as int),
        decreases b - a,
    {
        if b == a {
            break ;
        }
        if !contains_char(set, s.get_char(b - 1)) {
            break ;
        }
        assert(s@.subrange(a as int, b as int).drop_last() =~= s@.subrange(a as int, b - 1));
        b -= 1;
    }
    s.substring_char(a, b)
}

} // verus!
