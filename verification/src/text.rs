//! Character-level text primitives: whitespace, trimming, searching,
//! splitting and joining, all over `Seq<char>`.
use vstd::prelude::*;

verus! {

/// The Unicode `White_Space` property, which `char::is_whitespace` reports.
pub open spec fn is_ws(c: char) -> bool {
    ||| ('\u{9}' <= c && c <= '\u{d}')
    ||| c == ' '
    ||| c == '\u{85}'
    ||| c == '\u{a0}'
    ||| c == '\u{1680}'
    ||| ('\u{2000}' <= c && c <= '\u{200a}')
    ||| c == '\u{2028}'
    ||| c == '\u{2029}'
    ||| c == '\u{202f}'
    ||| c == '\u{205f}'
    ||| c == '\u{3000}'
}

/// Whether `c` is a whitespace character.
pub fn is_whitespace(c: char) -> (b: bool)
    ensures
        b == is_ws(c),
{
    ('\u{9}' <= c && c <= '\u{d}') || c == ' ' || c == '\u{85}' || c == '\u{a0}' || c == '\u{1680}'
        || ('\u{2000}' <= c && c <= '\u{200a}') || c == '\u{2028}' || c == '\u{2029}' || c
        == '\u{202f}' || c == '\u{205f}' || c == '\u{3000}'
}

/// Appends one character to a string: calls `String::push`, whose contract
/// here says that the string afterwards is the old one with `c` added at
/// its end.
#[verifier::external_body]
fn push_char(s: &mut String, c: char)
    ensures
        final(s)@ == old(s)@.push(c),
{
    s.push(c);
}

/// The characters of a string slice.
pub fn str_chars(s: &str) -> (r: Vec<char>)
    ensures
        r@ == s@,
{
    let mut r: Vec<char> = Vec::new();
    for c in it: s.chars()
        invariant
            r@ == it.seq().take(it.index() as int),
            it.seq() == s@,
    {
        r.push(c);
    }
    r
}

/// A string holding the given characters.
pub fn string_from_chars(cs: &Vec<char>) -> (r: String)
    ensures
        r@ == cs@,
{
    let mut r = String::new();
    let mut i: usize = 0;
    while i < cs.len()
        invariant
            i <= cs.len(),
            r@ == cs@.take(i as int),
        decreases cs.len() - i,
    {
        push_char(&mut r, cs[i]);
        proof {
            assert(cs@.take(i + 1) == cs@.take(i as int).push(cs@[i as int]));
        }
        i += 1;
    }
    proof {
        assert(cs@.take(cs@.len() as int) == cs@);
    }
    r
}


/// `s` without its leading whitespace.
pub open spec fn trim_start(s: Seq<char>) -> Seq<char>
    decreases s.len(),
{
    if s.len() > 0 && is_ws(s[0]) {
        trim_start(s.drop_first())
    } else {
        s
    }
}

/// `s` without its trailing whitespace.
pub open spec fn trim_end(s: Seq<char>) -> Seq<char>
    decreases s.len(),
{
    if s.len() > 0 && is_ws(s.last()) {
        trim_end(s.drop_last())
    } else {
        s
    }
}

/// `s` without leading and trailing whitespace (`str::trim`).
pub open spec fn trim(s: Seq<char>) -> Seq<char> {
    trim_end(trim_start(s))
}

/// Every character of `s` is whitespace.
pub open spec fn all_ws(s: Seq<char>) -> bool {
    forall|i: int| 0 <= i < s.len() ==> is_ws(#[trigger] s[i])
}

/// `s` is empty once trimmed.
pub open spec fn is_blank(s: Seq<char>) -> bool {
    trim(s).len() == 0
}

/// `trim_start` drops exactly the leading whitespace run.
pub proof fn lemma_trim_start(s: Seq<char>, k: int)
    requires
        0 <= k <= s.len(),
        forall|i: int| 0 <= i < k ==> is_ws(#[trigger] s[i]),
        k == s.len() || !is_ws(s[k]),
    ensures
        trim_start(s) == s.skip(k),
    decreases k,
{
    if k == 0 {
        assert(s.skip(0) == s);
    } else {
        let t = s.drop_first();
        assert forall|i: int| 0 <= i < k - 1 implies is_ws(#[trigger] t[i]) by {
            assert(t[i] == s[i + 1]);
        }
        lemma_trim_start(t, k - 1);
        assert(t.skip(k - 1) == s.skip(k));
    }
}

/// `trim_end` drops exactly the trailing whitespace run.
pub proof fn lemma_trim_end(s: Seq<char>, k: int)
    requires
        0 <= k <= s.len(),
        forall|i: int| k <= i < s.len() ==> is_ws(#[trigger] s[i]),
        k == 0 || !is_ws(s[k - 1]),
    ensures
        trim_end(s) == s.take(k),
    decreases s.len() - k,
{
    if k == s.len() {
        assert(s.take(k) == s);
    } else {
        let t = s.drop_last();
        assert forall|i: int| k <= i < t.len() implies is_ws(#[trigger] t[i]) by {
            assert(t[i] == s[i]);
        }
        lemma_trim_end(t, k);
        assert(t.take(k) == s.take(k));
    }
}

/// The trimmed text is the subrange between the first and the last
/// non-whitespace characters.
pub proof fn lemma_trim_subrange(s: Seq<char>, a: int, b: int)
    requires
        0 <= a <= b <= s.len(),
        forall|i: int| 0 <= i < a ==> is_ws(#[trigger] s[i]),
        forall|i: int| b <= i < s.len() ==> is_ws(#[trigger] s[i]),
        a == b ==> b == s.len(),
        a < b ==> !is_ws(s[a]) && !is_ws(s[b - 1]),
    ensures
        trim(s) == s.subrange(a, b),
{
    if a == b {
        lemma_trim_start(s, a);
        assert(s.skip(a).len() == 0);
        assert(trim_end(s.skip(a)) == s.skip(a));
        assert(s.skip(a) == s.subrange(a, b));
    } else {
        lemma_trim_start(s, a);
        let t = s.skip(a);
        assert forall|i: int| b - a <= i < t.len() implies is_ws(#[trigger] t[i]) by {
            assert(t[i] == s[i + a]);
        }
        assert(t[b - a - 1] == s[b - 1]);
        lemma_trim_end(t, b - a);
        assert(t.take(b - a) == s.subrange(a, b));
    }
}

proof fn lemma_trim_start_blank(s: Seq<char>)
    ensures
        trim_start(s).len() == 0 <==> all_ws(s),
        trim_start(s).len() > 0 ==> !is_ws(trim_start(s)[0]),
    decreases s.len(),
{
    if s.len() > 0 && is_ws(s[0]) {
        let t = s.drop_first();
        lemma_trim_start_blank(t);
        if all_ws(t) {
            assert forall|i: int| 0 <= i < s.len() implies is_ws(#[trigger] s[i]) by {
                if i > 0 {
                    assert(s[i] == t[i - 1]);
                }
            }
        }
        if all_ws(s) {
            assert forall|i: int| 0 <= i < t.len() implies is_ws(#[trigger] t[i]) by {
                assert(t[i] == s[i + 1]);
            }
        }
    } else if s.len() > 0 {
        assert(!is_ws(s[0]));
    }
}

proof fn lemma_trim_end_keeps_first(t: Seq<char>)
    requires
        t.len() > 0,
        !is_ws(t[0]),
    ensures
        trim_end(t).len() > 0,
    decreases t.len(),
{
    if is_ws(t.last()) {
        let u = t.drop_last();
        assert(u[0] == t[0]);
        lemma_trim_end_keeps_first(u);
    }
}

proof fn lemma_trim_end_empty(t: Seq<char>)
    requires
        t.len() == 0,
    ensures
        trim_end(t).len() == 0,
{
}

/// A sequence is blank exactly when all its characters are whitespace.
pub proof fn lemma_blank_iff_all_ws(s: Seq<char>)
    ensures
        is_blank(s) <==> all_ws(s),
{
    lemma_trim_start_blank(s);
    let t = trim_start(s);
    if t.len() == 0 {
        lemma_trim_end_empty(t);
    } else {
        lemma_trim_end_keeps_first(t);
    }
}

/// The bounds `(a, b)` of the trimmed part of `s`.
pub fn trim_bounds(s: &Vec<char>) -> (r: (usize, usize))
    ensures
        r.0 <= r.1 <= s@.len(),
        trim(s@) == s@.subrange(r.0 as int, r.1 as int),
        forall|i: int| 0 <= i < r.0 ==> is_ws(#[trigger] s@[i]),
        forall|i: int| r.1 <= i < s@.len() ==> is_ws(#[trigger] s@[i]),
        r.0 == r.1 ==> r.1 == s@.len(),
        r.0 < r.1 ==> !is_ws(s@[r.0 as int]) && !is_ws(s@[r.1 - 1]),
{
    let mut a: usize = 0;
    while a < s.len() && is_whitespace(s[a])
        invariant
            a <= s.len(),
            forall|i: int| 0 <= i < a ==> is_ws(#[trigger] s@[i]),
        decreases s.len() - a,
    {
        a += 1;
    }
    let mut b: usize = s.len();
    while b > a && is_whitespace(s[b - 1])
        invariant
            a <= b <= s.len(),
            forall|i: int| b <= i < s@.len() ==> is_ws(#[trigger] s@[i]),
            a < s.len() ==> !is_ws(s@[a as int]),
        decreases b,
    {
        b -= 1;
    }
    proof {
        lemma_trim_subrange(s@, a as int, b as int);
    }
    (a, b)
}

/// The characters of `s[from..to]`.
pub fn sub_chars(s: &Vec<char>, from: usize, to: usize) -> (r: Vec<char>)
    requires
        from <= to <= s@.len(),
    ensures
        r@ == s@.subrange(from as int, to as int),
{
    let mut r: Vec<char> = Vec::new();
    let mut i: usize = from;
    while i < to
        invariant
            from <= i <= to <= s@.len(),
            r@ == s@.subrange(from as int, i as int),
        decreases to - i,
    {
        r.push(s[i]);
        proof {
            assert(s@.subrange(from as int, i + 1) == s@.subrange(from as int, i as int).push(s@[i as int]));
        }
        i += 1;
    }
    r
}

/// `s` trimmed.
pub fn trim_chars(s: &Vec<char>) -> (r: Vec<char>)
    ensures
        r@ == trim(s@),
{
    let (a, b) = trim_bounds(s);
    sub_chars(s, a, b)
}

/// Whether `s` is blank, that is empty once trimmed.
pub fn blank(s: &Vec<char>) -> (b: bool)
    ensures
        b == is_blank(s@),
        b == all_ws(s@),
{
    let (a, b) = trim_bounds(s);
    proof {
        lemma_blank_iff_all_ws(s@);
    }
    a == b
}


/// `p` occurs in `s` at position `i`.
pub open spec fn matches_at(s: Seq<char>, p: Seq<char>, i: int) -> bool {
    0 <= i && i + p.len() <= s.len() && s.subrange(i, i + p.len()) == p
}

/// `p` occurs somewhere in `s` (`str::contains`).
pub open spec fn contains_seq(s: Seq<char>, p: Seq<char>) -> bool {
    exists|i: int| matches_at(s, p, i)
}

/// The first position at or after `i` where `p` occurs in `s`.
pub open spec fn find_from(s: Seq<char>, p: Seq<char>, i: int) -> Option<int>
    decreases s.len() + 1 - i,
{
    if i < 0 || i + p.len() > s.len() {
        None
    } else if matches_at(s, p, i) {
        Some(i)
    } else {
        find_from(s, p, i + 1)
    }
}

/// The first position where `p` occurs in `s` (`str::find`).
pub open spec fn find_first(s: Seq<char>, p: Seq<char>) -> Option<int> {
    find_from(s, p, 0)
}

/// An occurrence in `a` is an occurrence in `a + b`.
pub proof fn lemma_matches_prefix(a: Seq<char>, b: Seq<char>, p: Seq<char>, i: int)
    requires
        matches_at(a, p, i),
    ensures
        matches_at(a + b, p, i),
{
    assert((a + b).subrange(i, i + p.len()) == a.subrange(i, i + p.len()));
}

/// An occurrence in `b` is an occurrence in `a + b`, shifted by `a`.
pub proof fn lemma_matches_suffix(a: Seq<char>, b: Seq<char>, p: Seq<char>, i: int)
    requires
        matches_at(b, p, i),
    ensures
        matches_at(a + b, p, a.len() + i),
{
    assert((a + b).subrange(a.len() + i, a.len() + i + p.len()) == b.subrange(i, i + p.len()));
}

/// Occurring is transitive: what occurs in `p` occurs in whatever `p`
/// occurs in.
pub proof fn lemma_contains_transitive(s: Seq<char>, p: Seq<char>, q: Seq<char>)
    requires
        contains_seq(s, p),
        contains_seq(p, q),
    ensures
        contains_seq(s, q),
{
    let i = choose|i: int| matches_at(s, p, i);
    let j = choose|j: int| matches_at(p, q, j);
    assert(s.subrange(i + j, i + j + q.len()) == p.subrange(j, j + q.len()));
    assert(matches_at(s, q, i + j));
}

/// Each item occurs in the items joined.
pub proof fn lemma_join_contains(items: Seq<Seq<char>>, sep: Seq<char>, k: int)
    requires
        0 <= k < items.len(),
    ensures
        contains_seq(join(items, sep), items[k]),
    decreases items.len(),
{
    if items.len() == 1 {
        assert(items[k].subrange(0, items[k].len() as int) == items[k]);
        assert(matches_at(join(items, sep), items[k], 0));
    } else {
        let front = join(items.drop_last(), sep) + sep;
        if k == items.len() - 1 {
            assert(items[k].subrange(0, items[k].len() as int) == items[k]);
            assert(matches_at(items.last(), items[k], 0));
            lemma_matches_suffix(front, items.last(), items[k], 0);
        } else {
            lemma_join_contains(items.drop_last(), sep, k);
            let i = choose|i: int| matches_at(join(items.drop_last(), sep), items[k], i);
            lemma_matches_prefix(join(items.drop_last(), sep), sep, items[k], i);
            lemma_matches_prefix(front, items.last(), items[k], i);
        }
    }
}

/// `find_from` returns the first occurrence at or after `i`, and `None`
/// only when there is none.
pub proof fn lemma_find_from(s: Seq<char>, p: Seq<char>, i: int)
    requires
        0 <= i,
    ensures
        find_from(s, p, i) matches Some(k) ==> i <= k && matches_at(s, p, k) && forall|j: int|
            i <= j < k ==> !#[trigger] matches_at(s, p, j),
        find_from(s, p, i) is None ==> forall|j: int| i <= j ==> !#[trigger] matches_at(s, p, j),
    decreases s.len() + 1 - i,
{
    if i + p.len() > s.len() {
    } else if matches_at(s, p, i) {
    } else {
        lemma_find_from(s, p, i + 1);
    }
}

/// `find_first` finds an occurrence exactly when there is one.
pub proof fn lemma_find_first(s: Seq<char>, p: Seq<char>)
    ensures
        find_first(s, p) is Some <==> contains_seq(s, p),
        find_first(s, p) matches Some(k) ==> matches_at(s, p, k) && 0 <= k && k + p.len()
            <= s.len(),
{
    lemma_find_from(s, p, 0);
    if let Some(k) = find_first(s, p) {
        assert(matches_at(s, p, k));
    }
}

/// Whether `p` occurs in `s` at position `i`.
pub fn matches_at_exec(s: &Vec<char>, p: &Vec<char>, i: usize) -> (b: bool)
    ensures
        b == matches_at(s@, p@, i as int),
{
    if i > s.len() || p.len() > s.len() - i {
        return false;
    }
    let mut j: usize = 0;
    while j < p.len()
        invariant
            i + p@.len() <= s@.len(),
            i + p.len() <= s.len(),
            j <= p@.len(),
            forall|k: int| 0 <= k < j ==> s@[i + k] == p@[k],
        decreases p.len() - j,
    {
        if s[i + j] != p[j] {
            proof {
                assert(s@.subrange(i as int, i + p@.len())[j as int] != p@[j as int]);
            }
            return false;
        }
        j += 1;
    }
    proof {
        assert(s@.subrange(i as int, i + p@.len()) =~= p@);
    }
    true
}

/// The first position at or after `from` where `p` occurs in `s`.
pub fn find_exec(s: &Vec<char>, p: &Vec<char>, from: usize) -> (r: Option<usize>)
    ensures
        r matches Some(k) ==> find_from(s@, p@, from as int) == Some(k as int),
        r is None ==> find_from(s@, p@, from as int) is None,
{
    let mut i: usize = from;
    while i <= s.len() && p.len() <= s.len() - i
        invariant
            from <= i,
            find_from(s@, p@, from as int) == find_from(s@, p@, i as int),
        decreases s.len() + 1 - i,
    {
        if matches_at_exec(s, p, i) {
            return Some(i);
        }
        proof {
            if p@.len() == 0 {
                assert(s@.subrange(i as int, i as int) =~= p@);
            }
        }
        i += 1;
    }
    None
}

/// Whether `p` occurs in `s`.
pub fn contains_exec(s: &Vec<char>, p: &Vec<char>) -> (b: bool)
    ensures
        b == contains_seq(s@, p@),
{
    proof {
        lemma_find_first(s@, p@);
    }
    find_exec(s, p, 0).is_some()
}

/// Whether the character `c` occurs in `s`.
pub fn contains_char(s: &Vec<char>, c: char) -> (b: bool)
    ensures
        b == s@.contains(c),
{
    let mut i: usize = 0;
    while i < s.len()
        invariant
            i <= s@.len(),
            forall|k: int| 0 <= k < i ==> s@[k] != c,
        decreases s.len() - i,
    {
        if s[i] == c {
            return true;
        }
        i += 1;
    }
    false
}

/// Whether two character sequences are equal.
pub fn chars_eq(a: &Vec<char>, b: &Vec<char>) -> (r: bool)
    ensures
        r == (a@ == b@),
{
    if a.len() != b.len() {
        return false;
    }
    let mut i: usize = 0;
    while i < a.len()
        invariant
            a@.len() == b@.len(),
            i <= a@.len(),
            forall|k: int| 0 <= k < i ==> a@[k] == b@[k],
        decreases a.len() - i,
    {
        if a[i] != b[i] {
            return false;
        }
        i += 1;
    }
    proof {
        assert(a@ =~= b@);
    }
    true
}

/// Appends the characters of `t` to `r`.
pub fn append_chars(r: &mut Vec<char>, t: &Vec<char>)
    ensures
        final(r)@ == old(r)@ + t@,
{
    let mut i: usize = 0;
    while i < t.len()
        invariant
            i <= t@.len(),
            r@ == old(r)@ + t@.take(i as int),
        decreases t.len() - i,
    {
        r.push(t[i]);
        proof {
            assert(t@.take(i + 1) == t@.take(i as int).push(t@[i as int]));
        }
        i += 1;
    }
    proof {
        assert(t@.take(t@.len() as int) == t@);
    }
}

/// The character views of a sequence of strings or character vectors.
pub open spec fn views<T: View<V = Seq<char>>>(v: Seq<T>) -> Seq<Seq<char>> {
    Seq::new(v.len(), |i: int| v[i]@)
}

/// The characters of each string.
pub fn chars_of_strings(v: &Vec<String>) -> (r: Vec<Vec<char>>)
    ensures
        views(r@) == views(v@),
{
    let mut r: Vec<Vec<char>> = Vec::new();
    let mut i: usize = 0;
    while i < v.len()
        invariant
            i <= v@.len(),
            r@.len() == i,
            forall|k: int| 0 <= k < i ==> #[trigger] r@[k]@ == v@[k]@,
        decreases v.len() - i,
    {
        r.push(str_chars(v[i].as_str()));
        i += 1;
    }
    proof {
        assert(views(r@) =~= views(v@));
    }
    r
}

/// Strings holding each character sequence.
pub fn strings_of_chars(v: &Vec<Vec<char>>) -> (r: Vec<String>)
    ensures
        views(r@) == views(v@),
{
    let mut r: Vec<String> = Vec::new();
    let mut i: usize = 0;
    while i < v.len()
        invariant
            i <= v@.len(),
            r@.len() == i,
            forall|k: int| 0 <= k < i ==> #[trigger] r@[k]@ == v@[k]@,
        decreases v.len() - i,
    {
        r.push(string_from_chars(&v[i]));
        i += 1;
    }
    proof {
        assert(views(r@) =~= views(v@));
    }
    r
}

/// The items joined with `sep` between each two (`[T]::join`).
pub open spec fn join(items: Seq<Seq<char>>, sep: Seq<char>) -> Seq<char>
    decreases items.len(),
{
    if items.len() == 0 {
        Seq::empty()
    } else if items.len() == 1 {
        items[0]
    } else {
        join(items.drop_last(), sep) + sep + items.last()
    }
}

/// The items joined with `sep` between each two.
pub fn join_exec(items: &Vec<Vec<char>>, sep: &Vec<char>) -> (r: Vec<char>)
    ensures
        r@ == join(views(items@), sep@),
{
    let mut r: Vec<char> = Vec::new();
    let mut i: usize = 0;
    while i < items.len()
        invariant
            i <= items@.len(),
            r@ == join(views(items@).take(i as int), sep@),
        decreases items.len() - i,
    {
        let ghost before = views(items@).take(i as int);
        if i > 0 {
            append_chars(&mut r, sep);
        }
        append_chars(&mut r, &items[i]);
        proof {
            let after = views(items@).take(i + 1);
            assert(after.drop_last() == before);
            assert(after.last() == items@[i as int]@);
            if i == 0 {
                assert(r@ == after[0]);
            }
        }
        i += 1;
    }
    proof {
        assert(views(items@).take(items@.len() as int) == views(items@));
    }
    r
}

/// `s` cut at each occurrence of the non-empty pattern `p`, from left to
/// right (`str::split`).
pub open spec fn split_on(s: Seq<char>, p: Seq<char>) -> Seq<Seq<char>>
    decreases s.len(),
{
    if p.len() == 0 {
        seq![s]
    } else {
        match find_first(s, p) {
            None => seq![s],
            Some(k) => {
                proof {
                    lemma_find_first(s, p);
                }
                seq![s.take(k)] + split_on(s.skip(k + p.len()), p)
            },
        }
    }
}

/// `s` cut at the first occurrence of `p` (`str::split_once`).
pub open spec fn split_once(s: Seq<char>, p: Seq<char>) -> Option<(Seq<char>, Seq<char>)> {
    match find_first(s, p) {
        None => None,
        Some(k) => Some((s.take(k), s.skip(k + p.len()))),
    }
}

/// Searching the tail `s[start..]` finds what searching `s` from `start`
/// finds, shifted by `start`.
pub proof fn lemma_find_skip(s: Seq<char>, p: Seq<char>, start: int)
    requires
        0 <= start <= s.len(),
    ensures
        find_from(s, p, start) matches Some(k) ==> find_first(s.skip(start), p) == Some(k - start),
        find_from(s, p, start) is None ==> find_first(s.skip(start), p) is None,
{
    let rest = s.skip(start);
    assert forall|j: int| 0 <= j implies #[trigger] matches_at(rest, p, j) == matches_at(
        s,
        p,
        j + start,
    ) by {
        if j + p.len() <= rest.len() {
            assert(rest.subrange(j, j + p.len()) == s.subrange(j + start, j + start + p.len()));
        }
    }
    lemma_find_from(s, p, start);
    lemma_find_from(rest, p, 0);
    match find_from(s, p, start) {
        Some(k) => {
            assert(matches_at(rest, p, k - start));
            match find_first(rest, p) {
                Some(m) => {
                    assert(matches_at(s, p, m + start));
                    if m < k - start {
                        assert(!matches_at(s, p, m + start));
                    }
                    if m > k - start {
                        assert(!matches_at(rest, p, k - start));
                    }
                },
                None => {
                    assert(!matches_at(rest, p, k - start));
                },
            }
        },
        None => {
            if let Some(m) = find_first(rest, p) {
                assert(matches_at(rest, p, m));
                assert(matches_at(s, p, m + start));
            }
        },
    }
}

proof fn lemma_join_prepend(a: Seq<char>, rest: Seq<Seq<char>>, sep: Seq<char>)
    requires
        rest.len() > 0,
    ensures
        join(seq![a] + rest, sep) == a + sep + join(rest, sep),
    decreases rest.len(),
{
    let all = seq![a] + rest;
    assert(all.len() >= 2);
    if rest.len() == 1 {
        assert(all.drop_last() == seq![a]);
        assert(all.last() == rest[0]);
        assert(join(seq![a], sep) == a);
        assert(join(rest, sep) == rest[0]);
    } else {
        lemma_join_prepend(a, rest.drop_last(), sep);
        assert(all.drop_last() == seq![a] + rest.drop_last());
        assert(all.last() == rest.last());
        assert(join(all, sep) == join(all.drop_last(), sep) + sep + all.last());
        assert(join(rest, sep) == join(rest.drop_last(), sep) + sep + rest.last());
        assert(join(all, sep) =~= a + sep + join(rest, sep));
    }
}

/// Cutting `s` at the non-empty pattern `p` loses nothing and cuts at every
/// occurrence: there is at least one piece, the pieces joined with `p` give
/// `s` back, and no piece holds `p`.
pub proof fn lemma_split_on_rejoins(s: Seq<char>, p: Seq<char>)
    requires
        p.len() > 0,
    ensures
        split_on(s, p).len() > 0,
        join(split_on(s, p), p) == s,
        forall|k: int| 0 <= k < split_on(s, p).len() ==> !contains_seq(#[trigger] split_on(s, p)[k], p),
    decreases s.len(),
{
    lemma_find_from(s, p, 0);
    match find_first(s, p) {
        None => {
            assert(split_on(s, p) == seq![s]);
            assert(!contains_seq(s, p));
        },
        Some(k) => {
            let head = s.take(k);
            let tail = s.skip(k + p.len());
            lemma_split_on_rejoins(tail, p);
            let rest = split_on(tail, p);
            assert(split_on(s, p) == seq![head] + rest);
            lemma_join_prepend(head, rest, p);
            assert(s.subrange(k, k + p.len()) == p);
            assert(head + p + tail =~= s);
            assert(!contains_seq(head, p)) by {
                if contains_seq(head, p) {
                    let j = choose|j: int| matches_at(head, p, j);
                    assert(s.subrange(j, j + p.len()) == head.subrange(j, j + p.len()));
                    assert(matches_at(s, p, j));
                }
            }
            assert forall|m: int| 0 <= m < split_on(s, p).len() implies !contains_seq(
                #[trigger] split_on(s, p)[m],
                p,
            ) by {
                if m > 0 {
                    assert(split_on(s, p)[m] == rest[m - 1]);
                }
            }
        },
    }
}

/// `s` cut at each occurrence of the non-empty pattern `p`.
pub fn split_exec(s: &Vec<char>, p: &Vec<char>) -> (r: Vec<Vec<char>>)
    requires
        p@.len() > 0,
    ensures
        views(r@) == split_on(s@, p@),
{
    let mut r: Vec<Vec<char>> = Vec::new();
    let mut start: usize = 0;
    proof {
        assert(s@.skip(0) == s@);
    }
    loop
        invariant_except_break
            p@.len() > 0,
            start <= s@.len(),
            views(r@) + split_on(s@.skip(start as int), p@) == split_on(s@, p@),
        ensures
            views(r@) == split_on(s@, p@),
        decreases s@.len() - start,
    {
        let ghost rest = s@.skip(start as int);
        let ghost old_views = views(r@);
        proof {
            lemma_find_skip(s@, p@, start as int);
        }
        match find_exec(s, p, start) {
            None => {
                let last = sub_chars(s, start, s.len());
                r.push(last);
                proof {
                    assert(rest == s@.subrange(start as int, s@.len() as int));
                    assert(split_on(rest, p@) == seq![rest]);
                    assert(views(r@) =~= old_views + seq![rest]);
                }
                break;
            },
            Some(k) => {
                proof {
                    lemma_find_from(s@, p@, start as int);
                    assert(matches_at(s@, p@, k as int));
                    assert(k + p@.len() <= s@.len());
                }
                assert(k + p.len() <= s.len());
                let piece = sub_chars(s, start, k);
                r.push(piece);
                let next = k + p.len();
                proof {
                    let m = k - start;
                    assert(piece@ == rest.take(m));
                    assert(rest.skip(m + p@.len()) == s@.skip(next as int));
                    assert(split_on(rest, p@) == seq![rest.take(m)] + split_on(
                        rest.skip(m + p@.len()),
                        p@,
                    ));
                    assert(views(r@) =~= old_views + seq![rest.take(m)]);
                    assert(views(r@) + split_on(s@.skip(next as int), p@) =~= old_views
                        + split_on(rest, p@));
                }
                start = next;
            },
        }
    }
    r
}


/// The decimal digits of `n`, most significant first (`{}` on an integer).
pub open spec fn decimal(n: nat) -> Seq<char>
    decreases n,
{
    if n < 10 {
        seq![(n + 48) as char]
    } else {
        decimal(n / 10).push(((n % 10) + 48) as char)
    }
}

/// The decimal digits of `n`.
pub fn decimal_exec(n: usize) -> (r: Vec<char>)
    ensures
        r@ == decimal(n as nat),
    decreases n,
{
    let digit = ((n % 10) as u8 + 48) as char;
    if n < 10 {
        let mut r: Vec<char> = Vec::new();
        r.push(digit);
        proof {
            assert(r@ =~= seq![(n + 48) as char]);
        }
        r
    } else {
        let mut r = decimal_exec(n / 10);
        r.push(digit);
        r
    }
}

/// A copy of a vector of strings.
pub fn clone_strings(v: &Vec<String>) -> (r: Vec<String>)
    ensures
        r@ == v@,
{
    let mut r: Vec<String> = Vec::new();
    let mut i: usize = 0;
    while i < v.len()
        invariant
            i <= v@.len(),
            r@ == v@.take(i as int),
        decreases v.len() - i,
    {
        r.push(v[i].clone());
        proof {
            assert(v@.take(i + 1) == v@.take(i as int).push(v@[i as int]));
        }
        i += 1;
    }
    proof {
        assert(v@.take(v@.len() as int) == v@);
    }
    r
}

/// The items trimmed, with the blank ones left out, in order.
pub open spec fn trimmed_non_blank(items: Seq<Seq<char>>) -> Seq<Seq<char>>
    decreases items.len(),
{
    if items.len() == 0 {
        Seq::empty()
    } else {
        let rest = trimmed_non_blank(items.drop_last());
        if trim(items.last()).len() > 0 {
            rest.push(trim(items.last()))
        } else {
            rest
        }
    }
}

/// The items trimmed, with the blank ones left out, in order.
pub fn trimmed_non_blank_exec(items: &Vec<String>) -> (r: Vec<Vec<char>>)
    ensures
        views(r@) == trimmed_non_blank(views(items@)),
{
    let mut r: Vec<Vec<char>> = Vec::new();
    let mut i: usize = 0;
    while i < items.len()
        invariant
            i <= items@.len(),
            views(r@) == trimmed_non_blank(views(items@).take(i as int)),
        decreases items.len() - i,
    {
        let t = trim_chars(&str_chars(items[i].as_str()));
        let ghost before = r@;
        if t.len() > 0 {
            r.push(t);
        }
        proof {
            let pre = views(items@).take(i + 1);
            assert(pre.drop_last() == views(items@).take(i as int));
            assert(pre.last() == items@[i as int]@);
            if t@.len() > 0 {
                assert(views(r@) =~= views(before).push(t@));
            }
        }
        i += 1;
    }
    proof {
        assert(views(items@).take(items@.len() as int) == views(items@));
    }
    r
}

/// Whether `t` is one of `items`.
pub fn contains_item(items: &Vec<Vec<char>>, t: &Vec<char>) -> (b: bool)
    ensures
        b == views(items@).contains(t@),
{
    let mut i: usize = 0;
    while i < items.len()
        invariant
            i <= items@.len(),
            forall|k: int| 0 <= k < i ==> items@[k]@ != t@,
        decreases items.len() - i,
    {
        if chars_eq(&items[i], t) {
            proof {
                assert(views(items@)[i as int] == t@);
            }
            return true;
        }
        i += 1;
    }
    false
}

/// `s` split at the first occurrence of `p`.
pub fn split_once_exec(s: &Vec<char>, p: &Vec<char>) -> (r: Option<(Vec<char>, Vec<char>)>)
    ensures
        match r {
            Some((a, b)) => split_once(s@, p@) == Some((a@, b@)),
            None => split_once(s@, p@) is None,
        },
{
    proof {
        lemma_find_first(s@, p@);
    }
    match find_exec(s, p, 0) {
        None => None,
        Some(k) => {
            proof {
                assert(matches_at(s@, p@, k as int));
            }
            assert(k + p.len() <= s.len());
            let a = sub_chars(s, 0, k);
            let b = sub_chars(s, k + p.len(), s.len());
            proof {
                assert(a@ == s@.take(k as int));
                assert(b@ == s@.skip(k + p@.len()));
            }
            Some((a, b))
        },
    }
}

} // verus!
