//! Cleaning of imported explanation text: pronunciation prefixes, runs of
//! whitespace and multi-meaning explanations.
use vstd::prelude::*;

use crate::text::{
    contains_seq, append_chars, contains_item, find_exec, find_first, is_whitespace, is_ws, join, join_exec,
    lemma_find_first, split_exec, split_on, str_chars, sub_chars, trim, trim_chars, views,
};

verus! {

/// The Unicode `Alphabetic` property of `c`, as `char::is_alphabetic`
/// reports it.
pub uninterp spec fn char_is_alphabetic(c: char) -> bool;

/// Whether `c` is alphabetic: calls `char::is_alphabetic`, whose contract
/// here says only that the answer is `char_is_alphabetic(c)`; the Unicode
/// tables behind that property are not stated.
#[verifier::external_body]
fn is_alphabetic(c: char) -> (b: bool)
    ensures
        b == char_is_alphabetic(c),
{
    c.is_alphabetic()
}

/// The maximal runs of non-whitespace characters of `s`, in order
/// (`str::split_whitespace`): a non-whitespace character continues the
/// word of the character before it, or starts a new word.
pub open spec fn words(s: Seq<char>) -> Seq<Seq<char>>
    decreases s.len(),
{
    if s.len() == 0 {
        Seq::empty()
    } else {
        let w = words(s.drop_last());
        let c = s.last();
        if is_ws(c) {
            w
        } else if s.len() >= 2 && !is_ws(s[s.len() - 2]) {
            w.drop_last().push(w.last().push(c))
        } else {
            w.push(seq![c])
        }
    }
}

/// The words of `s` joined by single spaces.
pub open spec fn collapse_ws(s: Seq<char>) -> Seq<char> {
    join(words(s), " "@)
}

/// The words of `s`.
fn split_whitespace_exec(s: &Vec<char>) -> (r: Vec<Vec<char>>)
    ensures
        views(r@) == words(s@),
{
    let mut done: Vec<Vec<char>> = Vec::new();
    let mut cur: Vec<char> = Vec::new();
    let mut in_word = false;
    let mut i: usize = 0;
    while i < s.len()
        invariant
            i <= s@.len(),
            in_word == (i > 0 && !is_ws(s@[i - 1])),
            in_word ==> words(s@.take(i as int)) == views(done@).push(cur@),
            !in_word ==> words(s@.take(i as int)) == views(done@) && cur@.len() == 0,
        decreases s.len() - i,
    {
        let c = s[i];
        let ghost pre = s@.take(i as int);
        let ghost post = s@.take(i + 1);
        let ghost done_before = done@;
        let ghost cur_before = cur@;
        proof {
            assert(post.drop_last() == pre);
            assert(post.last() == c);
            if i > 0 {
                assert(post[post.len() - 2] == s@[i - 1]);
            }
        }
        if is_whitespace(c) {
            if in_word {
                done.push(cur);
                cur = Vec::new();
                proof {
                    assert(views(done@) =~= views(done_before).push(cur_before));
                }
            }
            in_word = false;
        } else {
            cur.push(c);
            proof {
                if !in_word {
                    assert(cur@ =~= seq![c]);
                }
            }
            in_word = true;
        }
        i += 1;
    }
    proof {
        assert(s@.take(s@.len() as int) == s@);
    }
    if in_word {
        let ghost done_before = done@;
        done.push(cur);
        proof {
            assert(views(done@) =~= views(done_before).push(cur@));
        }
    }
    done
}

/// `s` with its runs of whitespace collapsed to single spaces and its ends
/// trimmed.
pub fn collapse_whitespace(s: &Vec<char>) -> (r: Vec<char>)
    ensures
        r@ == collapse_ws(s@),
{
    join_exec(&split_whitespace_exec(s), &str_chars(" "))
}

/// `s` with each occurrence of the character `c` replaced by `rep`
/// (`str::replace` with a character pattern).
pub open spec fn replace_char(s: Seq<char>, c: char, rep: Seq<char>) -> Seq<char>
    decreases s.len(),
{
    if s.len() == 0 {
        s
    } else {
        replace_char(s.drop_last(), c, rep) + if s.last() == c {
            rep
        } else {
            seq![s.last()]
        }
    }
}

/// `s` with each occurrence of `c` replaced by `rep`.
fn replace_char_exec(s: &Vec<char>, c: char, rep: &Vec<char>) -> (r: Vec<char>)
    ensures
        r@ == replace_char(s@, c, rep@),
{
    let mut r: Vec<char> = Vec::new();
    let mut i: usize = 0;
    while i < s.len()
        invariant
            i <= s@.len(),
            r@ == replace_char(s@.take(i as int), c, rep@),
        decreases s.len() - i,
    {
        let ghost pre = s@.take(i as int);
        proof {
            assert(s@.take(i + 1).drop_last() == pre);
            assert(s@.take(i + 1).last() == s@[i as int]);
        }
        if s[i] == c {
            append_chars(&mut r, rep);
        } else {
            r.push(s[i]);
            proof {
                assert(r@ =~= replace_char(pre, c, rep@) + seq![s@[i as int]]);
            }
        }
        i += 1;
    }
    proof {
        assert(s@.take(s@.len() as int) == s@);
    }
    r
}

/// A character that may appear in a pronunciation, given whether it is
/// alphabetic: a letter, whitespace, a hyphen, an apostrophe or a middle dot.
pub open spec fn is_pronunciation_char_given(c: char, alphabetic: bool) -> bool {
    alphabetic || is_ws(c) || c == '-' || c == '\'' || c == '·'
}

/// `s` is not empty and reads like a pronunciation, given for each of its
/// characters whether it is alphabetic.
pub open spec fn looks_like_pronunciation_given(s: Seq<char>, alphabetic: Seq<bool>) -> bool {
    s.len() > 0 && forall|i: int|
        0 <= i < s.len() ==> is_pronunciation_char_given(#[trigger] s[i], alphabetic[i])
}

/// `s` is not empty and reads like a pronunciation.
pub open spec fn looks_like_pronunciation_of(s: Seq<char>) -> bool {
    looks_like_pronunciation_given(s, Seq::new(s.len(), |i: int| char_is_alphabetic(s[i])))
}

/// Whether `s` is not empty and reads like a pronunciation, given for each
/// of its characters whether it is alphabetic.
pub fn pronunciation_check(s: &Vec<char>, alphabetic: &Vec<bool>) -> (b: bool)
    requires
        alphabetic@.len() == s@.len(),
    ensures
        b == looks_like_pronunciation_given(s@, alphabetic@),
{
    if s.len() == 0 {
        return false;
    }
    let mut i: usize = 0;
    while i < s.len()
        invariant
            i <= s@.len(),
            alphabetic@.len() == s@.len(),
            forall|k: int| 0 <= k < i ==> is_pronunciation_char_given(#[trigger] s@[k], alphabetic@[k]),
        decreases s.len() - i,
    {
        let c = s[i];
        if !(alphabetic[i] || is_whitespace(c) || c == '-' || c == '\'' || c == '·') {
            return false;
        }
        i += 1;
    }
    true
}

/// Whether `s` is not empty and reads like a pronunciation.
fn looks_like_pronunciation(s: &Vec<char>) -> (b: bool)
    ensures
        b == looks_like_pronunciation_of(s@),
{
    let mut alphabetic: Vec<bool> = Vec::new();
    let mut i: usize = 0;
    while i < s.len()
        invariant
            i <= s@.len(),
            alphabetic@.len() == i,
            forall|k: int| 0 <= k < i ==> #[trigger] alphabetic@[k] == char_is_alphabetic(s@[k]),
        decreases s.len() - i,
    {
        alphabetic.push(is_alphabetic(s[i]));
        i += 1;
    }
    proof {
        assert(alphabetic@ =~= Seq::new(s@.len(), |k: int| char_is_alphabetic(s@[k])));
    }
    pronunciation_check(s, &alphabetic)
}

/// The text after a pronunciation that `open` and `close` wrap at the start
/// of the trimmed `raw`, trimmed; none when there is no such prefix.
pub open spec fn strip_wrapped_of(raw: Seq<char>, open: char, close: char) -> Option<Seq<char>> {
    let t = trim(raw);
    if t.len() > 0 && t[0] == open {
        let rest = t.drop_first();
        match find_first(rest, seq![close]) {
            None => None,
            Some(end) => if looks_like_pronunciation_of(rest.take(end)) {
                Some(trim(rest.skip(end + 1)))
            } else {
                None
            },
        }
    } else {
        None
    }
}

/// The text after a wrapped pronunciation prefix, if `raw` has one.
fn strip_wrapped_pronunciation(raw: &Vec<char>, open: char, close: char) -> (r: Option<Vec<char>>)
    ensures
        match r {
            Some(v) => strip_wrapped_of(raw@, open, close) == Some(v@),
            None => strip_wrapped_of(raw@, open, close) is None,
        },
{
    let t = trim_chars(raw);
    if t.len() == 0 || t[0] != open {
        return None;
    }
    let rest = sub_chars(&t, 1, t.len());
    proof {
        assert(rest@ == t@.drop_first());
    }
    let mut close_pat: Vec<char> = Vec::new();
    close_pat.push(close);
    proof {
        assert(close_pat@ == seq![close]);
    }
    match find_exec(&rest, &close_pat, 0) {
        None => None,
        Some(end) => {
            proof {
                lemma_find_first(rest@, close_pat@);
            }
            let pronunciation = sub_chars(&rest, 0, end);
            proof {
                assert(pronunciation@ == rest@.take(end as int));
            }
            if !looks_like_pronunciation(&pronunciation) {
                return None;
            }
            let after = sub_chars(&rest, end + 1, rest.len());
            proof {
                assert(after@ == rest@.skip(end + 1));
            }
            Some(trim_chars(&after))
        },
    }
}

/// `raw` without a leading pronunciation in ASCII or full-width brackets.
pub open spec fn strip_leading_pronunciation_of(raw: Seq<char>) -> Seq<char> {
    match strip_wrapped_of(raw, '(', ')') {
        Some(r) => r,
        None => match strip_wrapped_of(raw, '（', '）') {
            Some(r) => r,
            None => raw,
        },
    }
}

/// `raw` without a leading pronunciation.
fn strip_leading_pronunciation(raw: &Vec<char>) -> (r: Vec<char>)
    ensures
        r@ == strip_leading_pronunciation_of(raw@),
{
    match strip_wrapped_pronunciation(raw, '(', ')') {
        Some(r) => r,
        None => match strip_wrapped_pronunciation(raw, '（', '）') {
            Some(r) => r,
            None => sub_chars(raw, 0, raw.len()),
        },
    }
}

/// One imported segment cleaned: pronunciation prefix removed, whitespace
/// collapsed.
pub open spec fn normalize_segment_of(raw: Seq<char>) -> Seq<char> {
    collapse_ws(strip_leading_pronunciation_of(raw))
}

/// One imported segment cleaned.
fn normalize_imported_segment(raw: &Vec<char>) -> (r: Vec<char>)
    ensures
        r@ == normalize_segment_of(raw@),
{
    collapse_whitespace(&strip_leading_pronunciation(raw))
}

/// The pieces cleaned, with empty ones and repeats left out, in order.
pub open spec fn distinct_segments(pieces: Seq<Seq<char>>) -> Seq<Seq<char>>
    decreases pieces.len(),
{
    if pieces.len() == 0 {
        Seq::empty()
    } else {
        let rest = distinct_segments(pieces.drop_last());
        let cleaned = normalize_segment_of(pieces.last());
        if cleaned.len() == 0 || rest.contains(cleaned) {
            rest
        } else {
            rest.push(cleaned)
        }
    }
}

/// The meanings of an imported explanation: its pieces between `" / "`
/// (a full-width slash counts as one), each cleaned, without empty ones or
/// repeats; the whole explanation cleaned when no piece is left.
pub open spec fn split_segments_of(raw: Seq<char>) -> Seq<Seq<char>> {
    let pieces = split_on(replace_char(raw, '／', " / "@), " / "@);
    let segments = distinct_segments(pieces);
    if segments.len() == 0 {
        seq![normalize_segment_of(raw)]
    } else {
        segments
    }
}

/// The meanings of an imported explanation.
pub fn split_imported_segments(raw: &Vec<char>) -> (r: Vec<Vec<char>>)
    ensures
        views(r@) == split_segments_of(raw@),
        r@.len() > 0,
{
    let normalized = replace_char_exec(raw, '／', &str_chars(" / "));
    let separator = str_chars(" / ");
    proof {
        reveal_strlit(" / ");
    }
    let pieces = split_exec(&normalized, &separator);
    let mut segments: Vec<Vec<char>> = Vec::new();
    let mut i: usize = 0;
    while i < pieces.len()
        invariant
            i <= pieces@.len(),
            views(segments@) == distinct_segments(views(pieces@).take(i as int)),
        decreases pieces.len() - i,
    {
        let cleaned = normalize_imported_segment(&pieces[i]);
        let ghost before = segments@;
        proof {
            let pre = views(pieces@).take(i + 1);
            assert(pre.drop_last() == views(pieces@).take(i as int));
            assert(pre.last() == pieces@[i as int]@);
        }
        if cleaned.len() > 0 && !contains_item(&segments, &cleaned) {
            segments.push(cleaned);
            proof {
                assert(views(segments@) =~= views(before).push(cleaned@));
            }
        }
        i += 1;
    }
    proof {
        assert(views(pieces@).take(pieces@.len() as int) == views(pieces@));
    }
    if segments.len() == 0 {
        let mut only: Vec<Vec<char>> = Vec::new();
        only.push(normalize_imported_segment(raw));
        proof {
            assert(views(only@) =~= seq![normalize_segment_of(raw@)]);
        }
        only
    } else {
        segments
    }
}

/// A word: non-empty and without whitespace.
pub open spec fn is_word(w: Seq<char>) -> bool {
    w.len() > 0 && forall|i: int| 0 <= i < w.len() ==> !is_ws(#[trigger] w[i])
}

proof fn lemma_words_are_words(s: Seq<char>)
    ensures
        forall|k: int| 0 <= k < words(s).len() ==> is_word(#[trigger] words(s)[k]),
        s.len() > 0 && !is_ws(s.last()) ==> words(s).len() > 0 && words(s).last().last()
            == s.last(),
    decreases s.len(),
{
    if s.len() > 0 {
        let t = s.drop_last();
        lemma_words_are_words(t);
        let w = words(t);
        let c = s.last();
        if !is_ws(c) {
            if s.len() >= 2 && !is_ws(s[s.len() - 2]) {
                assert(t.last() == s[s.len() - 2]);
                let u = w.last().push(c);
                assert(is_word(w.last()));
                assert forall|i: int| 0 <= i < u.len() implies !is_ws(#[trigger] u[i]) by {
                    if i < w.last().len() {
                        assert(u[i] == w.last()[i]);
                    }
                }
                assert forall|k: int| 0 <= k < words(s).len() implies is_word(#[trigger] words(s)[k]) by {
                    if k < w.len() - 1 {
                        assert(words(s)[k] == w[k]);
                    }
                }
            } else {
                let u: Seq<char> = seq![c];
                assert forall|k: int| 0 <= k < words(s).len() implies is_word(#[trigger] words(s)[k]) by {
                    if k < w.len() {
                        assert(words(s)[k] == w[k]);
                    } else {
                        assert(words(s)[k] == u);
                    }
                }
            }
        }
    }
}

proof fn lemma_words_append_word(a: Seq<char>, w: Seq<char>)
    requires
        is_word(w),
        a.len() == 0 || is_ws(a.last()),
    ensures
        words(a + w) == words(a).push(w),
    decreases w.len(),
{
    let s = a + w;
    let c = w.last();
    assert(s.drop_last() == a + w.drop_last());
    assert(s.last() == c);
    if w.len() == 1 {
        assert(a + w.drop_last() == a);
        assert(w == seq![c]);
        if s.len() >= 2 {
            assert(s[s.len() - 2] == a.last());
        }
    } else {
        let v = w.drop_last();
        assert forall|i: int| 0 <= i < v.len() implies !is_ws(#[trigger] v[i]) by {
            assert(v[i] == w[i]);
        }
        lemma_words_append_word(a, v);
        assert(s[s.len() - 2] == v.last());
        assert(v.last() == w[w.len() - 2]);
        assert(words(a).push(v).drop_last() == words(a));
        assert(v.push(c) == w);
    }
}

proof fn lemma_words_of_join(ws: Seq<Seq<char>>)
    requires
        forall|k: int| 0 <= k < ws.len() ==> is_word(#[trigger] ws[k]),
    ensures
        words(join(ws, " "@)) == ws,
    decreases ws.len(),
{
    reveal_strlit(" ");
    if ws.len() == 0 {
    } else if ws.len() == 1 {
        assert(is_word(ws[0]));
        lemma_words_append_word(Seq::empty(), ws[0]);
        assert(Seq::<char>::empty() + ws[0] == ws[0]);
        assert(words(Seq::<char>::empty()) == Seq::<Seq<char>>::empty());
        assert(Seq::<Seq<char>>::empty().push(ws[0]) == ws);
    } else {
        let dl = ws.drop_last();
        assert forall|k: int| 0 <= k < dl.len() implies is_word(#[trigger] dl[k]) by {
            assert(dl[k] == ws[k]);
        }
        lemma_words_of_join(dl);
        let a = join(dl, " "@) + " "@;
        assert(a.last() == ' ');
        assert(a.drop_last() == join(dl, " "@));
        assert(words(a) == words(join(dl, " "@)));
        assert(is_word(ws.last()));
        lemma_words_append_word(a, ws.last());
        assert(dl.push(ws.last()) == ws);
    }
}

/// Collapsing whitespace twice is collapsing it once.
pub proof fn lemma_collapse_ws_idempotent(s: Seq<char>)
    ensures
        collapse_ws(collapse_ws(s)) == collapse_ws(s),
{
    lemma_words_are_words(s);
    lemma_words_of_join(words(s));
}

proof fn lemma_distinct_segments(pieces: Seq<Seq<char>>)
    ensures
        forall|k: int|
            0 <= k < distinct_segments(pieces).len() ==> (#[trigger] distinct_segments(pieces)[k]).len()
                > 0 && collapse_ws(distinct_segments(pieces)[k]) == distinct_segments(pieces)[k],
        forall|i: int, j: int|
            0 <= i < j < distinct_segments(pieces).len() ==> #[trigger] distinct_segments(pieces)[i]
                != #[trigger] distinct_segments(pieces)[j],
    decreases pieces.len(),
{
    if pieces.len() > 0 {
        let rest = distinct_segments(pieces.drop_last());
        lemma_distinct_segments(pieces.drop_last());
        let cleaned = normalize_segment_of(pieces.last());
        lemma_collapse_ws_idempotent(strip_leading_pronunciation_of(pieces.last()));
        let d = distinct_segments(pieces);
        if d != rest {
            assert(d == rest.push(cleaned));
            assert forall|k: int| 0 <= k < d.len() implies (#[trigger] d[k]).len() > 0 && collapse_ws(
                d[k],
            ) == d[k] by {
                if k < rest.len() {
                    assert(d[k] == rest[k]);
                }
            }
            assert forall|i: int, j: int| 0 <= i < j < d.len() implies #[trigger] d[i]
                != #[trigger] d[j] by {
                if j == d.len() - 1 {
                    assert(d[i] == rest[i]);
                    if d[i] == d[j] {
                        assert(rest.contains(cleaned));
                    }
                } else {
                    assert(d[i] == rest[i] && d[j] == rest[j]);
                }
            }
        }
    }
}

proof fn lemma_distinct_segments_members(pieces: Seq<Seq<char>>)
    ensures
        forall|k: int|
            0 <= k < distinct_segments(pieces).len() ==> exists|j: int|
                0 <= j < pieces.len() && #[trigger] distinct_segments(pieces)[k]
                    == normalize_segment_of(#[trigger] pieces[j]),
        forall|j: int|
            0 <= j < pieces.len() && normalize_segment_of(#[trigger] pieces[j]).len() > 0
                ==> distinct_segments(pieces).contains(normalize_segment_of(pieces[j])),
        distinct_segments(pieces).len() == 0 <==> forall|j: int|
            0 <= j < pieces.len() ==> normalize_segment_of(#[trigger] pieces[j]).len() == 0,
    decreases pieces.len(),
{
    if pieces.len() > 0 {
        let front = pieces.drop_last();
        lemma_distinct_segments_members(front);
        let rest = distinct_segments(front);
        let last = pieces.last();
        let cleaned = normalize_segment_of(last);
        let d = distinct_segments(pieces);
        assert(last == pieces[pieces.len() - 1]);
        assert forall|j: int| 0 <= j < front.len() implies front[j] == pieces[j] by {}
        assert forall|k: int| 0 <= k < d.len() implies exists|j: int|
            0 <= j < pieces.len() && #[trigger] d[k] == normalize_segment_of(#[trigger] pieces[j]) by {
            if k < rest.len() {
                assert(d[k] == rest[k]);
                let j = choose|j: int| 0 <= j < front.len() && rest[k] == normalize_segment_of(front[j]);
                assert(pieces[j] == front[j]);
            } else {
                assert(d[k] == cleaned);
                assert(normalize_segment_of(pieces[pieces.len() - 1]) == cleaned);
            }
        }
        assert forall|j: int|
            0 <= j < pieces.len() && normalize_segment_of(#[trigger] pieces[j]).len() > 0 implies d.contains(
            normalize_segment_of(pieces[j]),
        ) by {
            if j < front.len() {
                assert(pieces[j] == front[j]);
                assert(rest.contains(normalize_segment_of(front[j])));
                let i = choose|i: int| 0 <= i < rest.len() && rest[i] == normalize_segment_of(front[j]);
                if d != rest {
                    assert(d[i] == rest[i]);
                }
            } else {
                if !rest.contains(cleaned) {
                    assert(d == rest.push(cleaned));
                    assert(d[rest.len() as int] == cleaned);
                }
            }
        }
        if d.len() == 0 {
            assert forall|j: int| 0 <= j < pieces.len() implies normalize_segment_of(
                #[trigger] pieces[j],
            ).len() == 0 by {
                if normalize_segment_of(pieces[j]).len() > 0 {
                    assert(d.contains(normalize_segment_of(pieces[j])));
                }
            }
        }
        if forall|j: int| 0 <= j < pieces.len() ==> normalize_segment_of(#[trigger] pieces[j]).len() == 0 {
            assert(normalize_segment_of(pieces[pieces.len() - 1]).len() == 0);
            assert forall|j: int| 0 <= j < front.len() implies normalize_segment_of(
                #[trigger] front[j],
            ).len() == 0 by {
                assert(pieces[j] == front[j]);
            }
        }
    }
}

proof fn lemma_replace_absent(s: Seq<char>, c: char, rep: Seq<char>)
    requires
        !s.contains(c),
    ensures
        replace_char(s, c, rep) == s,
    decreases s.len(),
{
    if s.len() > 0 {
        let t = s.drop_last();
        assert forall|i: int| 0 <= i < t.len() implies t[i] != c by {
            assert(t[i] == s[i]);
        }
        lemma_replace_absent(t, c, rep);
        assert(s.last() == s[s.len() - 1]);
        assert(t + seq![s.last()] == s);
    }
}

/// An explanation that holds neither `" / "` nor a full-width slash has a
/// single meaning: the explanation itself, without a leading pronunciation
/// and with its whitespace collapsed. A bare `/` does not cut it.
pub proof fn lemma_unseparated_single_meaning(raw: Seq<char>)
    requires
        !contains_seq(raw, " / "@),
        !raw.contains('／'),
    ensures
        split_segments_of(raw) == seq![collapse_ws(strip_leading_pronunciation_of(raw))],
{
    reveal_strlit(" / ");
    lemma_replace_absent(raw, '／', " / "@);
    lemma_find_first(raw, " / "@);
    assert(split_on(raw, " / "@) == seq![raw]);
    let pieces = seq![raw];
    assert(pieces.drop_last() == Seq::<Seq<char>>::empty());
    assert(pieces.last() == raw);
    assert(distinct_segments(Seq::<Seq<char>>::empty()) == Seq::<Seq<char>>::empty());
    let cleaned = normalize_segment_of(raw);
    if cleaned.len() == 0 {
        assert(distinct_segments(pieces).len() == 0);
    } else {
        assert(!Seq::<Seq<char>>::empty().contains(cleaned));
        assert(distinct_segments(pieces) == Seq::<Seq<char>>::empty().push(cleaned));
        assert(distinct_segments(pieces) =~= seq![cleaned]);
    }
}

/// The meanings of an imported explanation: there is at least one; no two
/// are equal; each has its whitespace collapsed already; and when there are
/// several, none is empty.
pub proof fn lemma_split_segments_laws(raw: Seq<char>)
    ensures
        split_segments_of(raw).len() > 0,
        forall|i: int, j: int|
            0 <= i < j < split_segments_of(raw).len() ==> #[trigger] split_segments_of(raw)[i]
                != #[trigger] split_segments_of(raw)[j],
        forall|k: int|
            0 <= k < split_segments_of(raw).len() ==> collapse_ws(
                #[trigger] split_segments_of(raw)[k],
            ) == split_segments_of(raw)[k],
        split_segments_of(raw).len() > 1 ==> forall|k: int|
            0 <= k < split_segments_of(raw).len() ==> (#[trigger] split_segments_of(raw)[k]).len()
                > 0,
{
    let pieces = split_on(replace_char(raw, '／', " / "@), " / "@);
    lemma_distinct_segments(pieces);
    let s = split_segments_of(raw);
    if distinct_segments(pieces).len() == 0 {
        lemma_collapse_ws_idempotent(strip_leading_pronunciation_of(raw));
        assert(s[0] == normalize_segment_of(raw));
    }
}

/// The meanings of an imported explanation are its pieces cleaned. The
/// explanation, each full-width slash read as `" / "`, is cut at every
/// `" / "`; each meaning is the cleaned form of one piece, and each piece whose
/// cleaned form is not empty has that form among the meanings. Only when every
/// piece cleans to nothing is the one meaning the whole explanation cleaned.
pub proof fn lemma_segments_are_cleaned_pieces(raw: Seq<char>)
    ensures
        forall|k: int|
            0 <= k < split_segments_of(raw).len() && !(forall|j: int|
                0 <= j < split_on(replace_char(raw, '／', " / "@), " / "@).len()
                    ==> normalize_segment_of(
                    #[trigger] split_on(replace_char(raw, '／', " / "@), " / "@)[j],
                ).len() == 0) ==> exists|j: int|
                0 <= j < split_on(replace_char(raw, '／', " / "@), " / "@).len()
                    && #[trigger] split_segments_of(raw)[k] == normalize_segment_of(
                    split_on(replace_char(raw, '／', " / "@), " / "@)[j],
                ),
        forall|j: int|
            0 <= j < split_on(replace_char(raw, '／', " / "@), " / "@).len() && normalize_segment_of(
                #[trigger] split_on(replace_char(raw, '／', " / "@), " / "@)[j],
            ).len() > 0 ==> split_segments_of(raw).contains(
                normalize_segment_of(split_on(replace_char(raw, '／', " / "@), " / "@)[j]),
            ),
        (forall|j: int|
            0 <= j < split_on(replace_char(raw, '／', " / "@), " / "@).len() ==> normalize_segment_of(
                #[trigger] split_on(replace_char(raw, '／', " / "@), " / "@)[j],
            ).len() == 0) ==> split_segments_of(raw) == seq![normalize_segment_of(raw)],
{
    let pieces = split_on(replace_char(raw, '／', " / "@), " / "@);
    lemma_distinct_segments_members(pieces);
}

} // verus!
