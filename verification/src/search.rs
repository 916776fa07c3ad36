//! Query normalisation and keyword ranking of cards.
use vstd::prelude::*;
use vstd::utf8::encode_utf8;

use crate::card::{lemma_searchable_text_contains_fields, searchable_text_of, JargonCard};
use crate::text::matches_at;
use crate::text::{
    chars_eq, clone_strings, contains_char, contains_exec, contains_seq, is_blank, str_chars,
    string_from_chars, trim, trim_chars,
};

verus! {

/// Why a search query is refused.
#[derive(Debug, Clone, PartialEq, Eq)]
pub enum SearchQueryError {
    /// The query is blank.
    Empty,
    /// The trimmed query has more than `max_chars` characters.
    TooLong { max_chars: usize },
}

/// The query trimmed, refused when blank or longer than `max_chars`
/// characters.
pub fn normalize_query(input: &str, max_chars: usize) -> (r: Result<String, SearchQueryError>)
    ensures
        is_blank(input@) ==> r == Err::<String, SearchQueryError>(SearchQueryError::Empty),
        !is_blank(input@) && trim(input@).len() > max_chars ==> r == Err::<
            String,
            SearchQueryError,
        >(SearchQueryError::TooLong { max_chars }),
        !is_blank(input@) && trim(input@).len() <= max_chars ==> (r matches Ok(s) && s@ == trim(
            input@,
        )),
{
    let query = trim_chars(&str_chars(input));
    if query.len() == 0 {
        return Err(SearchQueryError::Empty);
    }
    if query.len() > max_chars {
        return Err(SearchQueryError::TooLong { max_chars });
    }
    Ok(string_from_chars(&query))
}

/// One card found by a search, with its score in hundredths: 100 for an
/// exact term or plain match, 95 for an exact query match, 75 when the
/// query occurs in the card's text, 20 when one of its characters does.
#[derive(Debug, Clone, PartialEq, Eq)]
pub struct SearchResult {
    pub id: String,
    pub term: String,
    pub plain: String,
    pub explanation: String,
    pub examples: Vec<String>,
    pub tags: Vec<String>,
    pub score: u32,
}

/// The answer to a search: the normalised query and the results in rank order.
#[derive(Debug, Clone, PartialEq, Eq)]
pub struct SearchResponse {
    pub query: String,
    pub results: Vec<SearchResult>,
}

impl SearchResult {
    /// This result shows `card` with `score`.
    pub open spec fn is_result_of(self, card: JargonCard, score: u32) -> bool {
        &&& self.id@ == card.id@
        &&& self.term@ == card.term@
        &&& self.plain@ == card.plain@
        &&& self.explanation@ == card.explanation@
        &&& self.examples@ == card.examples@
        &&& self.tags@ == card.tags@
        &&& self.score == score
    }

    /// The result that shows `card` with `score`.
    pub fn from_card(card: &JargonCard, score: u32) -> (r: Self)
        ensures
            r.is_result_of(*card, score),
    {
        SearchResult {
            id: card.id.clone(),
            term: card.term.clone(),
            plain: card.plain.clone(),
            explanation: card.explanation.clone(),
            examples: clone_strings(&card.examples),
            tags: clone_strings(&card.tags),
            score,
        }
    }
}

/// The keyword score of a card for the trimmed query `q`, in hundredths.
pub open spec fn keyword_score_of(q: Seq<char>, card: JargonCard) -> u32 {
    let text = searchable_text_of(card);
    if card.term@ == q || card.plain@ == q {
        100
    } else if exists|k: int| 0 <= k < card.queries@.len() && #[trigger] card.queries@[k]@ == q {
        95
    } else if contains_seq(text, q) {
        75
    } else if exists|i: int| 0 <= i < q.len() && text.contains(#[trigger] q[i]) {
        20
    } else {
        0
    }
}

/// Byte strings in lexicographic order (`Ord` on `str` and `[u8]`).
pub open spec fn bytes_lt(a: Seq<u8>, b: Seq<u8>) -> bool
    decreases a.len(),
{
    if a.len() == 0 {
        b.len() > 0
    } else if b.len() == 0 {
        false
    } else if a[0] < b[0] {
        true
    } else if a[0] > b[0] {
        false
    } else {
        bytes_lt(a.drop_first(), b.drop_first())
    }
}

/// A result with score `sa` and term `ta` ranks before one with score `sb`
/// and term `tb`: higher score first, then the term in byte order.
pub open spec fn ranks_before(sa: u32, ta: Seq<char>, sb: u32, tb: Seq<char>) -> bool {
    sa > sb || (sa == sb && bytes_lt(encode_utf8(ta), encode_utf8(tb)))
}

/// Rank order on (card, score) entries.
pub open spec fn entry_before(x: (JargonCard, u32), y: (JargonCard, u32)) -> bool {
    ranks_before(x.1, x.0.term@, y.1, y.0.term@)
}

/// `x` inserted into `t` after every entry that it does not rank before.
pub open spec fn insert_ranked(t: Seq<(JargonCard, u32)>, x: (JargonCard, u32)) -> Seq<
    (JargonCard, u32),
>
    decreases t.len(),
{
    if t.len() == 0 {
        seq![x]
    } else if entry_before(x, t[0]) {
        seq![x] + t
    } else {
        seq![t[0]] + insert_ranked(t.drop_first(), x)
    }
}

/// The entries in rank order, equal entries kept in their order (a stable
/// sort).
pub open spec fn sort_ranked(s: Seq<(JargonCard, u32)>) -> Seq<(JargonCard, u32)>
    decreases s.len(),
{
    if s.len() == 0 {
        s
    } else {
        insert_ranked(sort_ranked(s.drop_last()), s.last())
    }
}

/// The cards with a positive score for `q`, each with its score, in order.
pub open spec fn scored_candidates(q: Seq<char>, cards: Seq<JargonCard>) -> Seq<(JargonCard, u32)>
    decreases cards.len(),
{
    if cards.len() == 0 {
        Seq::empty()
    } else {
        let rest = scored_candidates(q, cards.drop_last());
        let score = keyword_score_of(q, cards.last());
        if score > 0 {
            rest.push((cards.last(), score))
        } else {
            rest
        }
    }
}

/// The ranked matches of `query` among `cards`: none for a blank query or a
/// zero limit; otherwise the first `limit` matching cards in rank order.
pub open spec fn ranked_matches(query: Seq<char>, cards: Seq<JargonCard>, limit: usize) -> Seq<
    (JargonCard, u32),
> {
    let q = trim(query);
    if q.len() == 0 || limit == 0 {
        Seq::empty()
    } else {
        let sorted = sort_ranked(scored_candidates(q, cards));
        if sorted.len() > limit {
            sorted.take(limit as int)
        } else {
            sorted
        }
    }
}

/// The results `r` show the entries `e`, one for one.
pub open spec fn shows_entries(r: Seq<SearchResult>, e: Seq<(JargonCard, u32)>) -> bool {
    &&& r.len() == e.len()
    &&& forall|i: int| 0 <= i < r.len() ==> #[trigger] r[i].is_result_of(e[i].0, e[i].1)
}

/// Whether the byte string `a` comes before `b`.
fn bytes_less(a: &[u8], b: &[u8]) -> (r: bool)
    ensures
        r == bytes_lt(a@, b@),
{
    let mut i: usize = 0;
    proof {
        assert(a@.skip(0) == a@);
        assert(b@.skip(0) == b@);
    }
    while i < a.len() && i < b.len()
        invariant
            i <= a@.len(),
            i <= b@.len(),
            bytes_lt(a@, b@) == bytes_lt(a@.skip(i as int), b@.skip(i as int)),
        decreases a.len() - i,
    {
        if a[i] < b[i] {
            return true;
        }
        if a[i] > b[i] {
            return false;
        }
        proof {
            assert(a@.skip(i as int).drop_first() == a@.skip(i + 1));
            assert(b@.skip(i as int).drop_first() == b@.skip(i + 1));
        }
        i += 1;
    }
    i == a.len() && i < b.len()
}

/// Whether result `a` ranks before result `b`.
fn result_before(a: &SearchResult, b: &SearchResult) -> (r: bool)
    ensures
        r == ranks_before(a.score, a.term@, b.score, b.term@),
{
    a.score > b.score || (a.score == b.score && bytes_less(
        a.term.as_str().as_bytes(),
        b.term.as_str().as_bytes(),
    ))
}

/// The keyword score of `card` for the query `q`, compared as given.
pub fn keyword_score(q: &Vec<char>, card: &JargonCard) -> (r: u32)
    ensures
        r == keyword_score_of(q@, *card),
{
    if chars_eq(&str_chars(card.term.as_str()), q) || chars_eq(&str_chars(card.plain.as_str()), q) {
        return 100;
    }
    let mut k: usize = 0;
    while k < card.queries.len()
        invariant
            k <= card.queries@.len(),
            card.term@ != q@ && card.plain@ != q@,
            forall|j: int| 0 <= j < k ==> #[trigger] card.queries@[j]@ != q@,
        decreases card.queries.len() - k,
    {
        if chars_eq(&str_chars(card.queries[k].as_str()), q) {
            proof {
                assert(card.queries@[k as int]@ == q@);
            }
            return 95;
        }
        k += 1;
    }
    let text = str_chars(card.searchable_text().as_str());
    if contains_exec(&text, q) {
        return 75;
    }
    let mut i: usize = 0;
    while i < q.len()
        invariant
            i <= q@.len(),
            text@ == searchable_text_of(*card),
            card.term@ != q@ && card.plain@ != q@,
            forall|j: int| 0 <= j < card.queries@.len() ==> #[trigger] card.queries@[j]@ != q@,
            !contains_seq(text@, q@),
            forall|j: int| 0 <= j < i ==> !text@.contains(#[trigger] q@[j]),
        decreases q.len() - i,
    {
        if contains_char(&text, q[i]) {
            proof {
                assert(text@.contains(q@[i as int]));
            }
            return 20;
        }
        i += 1;
    }
    0
}

proof fn lemma_bytes_lt_irreflexive(a: Seq<u8>)
    ensures
        !bytes_lt(a, a),
    decreases a.len(),
{
    if a.len() > 0 {
        lemma_bytes_lt_irreflexive(a.drop_first());
    }
}

proof fn lemma_bytes_lt_transitive(a: Seq<u8>, b: Seq<u8>, c: Seq<u8>)
    requires
        bytes_lt(a, b),
        bytes_lt(b, c),
    ensures
        bytes_lt(a, c),
    decreases a.len(),
{
    if a.len() > 0 && b.len() > 0 && c.len() > 0 && a[0] == b[0] && b[0] == c[0] {
        lemma_bytes_lt_transitive(a.drop_first(), b.drop_first(), c.drop_first());
    }
}

/// Rank order is a strict order: no entry ranks before itself.
pub proof fn lemma_entry_before_irreflexive(x: (JargonCard, u32))
    ensures
        !entry_before(x, x),
{
    lemma_bytes_lt_irreflexive(encode_utf8(x.0.term@));
}

/// Rank order is a strict order: it is transitive.
pub proof fn lemma_entry_before_transitive(
    x: (JargonCard, u32),
    y: (JargonCard, u32),
    z: (JargonCard, u32),
)
    requires
        entry_before(x, y),
        entry_before(y, z),
    ensures
        entry_before(x, z),
{
    if x.1 == y.1 && y.1 == z.1 {
        lemma_bytes_lt_transitive(
            encode_utf8(x.0.term@),
            encode_utf8(y.0.term@),
            encode_utf8(z.0.term@),
        );
    }
}

/// Inserting at the first position whose entry `x` ranks before is what
/// `insert_ranked` does.
proof fn lemma_insert_ranked_at(t: Seq<(JargonCard, u32)>, x: (JargonCard, u32), p: int)
    requires
        0 <= p <= t.len(),
        forall|k: int| 0 <= k < p ==> !entry_before(x, #[trigger] t[k]),
        p == t.len() || entry_before(x, t[p]),
    ensures
        insert_ranked(t, x) == t.insert(p, x),
    decreases t.len(),
{
    if t.len() == 0 {
        assert(t.insert(p, x) =~= seq![x]);
    } else if p == 0 {
        assert(t.insert(0, x) =~= seq![x] + t);
    } else {
        let u = t.drop_first();
        assert forall|k: int| 0 <= k < p - 1 implies !entry_before(x, #[trigger] u[k]) by {
            assert(u[k] == t[k + 1]);
        }
        if p < t.len() {
            assert(u[p - 1] == t[p]);
        }
        lemma_insert_ranked_at(u, x, p - 1);
        assert(t.insert(p, x) =~= seq![t[0]] + u.insert(p - 1, x));
    }
}

/// No entry ranks before an earlier one.
pub open spec fn is_rank_sorted(s: Seq<(JargonCard, u32)>) -> bool {
    forall|i: int, j: int| 0 <= i < j < s.len() ==> !entry_before(#[trigger] s[j], #[trigger] s[i])
}

/// Where `insert_ranked` puts `x`: the first position whose entry `x`
/// ranks before.
pub open spec fn insert_pos(t: Seq<(JargonCard, u32)>, x: (JargonCard, u32)) -> int
    decreases t.len(),
{
    if t.len() == 0 {
        0
    } else if entry_before(x, t[0]) {
        0
    } else {
        1 + insert_pos(t.drop_first(), x)
    }
}

proof fn lemma_insert_pos(t: Seq<(JargonCard, u32)>, x: (JargonCard, u32))
    ensures
        0 <= insert_pos(t, x) <= t.len(),
        forall|k: int| 0 <= k < insert_pos(t, x) ==> !entry_before(x, #[trigger] t[k]),
        insert_pos(t, x) == t.len() || entry_before(x, t[insert_pos(t, x)]),
    decreases t.len(),
{
    if t.len() > 0 && !entry_before(x, t[0]) {
        let u = t.drop_first();
        lemma_insert_pos(u, x);
        assert forall|k: int| 0 <= k < insert_pos(t, x) implies !entry_before(x, #[trigger] t[k]) by {
            if k > 0 {
                assert(t[k] == u[k - 1]);
            }
        }
        if insert_pos(t, x) < t.len() {
            assert(t[insert_pos(t, x)] == u[insert_pos(u, x)]);
        }
    }
}

/// Inserting into a rank-sorted sequence keeps it rank-sorted and adds
/// exactly the inserted entry.
proof fn lemma_insert_ranked_sorted(t: Seq<(JargonCard, u32)>, x: (JargonCard, u32))
    requires
        is_rank_sorted(t),
    ensures
        is_rank_sorted(insert_ranked(t, x)),
        insert_ranked(t, x).to_multiset() == t.to_multiset().insert(x),
{
    lemma_insert_pos(t, x);
    let p = insert_pos(t, x);
    lemma_insert_ranked_at(t, x, p);
    let u = t.insert(p, x);
    vstd::seq_lib::to_multiset_insert(t, p, x);
    assert forall|i: int, j: int| 0 <= i < j < u.len() implies !entry_before(
        #[trigger] u[j],
        #[trigger] u[i],
    ) by {
        if j < p {
            assert(u[i] == t[i] && u[j] == t[j]);
        } else if i > p {
            assert(u[i] == t[i - 1] && u[j] == t[j - 1]);
        } else if j == p {
            assert(u[i] == t[i]);
        } else if i == p {
            assert(u[j] == t[j - 1]);
            if entry_before(t[j - 1], x) {
                lemma_entry_before_transitive(t[j - 1], x, t[p]);
                if j - 1 == p {
                    lemma_entry_before_irreflexive(t[p]);
                } else {
                    assert(!entry_before(t[j - 1], t[p]));
                }
            }
        } else {
            assert(u[i] == t[i] && u[j] == t[j - 1]);
        }
    }
}

/// `sort_ranked` gives a rank-sorted permutation of its input.
pub proof fn lemma_sort_ranked(s: Seq<(JargonCard, u32)>)
    ensures
        is_rank_sorted(sort_ranked(s)),
        sort_ranked(s).to_multiset() == s.to_multiset(),
        sort_ranked(s).len() == s.len(),
    decreases s.len(),
{
    if s.len() == 0 {
    } else {
        lemma_sort_ranked(s.drop_last());
        lemma_insert_ranked_sorted(sort_ranked(s.drop_last()), s.last());
        vstd::seq_lib::to_multiset_build(s.drop_last(), s.last());
        assert(s.drop_last().push(s.last()) == s);
        vstd::seq_lib::to_multiset_len(sort_ranked(s));
        vstd::seq_lib::to_multiset_len(s);
    }
}

/// Every candidate is a card of the collection with its positive keyword
/// score.
proof fn lemma_scored_candidates(q: Seq<char>, cards: Seq<JargonCard>)
    ensures
        forall|k: int| 0 <= k < scored_candidates(q, cards).len() ==> {
            let e = #[trigger] scored_candidates(q, cards)[k];
            &&& cards.contains(e.0)
            &&& e.1 == keyword_score_of(q, e.0)
            &&& e.1 > 0
        },
        scored_candidates(q, cards).len() <= cards.len(),
    decreases cards.len(),
{
    if cards.len() > 0 {
        let rest = cards.drop_last();
        lemma_scored_candidates(q, rest);
        assert forall|k: int| 0 <= k < scored_candidates(q, cards).len() implies {
            let e = #[trigger] scored_candidates(q, cards)[k];
            &&& cards.contains(e.0)
            &&& e.1 == keyword_score_of(q, e.0)
            &&& e.1 > 0
        } by {
            let e = scored_candidates(q, cards)[k];
            if k < scored_candidates(q, rest).len() {
                assert(e == scored_candidates(q, rest)[k]);
                let j = choose|j: int| 0 <= j < rest.len() && rest[j] == e.0;
                assert(cards[j] == e.0);
            } else {
                assert(cards[cards.len() - 1] == e.0);
            }
        }
    }
}

/// What ranking promises for every query, collection and limit: at most
/// `limit` results; each is a card of the collection with its positive
/// keyword score; they come in rank order; and they are the first of a
/// rank-sorted arrangement of all the matching cards, so that all of them
/// are returned when they are no more than `limit`.
pub proof fn lemma_ranking_laws(query: Seq<char>, cards: Seq<JargonCard>, limit: usize)
    ensures
        ({
            let r = ranked_matches(query, cards, limit);
            let q = trim(query);
            let all = sort_ranked(scored_candidates(q, cards));
            &&& r.len() <= limit
            &&& is_rank_sorted(r)
            &&& forall|k: int| 0 <= k < r.len() ==> {
                &&& cards.contains((#[trigger] r[k]).0)
                &&& r[k].1 == keyword_score_of(q, r[k].0)
                &&& r[k].1 > 0
            }
            &&& q.len() > 0 && limit > 0 ==> {
                &&& is_rank_sorted(all)
                &&& all.to_multiset() == scored_candidates(q, cards).to_multiset()
                &&& r == all.take(r.len() as int)
                &&& r.len() == if all.len() < limit { all.len() } else { limit as nat }
            }
        }),
{
    let q = trim(query);
    let cand = scored_candidates(q, cards);
    let all = sort_ranked(cand);
    let r = ranked_matches(query, cards, limit);
    if q.len() > 0 && limit > 0 {
        lemma_sort_ranked(cand);
        lemma_scored_candidates(q, cards);
        assert forall|k: int| 0 <= k < all.len() implies {
            &&& cards.contains((#[trigger] all[k]).0)
            &&& all[k].1 == keyword_score_of(q, all[k].0)
            &&& all[k].1 > 0
        } by {
            vstd::seq_lib::to_multiset_contains(all, all[k]);
            assert(all.contains(all[k]));
            vstd::seq_lib::to_multiset_contains(cand, all[k]);
            let j = choose|j: int| 0 <= j < cand.len() && cand[j] == all[k];
            assert(cand[j] == all[k]);
        }
        if all.len() <= limit {
            assert(all.take(all.len() as int) == all);
        } else {
            assert forall|k: int| 0 <= k < r.len() implies r[k] == all[k] by {}
        }
    }
}

/// A card with a positive score is among the candidates, with its score.
proof fn lemma_scored_candidates_complete(q: Seq<char>, cards: Seq<JargonCard>, k: int)
    requires
        0 <= k < cards.len(),
        keyword_score_of(q, cards[k]) > 0,
    ensures
        scored_candidates(q, cards).contains((cards[k], keyword_score_of(q, cards[k]))),
    decreases cards.len(),
{
    let rest = cards.drop_last();
    let c = scored_candidates(q, cards);
    if k == cards.len() - 1 {
        assert(c[c.len() - 1] == (cards[k], keyword_score_of(q, cards[k])));
    } else {
        assert(rest[k] == cards[k]);
        lemma_scored_candidates_complete(q, rest, k);
        let r = scored_candidates(q, rest);
        let j = choose|j: int| 0 <= j < r.len() && r[j] == (cards[k], keyword_score_of(q, cards[k]));
        assert(c[j] == r[j]);
    }
}

/// A card whose term or plain meaning is exactly the trimmed query comes
/// first: the first result of a non-blank query with a positive limit then
/// has the top score and is such an exact match (plain text finds its
/// jargon, jargon finds its explanation).
pub proof fn lemma_exact_match_ranks_first(query: Seq<char>, cards: Seq<JargonCard>, limit: usize, k: int)
    requires
        0 <= k < cards.len(),
        cards[k].term@ == trim(query) || cards[k].plain@ == trim(query),
        !is_blank(query),
        limit > 0,
    ensures
        ranked_matches(query, cards, limit).len() > 0,
        ranked_matches(query, cards, limit)[0].1 == 100,
        ranked_matches(query, cards, limit)[0].0.term@ == trim(query)
            || ranked_matches(query, cards, limit)[0].0.plain@ == trim(query),
{
    let q = trim(query);
    let cand = scored_candidates(q, cards);
    let all = sort_ranked(cand);
    assert(keyword_score_of(q, cards[k]) == 100);
    lemma_scored_candidates_complete(q, cards, k);
    lemma_sort_ranked(cand);
    let x = (cards[k], 100u32);
    vstd::seq_lib::to_multiset_contains(cand, x);
    vstd::seq_lib::to_multiset_contains(all, x);
    let j = choose|j: int| 0 <= j < all.len() && all[j] == x;
    if j > 0 {
        assert(!entry_before(all[j], all[0]));
    }
    lemma_ranking_laws(query, cards, limit);
    assert(ranked_matches(query, cards, limit)[0] == all[0]);
    let first = all[0];
    assert(first.1 == keyword_score_of(q, first.0));
}

proof fn lemma_contains_first_char(text: Seq<char>, q: Seq<char>)
    requires
        contains_seq(text, q),
        q.len() > 0,
    ensures
        text.contains(q[0]),
{
    let i = choose|i: int| matches_at(text, q, i);
    assert(text.subrange(i, i + q.len())[0] == text[i]);
    assert(text[i] == q[0]);
}

/// A card scores above zero for a non-empty query exactly when its
/// searchable text holds at least one character of the query, at any
/// position of the query, the last one included.
pub proof fn lemma_positive_score_iff_shared_char(q: Seq<char>, card: JargonCard)
    requires
        q.len() > 0,
    ensures
        keyword_score_of(q, card) > 0 <==> exists|i: int|
            0 <= i < q.len() && searchable_text_of(card).contains(#[trigger] q[i]),
{
    let text = searchable_text_of(card);
    lemma_searchable_text_contains_fields(card);
    if card.term@ == q {
        lemma_contains_first_char(text, q);
        assert(text.contains(q[0]));
    } else if card.plain@ == q {
        lemma_contains_first_char(text, q);
        assert(text.contains(q[0]));
    } else if exists|k: int| 0 <= k < card.queries@.len() && #[trigger] card.queries@[k]@ == q {
        let k = choose|k: int| 0 <= k < card.queries@.len() && #[trigger] card.queries@[k]@ == q;
        assert(contains_seq(text, card.queries@[k]@));
        lemma_contains_first_char(text, q);
        assert(text.contains(q[0]));
    } else if contains_seq(text, q) {
        lemma_contains_first_char(text, q);
        assert(text.contains(q[0]));
    }
}

/// The score tiers: an exact term or plain match scores 100; otherwise an
/// exact query match 95; otherwise the query occurring in the searchable
/// text 75; otherwise a character of the query occurring in it 20;
/// otherwise 0.
pub proof fn lemma_score_tiers(q: Seq<char>, card: JargonCard)
    ensures
        card.term@ == q || card.plain@ == q ==> keyword_score_of(q, card) == 100,
        card.term@ != q && card.plain@ != q && (exists|k: int|
            0 <= k < card.queries@.len() && #[trigger] card.queries@[k]@ == q) ==> keyword_score_of(
            q,
            card,
        ) == 95,
        card.term@ != q && card.plain@ != q && (forall|k: int|
            0 <= k < card.queries@.len() ==> #[trigger] card.queries@[k]@ != q) && contains_seq(
            searchable_text_of(card),
            q,
        ) ==> keyword_score_of(q, card) == 75,
        card.term@ != q && card.plain@ != q && (forall|k: int|
            0 <= k < card.queries@.len() ==> #[trigger] card.queries@[k]@ != q) && !contains_seq(
            searchable_text_of(card),
            q,
        ) ==> (keyword_score_of(q, card) == 20 <==> exists|i: int|
            0 <= i < q.len() && searchable_text_of(card).contains(#[trigger] q[i])),
        keyword_score_of(q, card) == 0 || keyword_score_of(q, card) == 20 || keyword_score_of(q, card)
            == 75 || keyword_score_of(q, card) == 95 || keyword_score_of(q, card) == 100,
{
}

/// With a limit no smaller than the collection, every card whose
/// searchable text holds some character of the trimmed, non-blank query is
/// among the ranked matches.
pub proof fn lemma_shared_char_is_ranked(query: Seq<char>, cards: Seq<JargonCard>, limit: usize, k: int, i: int)
    requires
        0 <= k < cards.len(),
        trim(query).len() > 0,
        limit >= cards.len(),
        0 <= i < trim(query).len(),
        searchable_text_of(cards[k]).contains(trim(query)[i]),
    ensures
        exists|j: int|
            0 <= j < ranked_matches(query, cards, limit).len() && (#[trigger] ranked_matches(
                query,
                cards,
                limit,
            )[j]).0 == cards[k],
{
    let q = trim(query);
    lemma_positive_score_iff_shared_char(q, cards[k]);
    let x = (cards[k], keyword_score_of(q, cards[k]));
    lemma_scored_candidates_complete(q, cards, k);
    lemma_scored_candidates(q, cards);
    let cand = scored_candidates(q, cards);
    let all = sort_ranked(cand);
    lemma_sort_ranked(cand);
    vstd::seq_lib::to_multiset_contains(cand, x);
    vstd::seq_lib::to_multiset_contains(all, x);
    let j = choose|j: int| 0 <= j < all.len() && all[j] == x;
    assert(ranked_matches(query, cards, limit) == all);
    assert(all[j].0 == cards[k]);
}

/// Ranks the cards for `query`: the cards with a positive keyword score,
/// best first (higher score, then term in byte order, then input order),
/// at most `limit` of them. A blank query or a zero limit gives none.
pub fn rank_keyword_matches(query: &str, cards: &[JargonCard], limit: usize) -> (r: Vec<
    SearchResult,
>)
    ensures
        shows_entries(r@, ranked_matches(query@, cards@, limit)),
{
    let q = trim_chars(&str_chars(query));
    if q.len() == 0 || limit == 0 {
        return Vec::new();
    }
    let mut results: Vec<SearchResult> = Vec::new();
    let ghost mut entries: Seq<(JargonCard, u32)> = Seq::empty();
    let mut i: usize = 0;
    while i < cards.len()
        invariant
            i <= cards@.len(),
            q@ == trim(query@),
            q@.len() > 0,
            entries == sort_ranked(scored_candidates(q@, cards@.take(i as int))),
            shows_entries(results@, entries),
        decreases cards.len() - i,
    {
        let card = &cards[i];
        let score = keyword_score(&q, card);
        let ghost prefix = cards@.take(i + 1);
        proof {
            assert(prefix.drop_last() == cards@.take(i as int));
            assert(prefix.last() == *card);
        }
        if score > 0 {
            let result = SearchResult::from_card(card, score);
            let ghost x = (*card, score);
            let mut p: usize = 0;
            while p < results.len() && !result_before(&result, &results[p])
                invariant
                    p <= results@.len(),
                    shows_entries(results@, entries),
                    result.is_result_of(x.0, x.1),
                    forall|k: int| 0 <= k < p ==> !entry_before(x, #[trigger] entries[k]),
                decreases results.len() - p,
            {
                proof {
                    assert(results@[p as int].is_result_of(entries[p as int].0, entries[p as int].1));
                }
                p += 1;
            }
            proof {
                if p < results@.len() {
                    assert(results@[p as int].is_result_of(entries[p as int].0, entries[p as int].1));
                }
                lemma_insert_ranked_at(entries, x, p as int);
                let before = scored_candidates(q@, cards@.take(i as int));
                assert(scored_candidates(q@, prefix) == before.push(x));
                assert(before.push(x).drop_last() == before);
            }
            let ghost old_results = results@;
            results.insert(p, result);
            proof {
                entries = entries.insert(p as int, x);
                assert forall|k: int| 0 <= k < results@.len() implies #[trigger] results@[k].is_result_of(
                    entries[k].0,
                    entries[k].1,
                ) by {
                    if k < p {
                        assert(results@[k] == old_results[k]);
                    } else if k > p {
                        assert(results@[k] == old_results[k - 1]);
                    }
                }
            }
        } else {
            proof {
                assert(scored_candidates(q@, prefix) == scored_candidates(q@, cards@.take(i as int)));
            }
        }
        i += 1;
    }
    proof {
        assert(cards@.take(cards@.len() as int) == cards@);
    }
    let ghost full = results@;
    results.truncate(limit);
    proof {
        if full.len() > limit {
            assert forall|k: int| 0 <= k < results@.len() implies #[trigger] results@[k].is_result_of(
                entries.take(limit as int)[k].0,
                entries.take(limit as int)[k].1,
            ) by {
                assert(results@[k] == full[k]);
            }
        }
    }
    results
}

} // verus!
