//! The decisions of the search API: parameters, error answers and the
//! mapping of vector-search matches to cards.
use vstd::prelude::*;

use crate::index::SearchIndex;
use crate::search::{normalize_query, SearchQueryError};
use crate::text::{
    blank, is_blank, split_exec, split_on, str_chars, string_from_chars, trim, trim_chars,
    trimmed_non_blank, views,
};

verus! {

/// The number of results when the request names no limit.
pub const DEFAULT_LIMIT: usize = 10;

/// The largest number of results a request can ask for.
pub const MAX_LIMIT: usize = 50;

/// The longest query, in characters.
pub const MAX_QUERY_CHARS: usize = 200;

/// Where the vector index lives and which embedding model reads queries.
#[derive(Debug, Clone)]
pub struct LanceDbSearchConfig {
    pub db_path: String,
    pub table_name: String,
    pub model_name: String,
}

/// An error answer of the API: HTTP status, error code and message.
#[derive(Debug, Clone)]
pub struct ApiError {
    pub status: u16,
    pub error: &'static str,
    pub message: &'static str,
}

/// `e` is the answer to a refused query.
pub open spec fn is_invalid_query_error(e: ApiError) -> bool {
    &&& e.status == 400
    &&& e.error@ == "invalid_query"@
    &&& e.message@ == "q must be present, non-empty, and within the character limit"@
}

/// `e` is the answer to a limit that is not an integer.
pub open spec fn is_invalid_limit_error(e: ApiError) -> bool {
    &&& e.status == 400
    &&& e.error@ == "invalid_limit"@
    &&& e.message@ == "limit must be an integer value"@
}

/// `e` is the answer to a failure of the search backend.
pub open spec fn is_search_failed_error(e: ApiError) -> bool {
    &&& e.status == 500
    &&& e.error@ == "search_failed"@
    &&& e.message@ == "search backend failed"@
}

impl ApiError {
    /// The answer to a refused query, whatever the reason.
    pub fn from_query_error(_error: SearchQueryError) -> (r: Self)
        ensures
            is_invalid_query_error(r),
    {
        ApiError {
            status: 400,
            error: "invalid_query",
            message: "q must be present, non-empty, and within the character limit",
        }
    }

    /// The answer to a limit that is not an integer.
    pub fn invalid_limit() -> (r: Self)
        ensures
            is_invalid_limit_error(r),
    {
        ApiError { status: 400, error: "invalid_limit", message: "limit must be an integer value" }
    }

    /// The answer to a failure of the search backend.
    pub fn internal_search_error() -> (r: Self)
        ensures
            is_search_failed_error(r),
    {
        ApiError { status: 500, error: "search_failed", message: "search backend failed" }
    }
}

/// An ASCII decimal digit.
pub open spec fn is_digit(c: char) -> bool {
    '0' <= c && c <= '9'
}

/// The value of a sequence of decimal digits.
pub open spec fn digits_value(d: Seq<char>) -> int
    decreases d.len(),
{
    if d.len() == 0 {
        0
    } else {
        digits_value(d.drop_last()) * 10 + (d.last() as int - 48)
    }
}

/// `s` without a leading sign.
pub open spec fn unsigned_part(s: Seq<char>) -> Seq<char> {
    if s.len() > 0 && (s[0] == '-' || s[0] == '+') {
        s.drop_first()
    } else {
        s
    }
}

/// All characters of `d` are ASCII digits.
pub open spec fn all_digits(d: Seq<char>) -> bool {
    forall|i: int| 0 <= i < d.len() ==> is_digit(#[trigger] d[i])
}

/// The `i64` that `s` writes (`i64::from_str`): an optional `+` or `-`,
/// then one or more ASCII digits, with a value in the range of `i64`.
pub open spec fn parse_i64_of(s: Seq<char>) -> Option<int> {
    let neg = s.len() > 0 && s[0] == '-';
    let d = unsigned_part(s);
    if d.len() == 0 || !all_digits(d) {
        None
    } else {
        let v = if neg {
            -digits_value(d)
        } else {
            digits_value(d)
        };
        if -0x8000_0000_0000_0000 <= v && v <= 0x7fff_ffff_ffff_ffff {
            Some(v)
        } else {
            None
        }
    }
}

proof fn lemma_digits_value_prefix(d: Seq<char>, k: int)
    requires
        0 <= k <= d.len(),
        forall|i: int| 0 <= i < d.len() ==> is_digit(#[trigger] d[i]),
    ensures
        digits_value(d.take(k)) <= digits_value(d),
        0 <= digits_value(d.take(k)),
    decreases d.len() - k,
{
    if k == d.len() {
        assert(d.take(k) == d);
        lemma_digits_value_nonneg(d);
    } else {
        let e = d.take(k + 1);
        assert(e.drop_last() == d.take(k));
        assert(is_digit(d[k]));
        assert(e.last() == d[k]);
        lemma_digits_value_nonneg(d.take(k));
        lemma_digits_value_prefix(d, k + 1);
    }
}

proof fn lemma_digits_value_nonneg(d: Seq<char>)
    requires
        forall|i: int| 0 <= i < d.len() ==> is_digit(#[trigger] d[i]),
    ensures
        0 <= digits_value(d),
    decreases d.len(),
{
    if d.len() > 0 {
        let e = d.drop_last();
        assert forall|i: int| 0 <= i < e.len() implies is_digit(#[trigger] e[i]) by {
            assert(e[i] == d[i]);
        }
        lemma_digits_value_nonneg(e);
        assert(is_digit(d[d.len() - 1]));
    }
}

/// The `i64` that the characters `s` write, if they write one.
fn parse_i64(s: &Vec<char>) -> (r: Option<i64>)
    ensures
        match r {
            Some(v) => parse_i64_of(s@) == Some(v as int),
            None => parse_i64_of(s@) is None,
        },
{
    let neg = s.len() > 0 && s[0] == '-';
    let start: usize = if s.len() > 0 && (s[0] == '-' || s[0] == '+') {
        1
    } else {
        0
    };
    let ghost d = unsigned_part(s@);
    proof {
        assert(d == s@.skip(start as int));
    }
    if start == s.len() {
        return None;
    }
    let mut k: usize = start;
    while k < s.len()
        invariant
            start <= k <= s@.len(),
            d == s@.skip(start as int),
            d == unsigned_part(s@),
            neg == (s@.len() > 0 && s@[0] == '-'),
            forall|i: int| start <= i < k ==> is_digit(#[trigger] s@[i]),
        decreases s.len() - k,
    {
        if !('0' <= s[k] && s[k] <= '9') {
            proof {
                assert(d[k - start] == s@[k as int]);
                assert(!is_digit(d[k - start]));
                assert(!all_digits(d));
                assert(parse_i64_of(s@) is None);
            }
            return None;
        }
        k += 1;
    }
    proof {
        assert forall|i: int| 0 <= i < d.len() implies is_digit(#[trigger] d[i]) by {
            assert(d[i] == s@[i + start]);
        }
    }
    let mut magnitude: u64 = 0;
    let mut j: usize = start;
    while j < s.len()
        invariant
            start <= j <= s@.len(),
            d == s@.skip(start as int),
            d == unsigned_part(s@),
            neg == (s@.len() > 0 && s@[0] == '-'),
            forall|i: int| 0 <= i < d.len() ==> is_digit(#[trigger] d[i]),
            magnitude == digits_value(d.take(j - start)),
        decreases s.len() - j,
    {
        proof {
            let e = d.take(j - start + 1);
            assert(e.drop_last() == d.take(j - start));
            assert(e.last() == s@[j as int]);
            assert(d[j - start] == s@[j as int]);
            assert(is_digit(d[j - start]));
            lemma_digits_value_prefix(d, j - start + 1);
            lemma_digits_value_prefix(d, j - start);
        }
        let digit = (s[j] as u32 - 48) as u64;
        assert(digit as int == s@[j as int] as int - 48);
        let ghost next_value = digits_value(d.take(j - start + 1));
        proof {
            let e = d.take(j - start + 1);
            assert(next_value == digits_value(e.drop_last()) * 10 + (e.last() as int - 48));
            assert(next_value == magnitude * 10 + digit);
            assert(next_value <= digits_value(d));
        }
        match magnitude.checked_mul(10) {
            None => {
                proof {
                    assert(digits_value(d) > 0xffff_ffff_ffff_ffff);
                    assert(parse_i64_of(s@) is None);
                }
                return None;
            },
            Some(m) => match m.checked_add(digit) {
                None => {
                    proof {
                        assert(digits_value(d) > 0xffff_ffff_ffff_ffff);
                        assert(parse_i64_of(s@) is None);
                    }
                    return None;
                },
                Some(next) => {
                    magnitude = next;
                },
            },
        }
        j += 1;
    }
    proof {
        assert(d.take(d.len() as int) == d);
    }
    if neg {
        if magnitude > 0x8000_0000_0000_0000u64 {
            None
        } else if magnitude == 0x8000_0000_0000_0000u64 {
            Some(-0x8000_0000_0000_0000i64)
        } else {
            Some(-(magnitude as i64))
        }
    } else {
        if magnitude > 0x7fff_ffff_ffff_ffffu64 {
            None
        } else {
            Some(magnitude as i64)
        }
    }
}

/// `v` brought into `[lo, hi]` (`Ord::clamp`).
pub open spec fn clamp(v: int, lo: int, hi: int) -> int {
    if v < lo {
        lo
    } else if v > hi {
        hi
    } else {
        v
    }
}

/// Clamping into a non-empty range lands in the range, leaves a value that
/// is already inside unchanged, and sends one below or above to the nearer
/// end.
pub proof fn lemma_clamp_laws(v: int, lo: int, hi: int)
    requires
        lo <= hi,
    ensures
        lo <= clamp(v, lo, hi) <= hi,
        lo <= v <= hi ==> clamp(v, lo, hi) == v,
        v < lo ==> clamp(v, lo, hi) == lo,
        v > hi ==> clamp(v, lo, hi) == hi,
{
}

/// The number of results a request asks for: the default when it names
/// none, the named integer brought into `1..=MAX_LIMIT`, and a refusal when
/// the limit is not an integer.
pub fn parse_limit(input: Option<&str>) -> (r: Result<usize, ApiError>)
    ensures
        input is None ==> r == Ok::<usize, ApiError>(DEFAULT_LIMIT),
        input matches Some(raw) ==> match parse_i64_of(raw@) {
            Some(v) => r == Ok::<usize, ApiError>(clamp(v, 1, MAX_LIMIT as int) as usize),
            None => r matches Err(e) && is_invalid_limit_error(e),
        },
        r matches Ok(n) ==> 1 <= n <= MAX_LIMIT,
        input is Some && parse_i64_of(input->0@) is Some && 1 <= parse_i64_of(input->0@)->0
            <= MAX_LIMIT ==> r == Ok::<usize, ApiError>(parse_i64_of(input->0@)->0 as usize),
        input is Some && parse_i64_of(input->0@) is Some && parse_i64_of(input->0@)->0 < 1 ==> r
            == Ok::<usize, ApiError>(1),
        input is Some && parse_i64_of(input->0@) is Some && parse_i64_of(input->0@)->0 > MAX_LIMIT
            ==> r == Ok::<usize, ApiError>(MAX_LIMIT),
{
    match input {
        None => Ok(DEFAULT_LIMIT),
        Some(raw) => match parse_i64(&str_chars(raw)) {
            Some(v) => {
                let limit: usize = if v < 1 {
                    1
                } else if v > MAX_LIMIT as i64 {
                    MAX_LIMIT
                } else {
                    v as usize
                };
                Ok(limit)
            },
            None => Err(ApiError::invalid_limit()),
        },
    }
}

/// The query text a request carries: its `q` parameter, empty when absent.
pub open spec fn query_text_of(q: Option<&str>) -> Seq<char> {
    match q {
        Some(s) => s@,
        None => Seq::empty(),
    }
}

/// The normalised query and the limit of a search request, or the error
/// answer: a refused query first, then a limit that is not an integer.
pub fn parse_search_request(q: Option<&str>, limit: Option<&str>) -> (r: Result<
    (String, usize),
    ApiError,
>)
    ensures
        ({
            let text = query_text_of(q);
            if is_blank(text) || trim(text).len() > MAX_QUERY_CHARS {
                r matches Err(e) && is_invalid_query_error(e)
            } else {
                match limit {
                    None => r matches Ok((s, n)) && s@ == trim(text) && n == DEFAULT_LIMIT,
                    Some(raw) => match parse_i64_of(raw@) {
                        Some(v) => r matches Ok((s, n)) && s@ == trim(text) && n == clamp(
                            v,
                            1,
                            MAX_LIMIT as int,
                        ),
                        None => r matches Err(e) && is_invalid_limit_error(e),
                    },
                }
            }
        }),
        !is_blank(query_text_of(q)) && trim(query_text_of(q)).len() <= MAX_QUERY_CHARS && limit is Some
            && parse_i64_of(limit->0@) is Some && 1 <= parse_i64_of(limit->0@)->0 <= MAX_LIMIT ==> (
        r matches Ok((_, n)) && n == parse_i64_of(limit->0@)->0),
{
    let text: &str = match q {
        Some(s) => s,
        None => "",
    };
    proof {
        reveal_strlit("");
        assert(text@ == query_text_of(q));
    }
    let query = match normalize_query(text, MAX_QUERY_CHARS) {
        Ok(query) => query,
        Err(error) => {
            return Err(ApiError::from_query_error(error));
        },
    };
    let n = match parse_limit(limit) {
        Ok(n) => n,
        Err(e) => {
            return Err(e);
        },
    };
    Ok((query, n))
}

/// The card file read when the environment names none.
pub open spec fn default_cards_path() -> Seq<char> {
    "data/processed/cards.json"@
}

/// The card files to load: the non-blank entries of a non-blank
/// colon-separated list, trimmed; otherwise the single path given, or the
/// default path.
pub open spec fn card_paths_of(paths_var: Option<&str>, path_var: Option<&str>) -> Seq<Seq<char>> {
    match paths_var {
        Some(p) if !is_blank(p@) => trimmed_non_blank(split_on(p@, ":"@)),
        _ => match path_var {
            Some(p) => seq![p@],
            None => seq![default_cards_path()],
        },
    }
}

/// The card files to load, from the list variable and the single-path
/// variable of the environment.
pub fn card_paths_from(paths_var: Option<&str>, path_var: Option<&str>) -> (r: Vec<String>)
    ensures
        views(r@) == card_paths_of(paths_var, path_var),
{
    match paths_var {
        Some(p) => {
            let chars = str_chars(p);
            if !blank(&chars) {
                let colon = str_chars(":");
                proof {
                    reveal_strlit(":");
                }
                let pieces = split_exec(&chars, &colon);
                let mut r: Vec<String> = Vec::new();
                let mut i: usize = 0;
                while i < pieces.len()
                    invariant
                        i <= pieces@.len(),
                        views(r@) == trimmed_non_blank(views(pieces@).take(i as int)),
                    decreases pieces.len() - i,
                {
                    let t = trim_chars(&pieces[i]);
                    let ghost before = r@;
                    proof {
                        let pre = views(pieces@).take(i + 1);
                        assert(pre.drop_last() == views(pieces@).take(i as int));
                        assert(pre.last() == pieces@[i as int]@);
                    }
                    if t.len() > 0 {
                        r.push(string_from_chars(&t));
                        proof {
                            assert(views(r@) =~= views(before).push(t@));
                        }
                    }
                    i += 1;
                }
                proof {
                    assert(views(pieces@).take(pieces@.len() as int) == views(pieces@));
                }
                return r;
            }
        },
        None => {},
    }
    let mut r: Vec<String> = Vec::new();
    match path_var {
        Some(p) => r.push(p.to_owned()),
        None => r.push("data/processed/cards.json".to_owned()),
    }
    proof {
        assert(views(r@) =~= card_paths_of(paths_var, path_var));
    }
    r
}

/// The vector index to open, if the environment names a non-blank database
/// path: that path, with the table and the model named or the defaults.
pub fn vector_search_config(
    db_path: Option<&str>,
    table_name: Option<&str>,
    model_name: Option<&str>,
) -> (r: Option<LanceDbSearchConfig>)
    ensures
        match db_path {
            Some(p) if !is_blank(p@) => r matches Some(config) && config.db_path@ == p@
                && config.table_name@ == (match table_name {
                Some(t) => t@,
                None => "index_documents"@,
            }) && config.model_name@ == (match model_name {
                Some(m) => m@,
                None => "paraphrase-multilingual-MiniLM-L12-v2"@,
            }),
            _ => r is None,
        },
{
    match db_path {
        Some(p) => {
            if blank(&str_chars(p)) {
                return None;
            }
            let table = match table_name {
                Some(t) => t.to_owned(),
                None => "index_documents".to_owned(),
            };
            let model = match model_name {
                Some(m) => m.to_owned(),
                None => "paraphrase-multilingual-MiniLM-L12-v2".to_owned(),
            };
            Some(LanceDbSearchConfig { db_path: p.to_owned(), table_name: table, model_name: model })
        },
        None => None,
    }
}

/// Some card of `cards` has the id `id`.
pub open spec fn names_card(cards: Seq<crate::card::JargonCard>, id: Seq<char>) -> bool {
    exists|k: int| 0 <= k < cards.len() && (#[trigger] cards[k]).id@ == id
}

/// The positions of the matches in `ids` whose id names a card, in order.
pub open spec fn matched_positions(cards: Seq<crate::card::JargonCard>, ids: Seq<String>) -> Seq<
    int,
>
    decreases ids.len(),
{
    if ids.len() == 0 {
        Seq::empty()
    } else {
        let rest = matched_positions(cards, ids.drop_last());
        if exists|k: int| 0 <= k < cards.len() && (#[trigger] cards[k]).id@ == ids.last()@ {
            rest.push(ids.len() - 1)
        } else {
            rest
        }
    }
}

/// The vector-search matches, given by their card ids in the order the
/// vector index returned them, resolved to cards: for each match whose id
/// names a card of the index, in the same order, the match's position and
/// the card's position. Matches whose card is unknown are left out.
pub fn resolve_vector_matches(index: &SearchIndex, ids: &Vec<String>) -> (r: Vec<(usize, usize)>)
    ensures
        r@.len() == matched_positions(index@, ids@).len(),
        forall|j: int|
            0 <= j < r@.len() ==> {
                &&& (#[trigger] r@[j]).0 == matched_positions(index@, ids@)[j]
                &&& r@[j].1 < index@.len()
                &&& index@[r@[j].1 as int].id@ == ids@[r@[j].0 as int]@
            },
        forall|m: int|
            0 <= m < ids@.len() && #[trigger] names_card(index@, ids@[m]@) ==> exists|j: int|
                0 <= j < r@.len() && (#[trigger] r@[j]).0 == m,
        forall|j: int| 0 <= j < r@.len() ==> (#[trigger] r@[j]).0 < ids@.len(),
        forall|i: int, j: int| 0 <= i < j < r@.len() ==> (#[trigger] r@[i]).0 < (#[trigger] r@[j]).0,
{
    let mut r: Vec<(usize, usize)> = Vec::new();
    let mut m: usize = 0;
    while m < ids.len()
        invariant
            m <= ids@.len(),
            r@.len() == matched_positions(index@, ids@.take(m as int)).len(),
            forall|j: int|
                0 <= j < r@.len() ==> {
                    &&& (#[trigger] r@[j]).0 == matched_positions(index@, ids@.take(m as int))[j]
                    &&& r@[j].0 < m
                    &&& r@[j].1 < index@.len()
                    &&& index@[r@[j].1 as int].id@ == ids@[r@[j].0 as int]@
                },
            forall|p: int|
                0 <= p < m && #[trigger] names_card(index@, ids@[p]@) ==> exists|j: int|
                    0 <= j < r@.len() && (#[trigger] r@[j]).0 == p,
            forall|i: int, j: int| 0 <= i < j < r@.len() ==> (#[trigger] r@[i]).0 < (#[trigger] r@[j]).0,
        decreases ids.len() - m,
    {
        let ghost pre = ids@.take(m + 1);
        proof {
            assert(pre.drop_last() == ids@.take(m as int));
            assert(pre.last() == ids@[m as int]);
        }
        match index.position_of_id(ids[m].as_str()) {
            Some(c) => {
                let ghost before = r@;
                r.push((m, c));
                proof {
                    assert(index@[c as int].id@ == ids@[m as int]@);
                    assert(matched_positions(index@, pre) == matched_positions(
                        index@,
                        ids@.take(m as int),
                    ).push(m as int));
                    assert forall|j: int| 0 <= j < r@.len() implies (#[trigger] r@[j]).0
                        == matched_positions(index@, pre)[j] by {
                        if j < before.len() {
                            assert(r@[j] == before[j]);
                        }
                    }
                    assert(r@[before.len() as int].0 == m);
                    assert forall|p: int|
                        0 <= p < m + 1 && #[trigger] names_card(index@, ids@[p]@) implies exists|j: int|
                        0 <= j < r@.len() && (#[trigger] r@[j]).0 == p by {
                        if p < m {
                            let j = choose|j: int| 0 <= j < before.len() && (#[trigger] before[j]).0 == p;
                            assert(r@[j] == before[j]);
                        } else {
                            assert(r@[before.len() as int].0 == p);
                        }
                    }
                    assert forall|i: int, j: int| 0 <= i < j < r@.len() implies (#[trigger] r@[i]).0
                        < (#[trigger] r@[j]).0 by {
                        assert(r@[i] == before[i] || i == before.len());
                        if j < before.len() {
                            assert(r@[i] == before[i] && r@[j] == before[j]);
                        } else {
                            assert(r@[i] == before[i]);
                        }
                    }
                }
            },
            None => {
                proof {
                    assert(matched_positions(index@, pre) == matched_positions(
                        index@,
                        ids@.take(m as int),
                    ));
                    assert forall|p: int|
                        0 <= p < m + 1 && #[trigger] names_card(index@, ids@[p]@) implies exists|j: int|
                        0 <= j < r@.len() && (#[trigger] r@[j]).0 == p by {
                        if p == m {
                            let k = choose|k: int|
                                0 <= k < index@.len() && (#[trigger] index@[k]).id@ == ids@[p]@;
                            assert(index@[k].id@ != ids@[m as int]@);
                        }
                    }
                }
            },
        }
        m += 1;
    }
    proof {
        assert(ids@.take(ids@.len() as int) == ids@);
    }
    r
}

} // verus!
