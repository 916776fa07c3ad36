//! Import of the external jargon corpus: explanation lines of a markdown
//! file become unverified cards with stable ids.
use vstd::prelude::*;
use vstd::utf8::encode_utf8;

use crate::card::JargonCard;
use crate::segment::{split_imported_segments, split_segments_of};
use crate::text::{
    find_first, lemma_find_first, matches_at, contains_exec, contains_item, contains_seq, is_ws, is_whitespace, join, join_exec,
    split_exec, split_on, split_once, split_once_exec, str_chars, string_from_chars,
    strings_of_chars, sub_chars, trim, trim_chars, views,
};

verus! {

/// The source recorded on imported cards.
pub open spec fn imported_source() -> Seq<char> {
    "mcsrainbow/chinese-internet-jargon"@
}

/// A piece of `s` ended by a line feed, without a carriage return before it.
pub open spec fn strip_cr(p: Seq<char>) -> Seq<char> {
    if p.len() > 0 && p.last() == '\r' {
        p.drop_last()
    } else {
        p
    }
}

/// The lines of `s` (`str::lines`): the pieces between line feeds, a
/// carriage return before a line feed dropped, and no empty last line after
/// a final line feed.
pub open spec fn lines_of(s: Seq<char>) -> Seq<Seq<char>> {
    let pieces = split_on(s, seq!['\n']);
    let n = pieces.len() as int;
    let count = if n > 0 && pieces[n - 1].len() == 0 {
        n - 1
    } else {
        n
    };
    Seq::new(count as nat, |k: int| if k < n - 1 { strip_cr(pieces[k]) } else { pieces[k] })
}

/// The lines of `s`.
fn lines_exec(s: &Vec<char>) -> (r: Vec<Vec<char>>)
    ensures
        views(r@) == lines_of(s@),
{
    let mut lf: Vec<char> = Vec::new();
    lf.push('\n');
    proof {
        assert(lf@ == seq!['\n']);
    }
    let pieces = split_exec(s, &lf);
    let n = pieces.len();
    let count = if n > 0 && pieces[n - 1].len() == 0 {
        n - 1
    } else {
        n
    };
    let mut r: Vec<Vec<char>> = Vec::new();
    let mut k: usize = 0;
    while k < count
        invariant
            count <= n == pieces@.len(),
            views(pieces@) == split_on(s@, seq!['\n']),
            k <= count,
            r@.len() == k,
            forall|j: int| 0 <= j < k ==> #[trigger] r@[j]@ == lines_of(s@)[j],
            count == lines_of(s@).len(),
        decreases count - k,
    {
        let p = &pieces[k];
        let ghost pv = views(pieces@)[k as int];
        if k + 1 < n && p.len() > 0 && p[p.len() - 1] == '\r' {
            r.push(sub_chars(p, 0, p.len() - 1));
        } else {
            r.push(sub_chars(p, 0, p.len()));
        }
        proof {
            assert(p@ == pv);
            assert(p@.subrange(0, p@.len() as int) == p@);
        }
        k += 1;
    }
    proof {
        assert(views(r@) =~= lines_of(s@));
    }
    r
}

/// A character that may lead an explanation line: a list marker or
/// whitespace.
pub open spec fn is_marker(c: char) -> bool {
    c == '-' || c == '*' || is_ws(c)
}

/// `s` without its leading markers (`str::trim_start_matches`).
pub open spec fn strip_markers(s: Seq<char>) -> Seq<char>
    decreases s.len(),
{
    if s.len() > 0 && is_marker(s[0]) {
        strip_markers(s.drop_first())
    } else {
        s
    }
}

proof fn lemma_strip_markers(s: Seq<char>, k: int)
    requires
        0 <= k <= s.len(),
        forall|i: int| 0 <= i < k ==> is_marker(#[trigger] s[i]),
        k == s.len() || !is_marker(s[k]),
    ensures
        strip_markers(s) == s.skip(k),
    decreases k,
{
    if k == 0 {
        assert(s.skip(0) == s);
    } else {
        let t = s.drop_first();
        assert forall|i: int| 0 <= i < k - 1 implies is_marker(#[trigger] t[i]) by {
            assert(t[i] == s[i + 1]);
        }
        lemma_strip_markers(t, k - 1);
        assert(t.skip(k - 1) == s.skip(k));
    }
}

/// The term and the explanation of an explanation line: the line without
/// leading markers, cut at the first `" - "`, else the first `" — "`, else
/// the first full-width colon; both parts trimmed and non-empty.
pub open spec fn explanation_line_of(line: Seq<char>) -> Option<(Seq<char>, Seq<char>)> {
    let n = trim(strip_markers(line));
    let parts = match split_once(n, " - "@) {
        Some(p) => Some(p),
        None => match split_once(n, " — "@) {
            Some(p) => Some(p),
            None => split_once(n, "："@),
        },
    };
    match parts {
        None => None,
        Some((a, b)) => if trim(a).len() == 0 || trim(b).len() == 0 {
            None
        } else {
            Some((trim(a), trim(b)))
        },
    }
}

/// An explanation line is cut at its first `" - "`, whatever other
/// separators it holds: when the marker-stripped, trimmed line `n` holds
/// `" - "` first at `k` and both sides are non-blank once trimmed, the entry
/// is the trimmed text before `k` and the trimmed text after the separator.
pub proof fn lemma_dash_separator_first(line: Seq<char>, k: int)
    requires
        matches_at(trim(strip_markers(line)), " - "@, k),
        forall|j: int| 0 <= j < k ==> !#[trigger] matches_at(trim(strip_markers(line)), " - "@, j),
        trim(trim(strip_markers(line)).take(k)).len() > 0,
        trim(trim(strip_markers(line)).skip(k + 3)).len() > 0,
    ensures
        explanation_line_of(line) == Some(
            (trim(trim(strip_markers(line)).take(k)), trim(trim(strip_markers(line)).skip(k + 3))),
        ),
{
    reveal_strlit(" - ");
    let n = trim(strip_markers(line));
    lemma_find_first(n, " - "@);
    crate::text::lemma_find_from(n, " - "@, 0);
    match find_first(n, " - "@) {
        Some(m) => {
            if m < k {
                assert(!matches_at(n, " - "@, m));
            }
            if m > k {
                assert(!matches_at(n, " - "@, k));
            }
        },
        None => {
            assert(!matches_at(n, " - "@, k));
        },
    }
}

/// With no `" - "` in the line, it is cut at its first `" — "`, whatever
/// full-width colons it holds.
pub proof fn lemma_em_dash_separator_second(line: Seq<char>, k: int)
    requires
        !contains_seq(trim(strip_markers(line)), " - "@),
        matches_at(trim(strip_markers(line)), " — "@, k),
        forall|j: int| 0 <= j < k ==> !#[trigger] matches_at(trim(strip_markers(line)), " — "@, j),
        trim(trim(strip_markers(line)).take(k)).len() > 0,
        trim(trim(strip_markers(line)).skip(k + 3)).len() > 0,
    ensures
        explanation_line_of(line) == Some(
            (trim(trim(strip_markers(line)).take(k)), trim(trim(strip_markers(line)).skip(k + 3))),
        ),
{
    reveal_strlit(" — ");
    let n = trim(strip_markers(line));
    lemma_find_first(n, " - "@);
    lemma_find_first(n, " — "@);
    crate::text::lemma_find_from(n, " — "@, 0);
    match find_first(n, " — "@) {
        Some(m) => {
            if m < k {
                assert(!matches_at(n, " — "@, m));
            }
            if m > k {
                assert(!matches_at(n, " — "@, k));
            }
        },
        None => {
            assert(!matches_at(n, " — "@, k));
        },
    }
}

/// With neither `" - "` nor `" — "` in the line, it is cut at its first
/// full-width colon.
pub proof fn lemma_colon_separator_last(line: Seq<char>, k: int)
    requires
        !contains_seq(trim(strip_markers(line)), " - "@),
        !contains_seq(trim(strip_markers(line)), " — "@),
        matches_at(trim(strip_markers(line)), "："@, k),
        forall|j: int| 0 <= j < k ==> !#[trigger] matches_at(trim(strip_markers(line)), "："@, j),
        trim(trim(strip_markers(line)).take(k)).len() > 0,
        trim(trim(strip_markers(line)).skip(k + 1)).len() > 0,
    ensures
        explanation_line_of(line) == Some(
            (trim(trim(strip_markers(line)).take(k)), trim(trim(strip_markers(line)).skip(k + 1))),
        ),
{
    reveal_strlit("：");
    let n = trim(strip_markers(line));
    lemma_find_first(n, " - "@);
    lemma_find_first(n, " — "@);
    lemma_find_first(n, "："@);
    crate::text::lemma_find_from(n, "："@, 0);
    match find_first(n, "："@) {
        Some(m) => {
            if m < k {
                assert(!matches_at(n, "："@, m));
            }
            if m > k {
                assert(!matches_at(n, "："@, k));
            }
        },
        None => {
            assert(!matches_at(n, "："@, k));
        },
    }
}

/// A line that holds no separator at all is not an explanation line.
pub proof fn lemma_no_separator_no_entry(line: Seq<char>)
    requires
        !contains_seq(trim(strip_markers(line)), " - "@),
        !contains_seq(trim(strip_markers(line)), " — "@),
        !contains_seq(trim(strip_markers(line)), "："@),
    ensures
        explanation_line_of(line) is None,
{
    let n = trim(strip_markers(line));
    lemma_find_first(n, " - "@);
    lemma_find_first(n, " — "@);
    lemma_find_first(n, "："@);
}

/// The term and the explanation of an explanation line, if it is one.
fn parse_explanation_line(line: &Vec<char>) -> (r: Option<(Vec<char>, Vec<char>)>)
    ensures
        match r {
            Some((a, b)) => explanation_line_of(line@) == Some((a@, b@)),
            None => explanation_line_of(line@) is None,
        },
{
    let mut k: usize = 0;
    while k < line.len() && (line[k] == '-' || line[k] == '*' || is_whitespace(line[k]))
        invariant
            k <= line@.len(),
            forall|i: int| 0 <= i < k ==> is_marker(#[trigger] line@[i]),
        decreases line.len() - k,
    {
        k += 1;
    }
    proof {
        lemma_strip_markers(line@, k as int);
    }
    let normalized = trim_chars(&sub_chars(line, k, line.len()));
    proof {
        assert(line@.subrange(k as int, line@.len() as int) == line@.skip(k as int));
    }
    let parts = match split_once_exec(&normalized, &str_chars(" - ")) {
        Some(p) => Some(p),
        None => match split_once_exec(&normalized, &str_chars(" — ")) {
            Some(p) => Some(p),
            None => split_once_exec(&normalized, &str_chars("：")),
        },
    };
    match parts {
        None => None,
        Some((a, b)) => {
            let term = trim_chars(&a);
            let explanation = trim_chars(&b);
            if term.len() == 0 || explanation.len() == 0 {
                None
            } else {
                Some((term, explanation))
            }
        },
    }
}

/// The 64-bit FNV-1a hash of `bytes`.
pub open spec fn fnv1a(bytes: Seq<u8>) -> u64
    decreases bytes.len(),
{
    if bytes.len() == 0 {
        0xcbf29ce484222325u64
    } else {
        vstd::wrapping::u64_specs::wrapping_mul(
            fnv1a(bytes.drop_last()) ^ (bytes.last() as u64),
            0x100000001b3u64,
        )
    }
}

/// The 64-bit FNV-1a hash of `bytes`, which keeps imported ids stable
/// across platforms.
pub fn stable_hash(bytes: &[u8]) -> (h: u64)
    ensures
        h == fnv1a(bytes@),
{
    let mut hash: u64 = 0xcbf29ce484222325u64;
    let mut i: usize = 0;
    while i < bytes.len()
        invariant
            i <= bytes@.len(),
            hash == fnv1a(bytes@.take(i as int)),
        decreases bytes.len() - i,
    {
        proof {
            assert(bytes@.take(i + 1).drop_last() == bytes@.take(i as int));
            assert(bytes@.take(i + 1).last() == bytes@[i as int]);
        }
        hash = hash ^ (bytes[i] as u64);
        hash = hash.wrapping_mul(0x100000001b3u64);
        i += 1;
    }
    proof {
        assert(bytes@.take(bytes@.len() as int) == bytes@);
    }
    hash
}

/// The lowercase hexadecimal digit for `d < 16`.
pub open spec fn hex_digit(d: u64) -> char {
    if d < 10 {
        (d + 48) as char
    } else {
        (d + 87) as char
    }
}

/// The last `n` hexadecimal digits of `h`, most significant first.
pub open spec fn hex_digits(h: u64, n: nat) -> Seq<char>
    decreases n,
{
    if n == 0 {
        Seq::empty()
    } else {
        hex_digits(h / 16, (n - 1) as nat).push(hex_digit(h % 16))
    }
}

/// The lowercase hexadecimal digit for `d < 16`.
fn hex_digit_exec(d: u64) -> (c: char)
    requires
        d < 16,
    ensures
        c == hex_digit(d),
{
    let b = d as u8;
    if b < 10 {
        (b + 48) as char
    } else {
        (b + 87) as char
    }
}

/// The last `n` hexadecimal digits of `h`, most significant first.
fn hex_digits_exec(h: u64, n: usize) -> (r: Vec<char>)
    ensures
        r@ == hex_digits(h, n as nat),
    decreases n,
{
    if n == 0 {
        Vec::new()
    } else {
        let mut r = hex_digits_exec(h / 16, n - 1);
        r.push(hex_digit_exec(h % 16));
        r
    }
}

/// The id of the card imported for `term`: a fixed prefix and the FNV-1a
/// hash of the term's UTF-8 bytes in 16 lowercase hexadecimal digits.
pub open spec fn imported_card_id_of(term: Seq<char>) -> Seq<char> {
    "jargon_mcsrainbow_"@ + hex_digits(fnv1a(encode_utf8(term)), 16)
}

/// The id of the card imported for `term`.
pub fn imported_card_id(term: &str) -> (r: String)
    ensures
        r@ == imported_card_id_of(term@),
{
    let mut id = str_chars("jargon_mcsrainbow_");
    let digits = hex_digits_exec(stable_hash(term.as_bytes()), 16);
    crate::text::append_chars(&mut id, &digits);
    string_from_chars(&id)
}

/// The card fields derived from one imported explanation.
pub struct NormalizedImportedText {
    pub plain: String,
    pub explanation: String,
    pub queries: Vec<String>,
}

/// The plain meaning of an imported explanation: its first meaning.
pub open spec fn imported_plain_of(raw: Seq<char>) -> Seq<char> {
    let segments = split_segments_of(raw);
    if segments.len() > 0 {
        segments[0]
    } else {
        trim(raw)
    }
}

/// The explanation of an imported entry: its meanings joined by a
/// full-width semicolon.
pub open spec fn imported_explanation_of(raw: Seq<char>) -> Seq<char> {
    join(split_segments_of(raw), "；"@)
}

/// Cleans an imported explanation and derives the plain meaning, the
/// explanation and the queries from it.
pub fn normalize_imported_text(raw: &Vec<char>) -> (r: NormalizedImportedText)
    ensures
        split_segments_of(raw@).len() > 0,
        r.plain@ == split_segments_of(raw@)[0],
        r.plain@ == imported_plain_of(raw@),
        r.explanation@ == imported_explanation_of(raw@),
        views(r.queries@) == split_segments_of(raw@),
{
    let segments = split_imported_segments(raw);
    let plain = string_from_chars(&segments[0]);
    let explanation = string_from_chars(&join_exec(&segments, &str_chars("；")));
    NormalizedImportedText { plain, explanation, queries: strings_of_chars(&segments) }
}

/// `card` is the card imported for `term` with the explanation `raw`.
pub open spec fn is_imported_card(card: JargonCard, term: Seq<char>, raw: Seq<char>) -> bool {
    &&& card.id@ == imported_card_id_of(term)
    &&& card.term@ == term
    &&& card.plain@ == imported_plain_of(raw)
    &&& card.explanation@ == imported_explanation_of(raw)
    &&& card.examples@.len() == 0
    &&& views(card.queries@) == split_segments_of(raw)
    &&& views(card.tags@) == seq!["external"@, "jargon"@]
    &&& card.source@ == imported_source()
    &&& !card.verified
}

/// Reading state: whether the current section holds explanations, and the
/// (term, explanation) entries taken so far.
pub type ImportState = (bool, Seq<(Seq<char>, Seq<char>)>);

/// Some entry has this term.
pub open spec fn has_term(entries: Seq<(Seq<char>, Seq<char>)>, term: Seq<char>) -> bool {
    exists|k: int| 0 <= k < entries.len() && (#[trigger] entries[k]).0 == term
}

/// A section heading is an explanation section when it names explanations
/// (解释) and not translations (翻译).
pub open spec fn is_explanation_heading(t: Seq<char>) -> bool {
    contains_seq(t, "解释"@) && !contains_seq(t, "翻译"@)
}

/// The state after reading one line: a heading (`#` after trimming) opens
/// or closes an explanation section; inside one, an explanation line whose
/// term is new adds an entry; other lines change nothing.
pub open spec fn import_step(st: ImportState, line: Seq<char>) -> ImportState {
    let t = trim(line);
    if t.len() > 0 && t[0] == '#' {
        (is_explanation_heading(t), st.1)
    } else if !st.0 {
        st
    } else {
        match explanation_line_of(t) {
            None => st,
            Some((term, raw)) => if has_term(st.1, term) {
                st
            } else {
                (st.0, st.1.push((term, raw)))
            },
        }
    }
}

/// The state after reading the first `n` lines.
pub open spec fn import_upto(lines: Seq<Seq<char>>, n: int) -> ImportState
    decreases n,
{
    if n <= 0 {
        (false, Seq::empty())
    } else {
        import_step(import_upto(lines, n - 1), lines[n - 1])
    }
}

/// The (term, explanation) entries that a markdown file yields, in order.
pub open spec fn imported_entries(markdown: Seq<char>) -> Seq<(Seq<char>, Seq<char>)> {
    let lines = lines_of(markdown);
    import_upto(lines, lines.len() as int).1
}

/// No two entries have the same term.
pub open spec fn terms_distinct(entries: Seq<(Seq<char>, Seq<char>)>) -> bool {
    forall|i: int, j: int| 0 <= i < j < entries.len() ==> (#[trigger] entries[i]).0 != (#[trigger] entries[j]).0
}

proof fn lemma_import_upto_distinct(lines: Seq<Seq<char>>, n: int)
    requires
        0 <= n <= lines.len(),
    ensures
        terms_distinct(import_upto(lines, n).1),
    decreases n,
{
    if n > 0 {
        lemma_import_upto_distinct(lines, n - 1);
        let before = import_upto(lines, n - 1).1;
        let after = import_upto(lines, n).1;
        if after != before {
            let x = after.last();
            assert(after == before.push(x));
            assert(!has_term(before, x.0));
            assert forall|i: int, j: int| 0 <= i < j < after.len() implies (#[trigger] after[i]).0
                != (#[trigger] after[j]).0 by {
                if j == after.len() - 1 {
                    assert(after[i] == before[i]);
                } else {
                    assert(after[i] == before[i] && after[j] == before[j]);
                }
            }
        }
    }
}

/// An import never yields two cards for the same term: a repeated term
/// keeps its first explanation.
pub proof fn lemma_imported_terms_distinct(markdown: Seq<char>)
    ensures
        terms_distinct(imported_entries(markdown)),
{
    let lines = lines_of(markdown);
    lemma_import_upto_distinct(lines, lines.len() as int);
}

/// Every imported entry has a non-empty term and explanation, both trimmed.
pub proof fn lemma_imported_entries_non_empty(markdown: Seq<char>)
    ensures
        forall|i: int|
            0 <= i < imported_entries(markdown).len() ==> {
                &&& (#[trigger] imported_entries(markdown)[i]).0.len() > 0
                &&& imported_entries(markdown)[i].1.len() > 0
            },
{
    let lines = lines_of(markdown);
    lemma_import_upto_non_empty(lines, lines.len() as int);
}

proof fn lemma_import_upto_non_empty(lines: Seq<Seq<char>>, n: int)
    requires
        0 <= n <= lines.len(),
    ensures
        forall|i: int|
            0 <= i < import_upto(lines, n).1.len() ==> {
                &&& (#[trigger] import_upto(lines, n).1[i]).0.len() > 0
                &&& import_upto(lines, n).1[i].1.len() > 0
            },
    decreases n,
{
    if n > 0 {
        lemma_import_upto_non_empty(lines, n - 1);
        let before = import_upto(lines, n - 1).1;
        let after = import_upto(lines, n).1;
        if after != before {
            assert forall|i: int| 0 <= i < after.len() implies {
                &&& (#[trigger] after[i]).0.len() > 0
                &&& after[i].1.len() > 0
            } by {
                if i < before.len() {
                    assert(after[i] == before[i]);
                }
            }
        }
    }
}

/// A line whose trimmed text starts with `#` is a section heading.
pub open spec fn is_heading(line: Seq<char>) -> bool {
    trim(line).len() > 0 && trim(line)[0] == '#'
}

/// Line `i` lies in an explanation section: the last heading before it
/// names explanations and not translations.
pub open spec fn section_open(lines: Seq<Seq<char>>, i: int) -> bool
    decreases i,
{
    if i <= 0 {
        false
    } else if is_heading(lines[i - 1]) {
        is_explanation_heading(trim(lines[i - 1]))
    } else {
        section_open(lines, i - 1)
    }
}

/// The (term, explanation) pairs of the eligible lines among the first `n`:
/// lines that are not headings, lie in an explanation section and parse as
/// explanation lines once trimmed.
pub open spec fn eligible_pairs(lines: Seq<Seq<char>>, n: int) -> Seq<(Seq<char>, Seq<char>)>
    decreases n,
{
    if n <= 0 {
        Seq::empty()
    } else {
        let rest = eligible_pairs(lines, n - 1);
        let line = lines[n - 1];
        if !is_heading(line) && section_open(lines, n - 1) && explanation_line_of(trim(line)) is Some {
            rest.push(explanation_line_of(trim(line))->0)
        } else {
            rest
        }
    }
}

/// The pairs with the first pair of each term kept and later ones left out.
pub open spec fn first_by_term(pairs: Seq<(Seq<char>, Seq<char>)>) -> Seq<(Seq<char>, Seq<char>)>
    decreases pairs.len(),
{
    if pairs.len() == 0 {
        pairs
    } else {
        let rest = first_by_term(pairs.drop_last());
        if has_term(rest, pairs.last().0) {
            rest
        } else {
            rest.push(pairs.last())
        }
    }
}

proof fn lemma_import_upto_eligible(lines: Seq<Seq<char>>, n: int)
    requires
        0 <= n <= lines.len(),
    ensures
        import_upto(lines, n) == (section_open(lines, n), first_by_term(eligible_pairs(lines, n))),
    decreases n,
{
    if n > 0 {
        lemma_import_upto_eligible(lines, n - 1);
        let e = eligible_pairs(lines, n - 1);
        let line = lines[n - 1];
        if !is_heading(line) && section_open(lines, n - 1) && explanation_line_of(trim(line)) is Some {
            let x = explanation_line_of(trim(line))->0;
            assert(eligible_pairs(lines, n) == e.push(x));
            assert(e.push(x).drop_last() == e);
            assert(e.push(x).last() == x);
        }
    }
}

/// The import takes, in order, the first explanation of each term among
/// the eligible lines: the lines that are not headings, whose last heading
/// before them names explanations and not translations, and that parse as
/// explanation lines once trimmed.
pub proof fn lemma_import_takes_first_eligible(markdown: Seq<char>)
    ensures
        imported_entries(markdown) == first_by_term(
            eligible_pairs(lines_of(markdown), lines_of(markdown).len() as int),
        ),
{
    let lines = lines_of(markdown);
    lemma_import_upto_eligible(lines, lines.len() as int);
}

/// The card imported for `term` with the explanation `raw`.
fn imported_card(term: &Vec<char>, raw: &Vec<char>) -> (card: JargonCard)
    ensures
        is_imported_card(card, term@, raw@),
{
    let term_string = string_from_chars(term);
    let text = normalize_imported_text(raw);
    let mut tags: Vec<String> = Vec::new();
    tags.push("external".to_owned());
    tags.push("jargon".to_owned());
    proof {
        assert(views(tags@) =~= seq!["external"@, "jargon"@]);
    }
    JargonCard {
        id: imported_card_id(term_string.as_str()),
        term: term_string,
        plain: text.plain,
        explanation: text.explanation,
        examples: Vec::new(),
        queries: text.queries,
        tags,
        source: "mcsrainbow/chinese-internet-jargon".to_owned(),
        verified: false,
    }
}

/// The cards of an external markdown corpus: in each section whose heading
/// names explanations and not translations, each `term - explanation` line
/// (also `term — explanation` and `term：explanation`) whose term was not
/// seen before becomes an unverified card.
pub fn parse_mcsrainbow_markdown(markdown: &str) -> (r: Vec<JargonCard>)
    ensures
        r@.len() == imported_entries(markdown@).len(),
        forall|i: int|
            0 <= i < r@.len() ==> is_imported_card(
                #[trigger] r@[i],
                imported_entries(markdown@)[i].0,
                imported_entries(markdown@)[i].1,
            ),
{
    let lines = lines_exec(&str_chars(markdown));
    let explanation_word = str_chars("解释");
    let translation_word = str_chars("翻译");
    let mut cards: Vec<JargonCard> = Vec::new();
    let mut terms: Vec<Vec<char>> = Vec::new();
    let mut in_section = false;
    let ghost mut entries: Seq<(Seq<char>, Seq<char>)> = Seq::empty();
    let mut i: usize = 0;
    while i < lines.len()
        invariant
            i <= lines@.len(),
            views(lines@) == lines_of(markdown@),
            explanation_word@ == "解释"@,
            translation_word@ == "翻译"@,
            import_upto(views(lines@), i as int) == (in_section, entries),
            cards@.len() == entries.len(),
            terms@.len() == entries.len(),
            forall|k: int| 0 <= k < entries.len() ==> #[trigger] terms@[k]@ == entries[k].0,
            forall|k: int|
                0 <= k < entries.len() ==> is_imported_card(
                    #[trigger] cards@[k],
                    entries[k].0,
                    entries[k].1,
                ),
        decreases lines.len() - i,
    {
        let t = trim_chars(&lines[i]);
        proof {
            assert(views(lines@)[i as int] == lines@[i as int]@);
        }
        if t.len() > 0 && t[0] == '#' {
            in_section = contains_exec(&t, &explanation_word) && !contains_exec(
                &t,
                &translation_word,
            );
        } else if in_section {
            match parse_explanation_line(&t) {
                None => {},
                Some((term, raw)) => {
                    let seen = contains_item(&terms, &term);
                    proof {
                        if seen {
                            let k = choose|k: int|
                                0 <= k < terms@.len() && #[trigger] views(terms@)[k] == term@;
                            assert(entries[k].0 == term@);
                        }
                        if has_term(entries, term@) {
                            let k = choose|k: int|
                                0 <= k < entries.len() && (#[trigger] entries[k]).0 == term@;
                            assert(views(terms@)[k] == term@);
                        }
                    }
                    if !seen {
                        let card = imported_card(&term, &raw);
                        cards.push(card);
                        terms.push(term);
                        proof {
                            entries = entries.push((term@, raw@));
                        }
                    }
                },
            }
        }
        i += 1;
    }
    proof {
        assert(import_upto(views(lines@), lines@.len() as int).1 == entries);
    }
    cards
}

} // verus!
