//! The jargon card, the text that a search reads from it, and the index
//! document derived from it.
use vstd::prelude::*;

use crate::text::{
    append_chars, contains_seq, lemma_contains_transitive, lemma_join_contains, chars_of_strings, clone_strings, join, join_exec, str_chars, string_from_chars,
    trim, trim_chars, trimmed_non_blank, trimmed_non_blank_exec, views,
};

verus! {

/// One entry of the corpus: a jargon term, its plain meaning and the text
/// around it.
#[derive(Debug, Clone, PartialEq, Eq)]
pub struct JargonCard {
    pub id: String,
    pub term: String,
    pub plain: String,
    pub explanation: String,
    pub examples: Vec<String>,
    pub queries: Vec<String>,
    pub tags: Vec<String>,
    pub source: String,
    pub verified: bool,
}

/// The text that keyword search reads from a card: term, plain meaning,
/// explanation, examples, queries and tags, joined by single spaces.
pub open spec fn searchable_text_of(card: JargonCard) -> Seq<char> {
    join(
        seq![
            card.term@,
            card.plain@,
            card.explanation@,
            join(views(card.examples@), " "@),
            join(views(card.queries@), " "@),
            join(views(card.tags@), " "@),
        ],
        " "@,
    )
}

/// The non-blank items, trimmed and joined by `" | "`.
pub open spec fn join_non_empty_of(items: Seq<Seq<char>>) -> Seq<char> {
    join(trimmed_non_blank(items), " | "@)
}

/// A labelled section of an index document, added only for a non-empty list.
pub open spec fn with_list_section(
    sections: Seq<Seq<char>>,
    label: Seq<char>,
    items: Seq<Seq<char>>,
) -> Seq<Seq<char>> {
    if items.len() > 0 {
        sections.push(label + join_non_empty_of(items))
    } else {
        sections
    }
}

/// Every field that keyword search reads occurs in a card's searchable
/// text: term, plain meaning, explanation, and each example, query and tag.
pub proof fn lemma_searchable_text_contains_fields(card: JargonCard)
    ensures
        contains_seq(searchable_text_of(card), card.term@),
        contains_seq(searchable_text_of(card), card.plain@),
        contains_seq(searchable_text_of(card), card.explanation@),
        forall|k: int|
            0 <= k < card.examples@.len() ==> contains_seq(
                searchable_text_of(card),
                #[trigger] card.examples@[k]@,
            ),
        forall|k: int|
            0 <= k < card.queries@.len() ==> contains_seq(
                searchable_text_of(card),
                #[trigger] card.queries@[k]@,
            ),
        forall|k: int|
            0 <= k < card.tags@.len() ==> contains_seq(
                searchable_text_of(card),
                #[trigger] card.tags@[k]@,
            ),
{
    let parts = seq![
        card.term@,
        card.plain@,
        card.explanation@,
        join(views(card.examples@), " "@),
        join(views(card.queries@), " "@),
        join(views(card.tags@), " "@),
    ];
    let text = searchable_text_of(card);
    lemma_join_contains(parts, " "@, 0);
    lemma_join_contains(parts, " "@, 1);
    lemma_join_contains(parts, " "@, 2);
    lemma_join_contains(parts, " "@, 3);
    lemma_join_contains(parts, " "@, 4);
    lemma_join_contains(parts, " "@, 5);
    assert forall|k: int| 0 <= k < card.examples@.len() implies contains_seq(
        text,
        #[trigger] card.examples@[k]@,
    ) by {
        lemma_join_contains(views(card.examples@), " "@, k);
        lemma_contains_transitive(text, parts[3], card.examples@[k]@);
    }
    assert forall|k: int| 0 <= k < card.queries@.len() implies contains_seq(
        text,
        #[trigger] card.queries@[k]@,
    ) by {
        lemma_join_contains(views(card.queries@), " "@, k);
        lemma_contains_transitive(text, parts[4], card.queries@[k]@);
    }
    assert forall|k: int| 0 <= k < card.tags@.len() implies contains_seq(
        text,
        #[trigger] card.tags@[k]@,
    ) by {
        lemma_join_contains(views(card.tags@), " "@, k);
        lemma_contains_transitive(text, parts[5], card.tags@[k]@);
    }
}

/// The sections of an index document: term, plain and explanation, then
/// examples, queries and tags where the card has any.
pub open spec fn index_sections_of(card: JargonCard) -> Seq<Seq<char>> {
    let base = seq![
        "term: "@ + trim(card.term@),
        "plain: "@ + trim(card.plain@),
        "explanation: "@ + trim(card.explanation@),
    ];
    let s1 = with_list_section(base, "examples: "@, views(card.examples@));
    let s2 = with_list_section(s1, "queries: "@, views(card.queries@));
    with_list_section(s2, "tags: "@, views(card.tags@))
}

/// The content of an index document: its sections, one per line.
pub open spec fn index_content_of(card: JargonCard) -> Seq<char> {
    join(index_sections_of(card), "\n"@)
}

/// The record that an embedding index stores for one card.
#[derive(Debug, Clone, PartialEq, Eq)]
pub struct IndexDocument {
    pub id: String,
    pub term: String,
    pub plain: String,
    pub explanation: String,
    pub tags: Vec<String>,
    pub source: String,
    pub verified: bool,
    pub content: String,
}

/// `label` followed by the string's trimmed text.
fn labelled_trimmed(label: &str, value: &String) -> (r: Vec<char>)
    ensures
        r@ == label@ + trim(value@),
{
    let mut r = str_chars(label);
    let t = trim_chars(&str_chars(value.as_str()));
    append_chars(&mut r, &t);
    r
}

/// The non-blank items, trimmed and joined by `" | "`.
fn join_non_empty(items: &Vec<String>) -> (r: Vec<char>)
    ensures
        r@ == join_non_empty_of(views(items@)),
{
    join_exec(&trimmed_non_blank_exec(items), &str_chars(" | "))
}

/// Appends the section `label` + the joined non-blank items, when `items`
/// is not empty.
fn push_list_section(sections: &mut Vec<Vec<char>>, label: &str, items: &Vec<String>)
    ensures
        views(final(sections)@) == with_list_section(views(old(sections)@), label@, views(items@)),
{
    if items.len() > 0 {
        let mut section = str_chars(label);
        let joined = join_non_empty(items);
        append_chars(&mut section, &joined);
        let ghost before = sections@;
        sections.push(section);
        proof {
            assert(views(sections@) =~= views(before).push(section@));
        }
    }
}

/// The content of the index document of `card`.
fn build_index_content(card: &JargonCard) -> (r: String)
    ensures
        r@ == index_content_of(*card),
{
    let mut sections: Vec<Vec<char>> = Vec::new();
    sections.push(labelled_trimmed("term: ", &card.term));
    sections.push(labelled_trimmed("plain: ", &card.plain));
    sections.push(labelled_trimmed("explanation: ", &card.explanation));
    proof {
        assert(views(sections@) =~= seq![
            "term: "@ + trim(card.term@),
            "plain: "@ + trim(card.plain@),
            "explanation: "@ + trim(card.explanation@),
        ]);
    }
    push_list_section(&mut sections, "examples: ", &card.examples);
    push_list_section(&mut sections, "queries: ", &card.queries);
    push_list_section(&mut sections, "tags: ", &card.tags);
    string_from_chars(&join_exec(&sections, &str_chars("\n")))
}

impl JargonCard {
    /// The text that keyword search reads from this card.
    pub fn searchable_text(&self) -> (r: String)
        ensures
            r@ == searchable_text_of(*self),
    {
        let space = str_chars(" ");
        let mut parts: Vec<Vec<char>> = Vec::new();
        parts.push(str_chars(self.term.as_str()));
        parts.push(str_chars(self.plain.as_str()));
        parts.push(str_chars(self.explanation.as_str()));
        parts.push(join_exec(&chars_of_strings(&self.examples), &space));
        parts.push(join_exec(&chars_of_strings(&self.queries), &space));
        parts.push(join_exec(&chars_of_strings(&self.tags), &space));
        proof {
            assert(views(parts@) =~= seq![
                self.term@,
                self.plain@,
                self.explanation@,
                join(views(self.examples@), " "@),
                join(views(self.queries@), " "@),
                join(views(self.tags@), " "@),
            ]);
        }
        string_from_chars(&join_exec(&parts, &space))
    }

    /// The index document of this card.
    pub fn index_document(&self) -> (r: IndexDocument)
        ensures
            r.is_document_of(*self),
    {
        IndexDocument::from_card(self)
    }
}

impl IndexDocument {
    /// This is the index document of `card`: the card's identity fields
    /// unchanged and the content built from its text.
    pub open spec fn is_document_of(self, card: JargonCard) -> bool {
        &&& self.id@ == card.id@
        &&& self.term@ == card.term@
        &&& self.plain@ == card.plain@
        &&& self.explanation@ == card.explanation@
        &&& self.tags@ == card.tags@
        &&& self.source@ == card.source@
        &&& self.verified == card.verified
        &&& self.content@ == index_content_of(card)
    }

    /// The index document of `card`.
    pub fn from_card(card: &JargonCard) -> (r: Self)
        ensures
            r.is_document_of(*card),
    {
        IndexDocument {
            id: card.id.clone(),
            term: card.term.clone(),
            plain: card.plain.clone(),
            explanation: card.explanation.clone(),
            tags: clone_strings(&card.tags),
            source: card.source.clone(),
            verified: card.verified,
            content: build_index_content(card),
        }
    }
}

/// The index documents of `cards`, in order.
pub fn build_index_documents(cards: &[JargonCard]) -> (r: Vec<IndexDocument>)
    ensures
        r@.len() == cards@.len(),
        forall|i: int| 0 <= i < cards@.len() ==> #[trigger] r@[i].is_document_of(cards@[i]),
{
    let mut r: Vec<IndexDocument> = Vec::new();
    let mut i: usize = 0;
    while i < cards.len()
        invariant
            i <= cards@.len(),
            r@.len() == i,
            forall|k: int| 0 <= k < i ==> #[trigger] r@[k].is_document_of(cards@[k]),
        decreases cards.len() - i,
    {
        r.push(cards[i].index_document());
        i += 1;
    }
    r
}

} // verus!
