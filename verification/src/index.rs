//! A validated card collection that answers keyword searches and finds
//! cards by id.
use vstd::prelude::*;

use crate::card::JargonCard;
use crate::search::{rank_keyword_matches, ranked_matches, shows_entries, SearchResult};
use crate::text::{chars_eq, is_blank, str_chars, trim};
use crate::validate::{
    card_issues, has_searchable_text_of, is_duplicate_at, issue_views, issues_upto,
    validate_cards, validation_issues, CardValidationError,
};

verus! {

/// The cards of a validated collection, searchable by keyword.
#[derive(Debug)]
pub struct SearchIndex {
    cards: Vec<JargonCard>,
}

/// Card `i` has its required fields and some searchable text.
pub open spec fn card_is_complete(card: JargonCard) -> bool {
    &&& !is_blank(card.id@)
    &&& !is_blank(card.term@)
    &&& !is_blank(card.plain@)
    &&& !is_blank(card.explanation@)
    &&& !is_blank(card.source@)
    &&& has_searchable_text_of(card)
}

/// No two cards have the same trimmed id.
pub open spec fn trimmed_ids_distinct(cards: Seq<JargonCard>) -> bool {
    forall|i: int, j: int|
        0 <= i < j < cards.len() ==> trim(#[trigger] cards[i].id@) != trim(#[trigger] cards[j].id@)
}

proof fn lemma_issues_upto_empty(cards: Seq<JargonCard>, n: int)
    requires
        0 <= n <= cards.len(),
    ensures
        issues_upto(cards, n).len() == 0 <==> forall|i: int|
            0 <= i < n ==> #[trigger] card_issues(cards, i).len() == 0,
    decreases n,
{
    if n > 0 {
        lemma_issues_upto_empty(cards, n - 1);
    }
}

proof fn lemma_card_issues_empty(cards: Seq<JargonCard>, i: int)
    requires
        0 <= i < cards.len(),
    ensures
        card_issues(cards, i).len() == 0 <==> card_is_complete(cards[i]) && !is_duplicate_at(
            cards,
            i,
        ),
{
}

/// A collection passes validation exactly when every card has its required
/// fields and some searchable text, and no two cards share a trimmed id.
pub proof fn lemma_validation_accepts_iff(cards: Seq<JargonCard>)
    ensures
        validation_issues(cards).len() == 0 <==> (forall|i: int|
            0 <= i < cards.len() ==> card_is_complete(#[trigger] cards[i])) && trimmed_ids_distinct(
            cards,
        ),
{
    lemma_issues_upto_empty(cards, cards.len() as int);
    if validation_issues(cards).len() == 0 {
        assert forall|i: int| 0 <= i < cards.len() implies card_is_complete(#[trigger] cards[i]) by {
            assert(card_issues(cards, i).len() == 0);
            lemma_card_issues_empty(cards, i);
        }
        assert forall|i: int, j: int| 0 <= i < j < cards.len() implies trim(
            #[trigger] cards[i].id@,
        ) != trim(#[trigger] cards[j].id@) by {
            assert(card_issues(cards, j).len() == 0);
            lemma_card_issues_empty(cards, j);
            if trim(cards[i].id@) == trim(cards[j].id@) {
                assert(is_duplicate_at(cards, j));
            }
        }
    } else {
        if (forall|i: int| 0 <= i < cards.len() ==> card_is_complete(#[trigger] cards[i]))
            && trimmed_ids_distinct(cards) {
            assert forall|i: int| 0 <= i < cards.len() implies #[trigger] card_issues(cards, i).len()
                == 0 by {
                assert(card_is_complete(cards[i]));
                lemma_card_issues_empty(cards, i);
                if is_duplicate_at(cards, i) {
                    let j = choose|j: int| 0 <= j < i && #[trigger] trim(cards[j].id@) == trim(
                        cards[i].id@,
                    );
                    assert(trim(cards[j].id@) != trim(cards[i].id@));
                }
            }
        }
    }
}

/// In a collection that passes validation no two cards have the same id,
/// so a card is found by its id without ambiguity.
pub proof fn lemma_valid_ids_unique(cards: Seq<JargonCard>)
    requires
        validation_issues(cards).len() == 0,
    ensures
        forall|i: int, j: int|
            0 <= i < j < cards.len() ==> (#[trigger] cards[i]).id@ != (#[trigger] cards[j]).id@,
{
    lemma_validation_accepts_iff(cards);
    assert forall|i: int, j: int| 0 <= i < j < cards.len() implies (#[trigger] cards[i]).id@ != (
    #[trigger] cards[j]).id@ by {
        assert(trim(cards[i].id@) != trim(cards[j].id@));
    }
}

impl View for SearchIndex {
    type V = Seq<JargonCard>;

    closed spec fn view(&self) -> Seq<JargonCard> {
        self.cards@
    }
}

impl SearchIndex {
    /// The cards of an index always pass validation.
    #[verifier::type_invariant]
    spec fn cards_are_valid(self) -> bool {
        validation_issues(self.cards@).len() == 0
    }

    /// An index of `cards`, refused with every issue found when the
    /// collection does not pass validation.
    pub fn new(cards: Vec<JargonCard>) -> (r: Result<Self, CardValidationError>)
        ensures
            r is Ok <==> validation_issues(cards@).len() == 0,
            r matches Ok(index) ==> index@ == cards@,
            r matches Err(e) ==> issue_views(e.issues@) == validation_issues(cards@),
    {
        match validate_cards(cards.as_slice()) {
            Ok(()) => Ok(SearchIndex { cards }),
            Err(e) => Err(e),
        }
    }

    /// The cards of the index, which pass validation.
    pub fn cards(&self) -> (r: &Vec<JargonCard>)
        ensures
            r@ == self@,
            validation_issues(self@).len() == 0,
    {
        proof {
            use_type_invariant(self);
        }
        &self.cards
    }

    /// The number of cards.
    pub fn len(&self) -> (n: usize)
        ensures
            n == self@.len(),
    {
        self.cards.len()
    }

    /// The ranked keyword matches of `query`, at most `limit` of them.
    pub fn search(&self, query: &str, limit: usize) -> (r: Vec<SearchResult>)
        ensures
            shows_entries(r@, ranked_matches(query@, self@, limit)),
    {
        rank_keyword_matches(query, self.cards.as_slice(), limit)
    }

    /// The position of the card whose id is `id`, if there is one.
    pub fn position_of_id(&self, id: &str) -> (r: Option<usize>)
        ensures
            r matches Some(k) ==> k < self@.len() && self@[k as int].id@ == id@,
            r is None ==> forall|k: int| 0 <= k < self@.len() ==> (#[trigger] self@[k]).id@ != id@,
    {
        let wanted = str_chars(id);
        let mut k: usize = 0;
        while k < self.cards.len()
            invariant
                k <= self.cards@.len(),
                wanted@ == id@,
                forall|j: int| 0 <= j < k ==> (#[trigger] self.cards@[j]).id@ != id@,
            decreases self.cards.len() - k,
        {
            if chars_eq(&str_chars(self.cards[k].id.as_str()), &wanted) {
                return Some(k);
            }
            k += 1;
        }
        None
    }

    /// The card whose id is `id`, if there is one.
    pub fn card_by_id(&self, id: &str) -> (r: Option<&JargonCard>)
        ensures
            r matches Some(card) ==> self@.contains(*card) && card.id@ == id@,
            r is None ==> forall|k: int| 0 <= k < self@.len() ==> (#[trigger] self@[k]).id@ != id@,
    {
        match self.position_of_id(id) {
            Some(k) => {
                proof {
                    assert(self@[k as int] == self.cards@[k as int]);
                }
                Some(&self.cards[k])
            },
            None => None,
        }
    }
}

} // verus!
