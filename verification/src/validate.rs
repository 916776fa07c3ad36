//! Validation of a card collection: required fields, unique ids and
//! searchable text.
use vstd::prelude::*;

use crate::card::JargonCard;
use crate::text::{
    append_chars, blank, decimal, decimal_exec, contains_item, is_blank, str_chars, string_from_chars, trim, trim_chars,
    views,
};

verus! {

/// One problem found in a card collection.
#[derive(Debug, Clone, PartialEq, Eq)]
pub struct CardValidationIssue {
    pub card_id: Option<String>,
    pub message: String,
}

/// All the problems found in a card collection.
#[derive(Debug, Clone, PartialEq, Eq)]
pub struct CardValidationError {
    pub issues: Vec<CardValidationIssue>,
}

/// An issue as plain values: the card id it names, if any, and the message.
pub type IssueView = (Option<Seq<char>>, Seq<char>);

/// The plain value of an issue.
pub open spec fn issue_view(issue: CardValidationIssue) -> IssueView {
    (
        match issue.card_id {
            Some(id) => Some(id@),
            None => None,
        },
        issue.message@,
    )
}

/// The plain values of a sequence of issues.
pub open spec fn issue_views(issues: Seq<CardValidationIssue>) -> Seq<IssueView> {
    Seq::new(issues.len(), |i: int| issue_view(issues[i]))
}

/// The id under which a card's issues are reported: its trimmed id, or
/// none when the id is blank.
pub open spec fn card_id_of(card: JargonCard) -> Option<Seq<char>> {
    if is_blank(card.id@) {
        None
    } else {
        Some(trim(card.id@))
    }
}

/// The issue for a blank required field, if `value` is blank.
pub open spec fn required_issue(card_id: Option<Seq<char>>, field: Seq<char>, value: Seq<char>) -> Seq<
    IssueView,
> {
    if is_blank(value) {
        seq![(card_id, field + " is required"@)]
    } else {
        Seq::empty()
    }
}

/// Some text field, example, query or tag of the card is not blank.
pub open spec fn has_searchable_text_of(card: JargonCard) -> bool {
    ||| !is_blank(card.term@)
    ||| !is_blank(card.plain@)
    ||| !is_blank(card.explanation@)
    ||| exists|k: int| 0 <= k < card.examples@.len() && !is_blank(#[trigger] card.examples@[k]@)
    ||| exists|k: int| 0 <= k < card.queries@.len() && !is_blank(#[trigger] card.queries@[k]@)
    ||| exists|k: int| 0 <= k < card.tags@.len() && !is_blank(#[trigger] card.tags@[k]@)
}

/// Card `i` has a non-blank id whose trimmed text is that of an earlier card.
pub open spec fn is_duplicate_at(cards: Seq<JargonCard>, i: int) -> bool {
    &&& !is_blank(cards[i].id@)
    &&& exists|j: int| 0 <= j < i && #[trigger] trim(cards[j].id@) == trim(cards[i].id@)
}

/// The issues of card `i` in `cards`, in the order they are reported.
pub open spec fn card_issues(cards: Seq<JargonCard>, i: int) -> Seq<IssueView> {
    let card = cards[i];
    let id = card_id_of(card);
    required_issue(id, "id"@, card.id@) + required_issue(id, "term"@, card.term@) + required_issue(
        id,
        "plain"@,
        card.plain@,
    ) + required_issue(id, "explanation"@, card.explanation@) + required_issue(
        id,
        "source"@,
        card.source@,
    ) + (if is_duplicate_at(cards, i) {
        seq![(id, "duplicate id"@)]
    } else {
        Seq::empty()
    }) + (if !has_searchable_text_of(card) {
        seq![(id, "card has no searchable text"@)]
    } else {
        Seq::empty()
    })
}

/// The issues of the first `n` cards, card by card.
pub open spec fn issues_upto(cards: Seq<JargonCard>, n: int) -> Seq<IssueView>
    decreases n,
{
    if n <= 0 {
        Seq::empty()
    } else {
        issues_upto(cards, n - 1) + card_issues(cards, n - 1)
    }
}

/// The issues of a whole card collection.
pub open spec fn validation_issues(cards: Seq<JargonCard>) -> Seq<IssueView> {
    issues_upto(cards, cards.len() as int)
}

/// The trimmed non-blank ids of the first `n` cards.
pub open spec fn seen_ids(cards: Seq<JargonCard>, n: int) -> Seq<Seq<char>>
    decreases n,
{
    if n <= 0 {
        Seq::empty()
    } else if is_blank(cards[n - 1].id@) {
        seen_ids(cards, n - 1)
    } else {
        seen_ids(cards, n - 1).push(trim(cards[n - 1].id@))
    }
}

proof fn lemma_seen_ids(cards: Seq<JargonCard>, n: int, t: Seq<char>)
    requires
        0 <= n <= cards.len(),
        t.len() > 0,
    ensures
        seen_ids(cards, n).contains(t) <==> exists|j: int| 0 <= j < n && #[trigger] trim(cards[j].id@) == t,
    decreases n,
{
    if n > 0 {
        lemma_seen_ids(cards, n - 1, t);
        let last = trim(cards[n - 1].id@);
        if seen_ids(cards, n).contains(t) {
            if !seen_ids(cards, n - 1).contains(t) {
                assert(!is_blank(cards[n - 1].id@));
                let k = choose|k: int| 0 <= k < seen_ids(cards, n).len() && #[trigger] seen_ids(cards, n)[k] == t;
                assert(k == seen_ids(cards, n - 1).len());
                assert(trim(cards[n - 1].id@) == t);
            }
        }
        if exists|j: int| 0 <= j < n && #[trigger] trim(cards[j].id@) == t {
            let j = choose|j: int| 0 <= j < n && #[trigger] trim(cards[j].id@) == t;
            if j == n - 1 {
                assert(!is_blank(cards[n - 1].id@));
                assert(seen_ids(cards, n)[seen_ids(cards, n - 1).len() as int] == t);
            } else {
                assert(seen_ids(cards, n - 1).contains(t));
                let k = choose|k: int| 0 <= k < seen_ids(cards, n - 1).len() && #[trigger] seen_ids(cards, n - 1)[k] == t;
                assert(seen_ids(cards, n)[k] == t);
            }
        }
    }
}

/// The id under which a card's issues are reported.
fn card_id_for_issue(card: &JargonCard) -> (r: Option<String>)
    ensures
        match r {
            Some(s) => card_id_of(*card) == Some(s@),
            None => card_id_of(*card) is None,
        },
{
    let id = trim_chars(&str_chars(card.id.as_str()));
    if id.len() > 0 {
        Some(string_from_chars(&id))
    } else {
        None
    }
}

/// A copy of an optional string.
fn copy_card_id(id: &Option<String>) -> (r: Option<String>)
    ensures
        r == *id,
{
    match id {
        Some(s) => Some(s.clone()),
        None => None,
    }
}

/// The plain value of an optional card id.
pub open spec fn id_view(id: Option<String>) -> Option<Seq<char>> {
    match id {
        Some(s) => Some(s@),
        None => None,
    }
}

/// Records an issue for `field` when `value` is blank.
pub fn check_required_field(
    issues: &mut Vec<CardValidationIssue>,
    card_id: &Option<String>,
    field: &str,
    value: &String,
)
    ensures
        issue_views(final(issues)@) == issue_views(old(issues)@) + required_issue(
            id_view(*card_id),
            field@,
            value@,
        ),
{
    let ghost before = issues@;
    if blank(&str_chars(value.as_str())) {
        let mut message = str_chars(field);
        append_chars(&mut message, &str_chars(" is required"));
        issues.push(
            CardValidationIssue { card_id: copy_card_id(card_id), message: string_from_chars(&message) },
        );
    }
    proof {
        assert(issue_views(issues@) =~= issue_views(before) + required_issue(
            id_view(*card_id),
            field@,
            value@,
        ));
    }
}

/// Whether some string of `items` is not blank.
fn any_non_blank(items: &Vec<String>) -> (b: bool)
    ensures
        b == exists|k: int| 0 <= k < items@.len() && !is_blank(#[trigger] items@[k]@),
{
    let mut i: usize = 0;
    while i < items.len()
        invariant
            i <= items@.len(),
            forall|k: int| 0 <= k < i ==> is_blank(#[trigger] items@[k]@),
        decreases items.len() - i,
    {
        if !blank(&str_chars(items[i].as_str())) {
            return true;
        }
        i += 1;
    }
    false
}

/// Whether the card has any non-blank searchable text.
pub fn has_searchable_text(card: &JargonCard) -> (b: bool)
    ensures
        b == has_searchable_text_of(*card),
{
    !blank(&str_chars(card.term.as_str())) || !blank(&str_chars(card.plain.as_str())) || !blank(
        &str_chars(card.explanation.as_str()),
    ) || any_non_blank(&card.examples) || any_non_blank(&card.queries) || any_non_blank(&card.tags)
}

/// The report line of one issue: `- id: message`, or `- message` when
/// the issue names no card.
pub open spec fn issue_line(issue: IssueView) -> Seq<char> {
    match issue.0 {
        Some(id) => "- "@ + id + ": "@ + issue.1 + "\n"@,
        None => "- "@ + issue.1 + "\n"@,
    }
}

/// The report lines of the issues, in order.
pub open spec fn issue_lines(issues: Seq<IssueView>) -> Seq<char>
    decreases issues.len(),
{
    if issues.len() == 0 {
        Seq::empty()
    } else {
        issue_lines(issues.drop_last()) + issue_line(issues.last())
    }
}

/// The report of a failed validation: a count line, then one line per issue.
pub open spec fn validation_report_of(issues: Seq<IssueView>) -> Seq<char> {
    "card validation failed with "@ + decimal(issues.len()) + " issue(s)\n"@ + issue_lines(issues)
}

impl CardValidationError {
    /// The report of this error, as it is shown to a user.
    pub fn report(&self) -> (r: String)
        ensures
            r@ == validation_report_of(issue_views(self.issues@)),
    {
        let mut text = str_chars("card validation failed with ");
        append_chars(&mut text, &decimal_exec(self.issues.len()));
        append_chars(&mut text, &str_chars(" issue(s)\n"));
        let ghost head = text@;
        let mut i: usize = 0;
        while i < self.issues.len()
            invariant
                i <= self.issues@.len(),
                text@ == head + issue_lines(issue_views(self.issues@).take(i as int)),
            decreases self.issues.len() - i,
        {
            let issue = &self.issues[i];
            append_chars(&mut text, &str_chars("- "));
            match &issue.card_id {
                Some(id) => {
                    append_chars(&mut text, &str_chars(id.as_str()));
                    append_chars(&mut text, &str_chars(": "));
                },
                None => {},
            }
            append_chars(&mut text, &str_chars(issue.message.as_str()));
            append_chars(&mut text, &str_chars("\n"));
            proof {
                let pre = issue_views(self.issues@).take(i + 1);
                assert(pre.drop_last() == issue_views(self.issues@).take(i as int));
                assert(pre.last() == issue_view(self.issues@[i as int]));
                assert(text@ =~= head + issue_lines(pre));
            }
            i += 1;
        }
        proof {
            assert(issue_views(self.issues@).take(self.issues@.len() as int) == issue_views(
                self.issues@,
            ));
        }
        string_from_chars(&text)
    }

    fn new(issues: Vec<CardValidationIssue>) -> (r: Self)
        ensures
            r.issues == issues,
    {
        CardValidationError { issues }
    }
}

/// Checks a card collection. Each card must have non-blank id, term, plain,
/// explanation and source, an id not used by an earlier card, and some
/// non-blank searchable text. Returns every issue found, card by card.
pub fn validate_cards(cards: &[JargonCard]) -> (r: Result<(), CardValidationError>)
    ensures
        r is Ok <==> validation_issues(cards@).len() == 0,
        r matches Err(e) ==> issue_views(e.issues@) == validation_issues(cards@),
{
    let mut issues: Vec<CardValidationIssue> = Vec::new();
    let mut seen: Vec<Vec<char>> = Vec::new();
    let mut i: usize = 0;
    while i < cards.len()
        invariant
            i <= cards@.len(),
            issue_views(issues@) == issues_upto(cards@, i as int),
            views(seen@) == seen_ids(cards@, i as int),
        decreases cards.len() - i,
    {
        let card = &cards[i];
        let card_id = card_id_for_issue(card);
        let ghost start = issue_views(issues@);
        let ghost id = card_id_of(*card);
        check_required_field(&mut issues, &card_id, "id", &card.id);
        check_required_field(&mut issues, &card_id, "term", &card.term);
        check_required_field(&mut issues, &card_id, "plain", &card.plain);
        check_required_field(&mut issues, &card_id, "explanation", &card.explanation);
        check_required_field(&mut issues, &card_id, "source", &card.source);
        let ghost after_required = issue_views(issues@);
        let trimmed_id = trim_chars(&str_chars(card.id.as_str()));
        let ghost seen_before = views(seen@);
        if trimmed_id.len() > 0 {
            let duplicate = contains_item(&seen, &trimmed_id);
            if duplicate {
                issues.push(
                    CardValidationIssue {
                        card_id: copy_card_id(&card_id),
                        message: string_from_chars(&str_chars("duplicate id")),
                    },
                );
            }
            seen.push(trimmed_id);
        }
        let ghost after_duplicate = issue_views(issues@);
        if !has_searchable_text(card) {
            issues.push(
                CardValidationIssue {
                    card_id: card_id_for_issue(card),
                    message: string_from_chars(&str_chars("card has no searchable text")),
                },
            );
        }
        proof {
            assert(id_view(card_id) == id);
            if trimmed_id@.len() > 0 {
                lemma_seen_ids(cards@, i as int, trimmed_id@);
                assert(views(seen@) =~= seen_before.push(trimmed_id@));
            }
            let dup = if is_duplicate_at(cards@, i as int) {
                seq![(id, "duplicate id"@)]
            } else {
                Seq::<IssueView>::empty()
            };
            assert(after_duplicate =~= after_required + dup);
            let req = required_issue(id, "id"@, card.id@) + required_issue(id, "term"@, card.term@)
                + required_issue(id, "plain"@, card.plain@) + required_issue(
                id,
                "explanation"@,
                card.explanation@,
            ) + required_issue(id, "source"@, card.source@);
            assert(after_required =~= start + req);
            let srch = if !has_searchable_text_of(*card) {
                seq![(id, "card has no searchable text"@)]
            } else {
                Seq::<IssueView>::empty()
            };
            assert(issue_views(issues@) =~= after_duplicate + srch);
            assert(card_issues(cards@, i as int) =~= req + dup + srch);
            assert(issue_views(issues@) =~= start + card_issues(cards@, i as int));
        }
        i += 1;
    }
    proof {
        assert(cards@.len() == cards.len());
    }
    if issues.len() == 0 {
        Ok(())
    } else {
        Err(CardValidationError::new(issues))
    }
}

} // verus!
