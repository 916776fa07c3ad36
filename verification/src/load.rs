//! The check made on a card collection once its JSON has been parsed.
use vstd::prelude::*;

use crate::card::JargonCard;
use crate::text::{append_chars, str_chars, string_from_chars};

verus! {

/// The error of `serde_json`, carried through unchanged.
#[verifier::external_type_specification]
#[verifier::external_body]
pub struct ExJsonError(serde_json::Error);

/// Why a card collection could not be loaded.
#[derive(Debug)]
pub enum CardLoadError {
    /// The JSON could not be read as a list of cards.
    Json(serde_json::Error),
    /// The list holds no card.
    Empty,
}

impl CardLoadError {
    /// The message shown for this error: the parse error's own text after
    /// `invalid card JSON: `, or that the collection is empty.
    pub fn describe(&self) -> (r: String)
        ensures
            self is Empty ==> r@ == "card collection is empty"@,
            self matches CardLoadError::Json(e) ==> exists|d: String|
                vstd::string::to_string_from_display_ensures::<serde_json::Error>(&e, d) && r@
                    == "invalid card JSON: "@ + d@,
    {
        match self {
            CardLoadError::Json(error) => {
                let mut text = str_chars("invalid card JSON: ");
                let detail = error.to_string();
                append_chars(&mut text, &str_chars(detail.as_str()));
                let r = string_from_chars(&text);
                proof {
                    assert(vstd::string::to_string_from_display_ensures::<serde_json::Error>(
                        error,
                        detail,
                    ) && r@ == "invalid card JSON: "@ + detail@);
                }
                r
            },
            CardLoadError::Empty => string_from_chars(&str_chars("card collection is empty")),
        }
    }
}

/// The loaded cards, from the outcome of parsing them: a parse error is
/// passed on, an empty list is refused, any other list is accepted as is.
pub fn load_cards_from_parsed(parsed: Result<Vec<JargonCard>, serde_json::Error>) -> (r: Result<
    Vec<JargonCard>,
    CardLoadError,
>)
    ensures
        parsed matches Err(e) ==> r == Err::<Vec<JargonCard>, CardLoadError>(CardLoadError::Json(e)),
        parsed matches Ok(cards) ==> (cards@.len() == 0 ==> r matches Err(CardLoadError::Empty)),
        parsed matches Ok(cards) ==> (cards@.len() > 0 ==> r == Ok::<
            Vec<JargonCard>,
            CardLoadError,
        >(cards)),
{
    match parsed {
        Err(e) => Err(CardLoadError::Json(e)),
        Ok(cards) => {
            if cards.len() == 0 {
                Err(CardLoadError::Empty)
            } else {
                Ok(cards)
            }
        },
    }
}

} // verus!
