//! A hand of five cards and how it is read from five tokens.
use vstd::prelude::*;
use crate::card::{Card, token_card};

verus! {

/// Five cards, by position 0 to 4.
pub struct Hand {
    pub cards: [Card; 5],
}

/// Why a hand could not be read.
#[derive(PartialEq, Eq, Structural, Clone, Copy, Debug)]
pub enum ParseError {
    /// The token at this position names no card.
    InvalidCardToken(usize),
    /// Fewer than five tokens were given.
    MissingArgument,
}

impl Hand {
    pub open spec fn view(&self) -> Seq<Card> {
        self.cards@
    }

    /// Every card of the hand is well formed.
    pub open spec fn wf(&self) -> bool {
        forall|i: int| 0 <= i < 5 ==> (#[trigger] self.cards@[i]).wf()
    }

    /// Reads a hand from the first five tokens; any further tokens are
    /// ignored. The first token that is missing or names no card decides
    /// the error.
    pub fn from_tokens(tokens: &Vec<String>) -> (r: Result<Hand, ParseError>)
        ensures
            match r {
                Ok(h) => tokens@.len() >= 5 && h.wf() && forall|i: int|
                    0 <= i < 5 ==> token_card(#[trigger] tokens@[i]@) == Some(h@[i]),
                Err(ParseError::MissingArgument) => tokens@.len() < 5 && forall|i: int|
                    0 <= i < tokens@.len() ==> (#[trigger] token_card(tokens@[i]@)).is_some(),
                Err(ParseError::InvalidCardToken(k)) => k < 5 && k < tokens@.len()
                    && token_card(tokens@[k as int]@).is_none() && forall|i: int|
                    0 <= i < k ==> (#[trigger] token_card(tokens@[i]@)).is_some(),
            },
    {
        let mut cards: Vec<Card> = Vec::new();
        let mut i: usize = 0;
        while i < 5
            invariant
                i <= 5,
                cards@.len() == i,
                i <= tokens@.len(),
                forall|j: int| 0 <= j < i ==> token_card(#[trigger] tokens@[j]@) == Some(cards@[j]),
                forall|j: int| 0 <= j < i ==> (#[trigger] cards@[j]).wf(),
            decreases 5 - i,
        {
            if i >= tokens.len() {
                assert forall|j: int| 0 <= j < tokens@.len() implies (#[trigger] token_card(
                    tokens@[j]@,
                )).is_some() by {
                    assert(token_card(tokens@[j]@) == Some(cards@[j]));
                }
                return Err(ParseError::MissingArgument);
            }
            match Card::from_token(tokens[i].as_str()) {
                Some(c) => {
                    cards.push(c);
                },
                None => {
                    assert forall|j: int| 0 <= j < i implies (#[trigger] token_card(
                        tokens@[j]@,
                    )).is_some() by {
                        assert(token_card(tokens@[j]@) == Some(cards@[j]));
                    }
                    return Err(ParseError::InvalidCardToken(i));
                },
            }
            i = i + 1;
        }
        let h = Hand { cards: [cards[0], cards[1], cards[2], cards[3], cards[4]] };
        assert(h@ =~= cards@);
        Ok(h)
    }
}

} // verus!
