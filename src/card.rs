//! A single card: its rank, its two numeric values, and its text form.
use vstd::prelude::*;
use vstd::string::*;

verus! {

/// The rank of a card. `Number` holds a value from 2 to 10.
#[derive(PartialEq, Eq, Structural, Clone, Copy, Debug)]
pub enum Card {
    Number(u8),
    Queen,
    King,
    Jack,
    Ace,
}

/// The value a card adds to a sum: ace 1, numbers their face, court cards 10.
pub open spec fn counting_value(c: Card) -> nat {
    match c {
        Card::Ace => 1,
        Card::King | Card::Queen | Card::Jack => 10,
        Card::Number(n) => n as nat,
    }
}

/// The place of a card in rank order: ace 1, numbers their face, then
/// jack 11, queen 12, king 13.
pub open spec fn ordering_value(c: Card) -> nat {
    match c {
        Card::Ace => 1,
        Card::Jack => 11,
        Card::Queen => 12,
        Card::King => 13,
        Card::Number(n) => n as nat,
    }
}

pub open spec fn is_digit(c: char) -> bool {
    '0' <= c && c <= '9'
}

pub open spec fn digit_value(c: char) -> nat {
    (c as nat - '0' as nat) as nat
}

/// The number written by a string of decimal digits.
pub open spec fn digits_value(d: Seq<char>) -> nat
    decreases d.len(),
{
    if d.len() == 0 {
        0
    } else {
        digits_value(d.drop_last()) * 10 + digit_value(d.last())
    }
}

/// A token without its leading `+`, if it has one.
pub open spec fn unsigned_part(t: Seq<char>) -> Seq<char> {
    if t.len() > 0 && t[0] == '+' {
        t.drop_first()
    } else {
        t
    }
}

/// The value of a decimal integer token (an optional `+`, then one or more
/// digits), or `None` when the token is not one.
pub open spec fn number_token(t: Seq<char>) -> Option<nat> {
    let d = unsigned_part(t);
    if d.len() > 0 && (forall|i: int| 0 <= i < d.len() ==> is_digit(#[trigger] d[i])) {
        Some(digits_value(d))
    } else {
        None
    }
}

/// The card a token names: one of A, K, Q, J in either case, or an integer
/// from 2 to 10.
pub open spec fn token_card(t: Seq<char>) -> Option<Card> {
    if t == seq!['A'] || t == seq!['a'] {
        Some(Card::Ace)
    } else if t == seq!['K'] || t == seq!['k'] {
        Some(Card::King)
    } else if t == seq!['Q'] || t == seq!['q'] {
        Some(Card::Queen)
    } else if t == seq!['J'] || t == seq!['j'] {
        Some(Card::Jack)
    } else {
        match number_token(t) {
            Some(n) => if 2 <= n <= 10 {
                Some(Card::Number(n as u8))
            } else {
                None
            },
            None => None,
        }
    }
}

/// The text of a card: a capital letter for an ace or a court card, the
/// decimal number otherwise.
pub open spec fn display_of(c: Card) -> Seq<char> {
    match c {
        Card::Ace => seq!['A'],
        Card::King => seq!['K'],
        Card::Queen => seq!['Q'],
        Card::Jack => seq!['J'],
        Card::Number(n) => if n == 10 {
            seq!['1', '0']
        } else {
            seq![('0' as u32 + n as u32) as char]
        },
    }
}

/// Two well-formed cards are the same card exactly when they have the same
/// ordering value, and each value lies in its range.
pub proof fn lemma_rank_equality(a: Card, b: Card)
    requires
        a.wf(),
        b.wf(),
    ensures
        a == b <==> ordering_value(a) == ordering_value(b),
        1 <= counting_value(a) <= 10,
        1 <= ordering_value(a) <= 13,
{
}

/// The text of a well-formed card reads back as that card.
pub proof fn lemma_display_round_trip(c: Card)
    requires
        c.wf(),
    ensures
        token_card(display_of(c)) == Some(c),
{
    let t = display_of(c);
    if let Card::Number(n) = c {
        assert(t != seq!['A'] && t != seq!['a'] && t != seq!['K'] && t != seq!['k']);
        assert(t != seq!['Q'] && t != seq!['q'] && t != seq!['J'] && t != seq!['j']);
        assert(unsigned_part(t) == t);
        reveal_with_fuel(digits_value, 3);
        if n == 10 {
            assert(t.drop_last() =~= seq!['1']);
            assert(seq!['1'].drop_last() =~= Seq::<char>::empty());
        } else {
            assert(t.drop_last() =~= Seq::<char>::empty());
        }
        assert(number_token(t) == Some(n as nat));
    }
}

impl Card {
    /// A card is well formed when a number card holds 2 to 10.
    pub open spec fn wf(&self) -> bool {
        match *self {
            Card::Number(n) => 2 <= n <= 10,
            _ => true,
        }
    }

    /// The counting value, used for sums.
    pub fn into_u8_cribbage(&self) -> (r: u8)
        ensures
            r == counting_value(*self),
            self.wf() ==> 1 <= r <= 10,
    {
        match self {
            Card::Ace => 1,
            Card::King | Card::Jack | Card::Queen => 10,
            Card::Number(num) => *num,
        }
    }

    /// The ordering value, used for equality and runs.
    pub fn into_u8_normal(&self) -> (r: u8)
        ensures
            r == ordering_value(*self),
            self.wf() ==> 1 <= r <= 13,
    {
        match self {
            Card::Ace => 1,
            Card::Jack => 11,
            Card::Queen => 12,
            Card::King => 13,
            Card::Number(num) => *num,
        }
    }
    /// Reads a card from its token; `None` when the token names no card.
    pub fn from_token(token: &str) -> (r: Option<Card>)
        ensures
            r == token_card(token@),
            r matches Some(c) ==> c.wf(),
    {
        let n = token.unicode_len();
        if n == 1 {
            let c = token.get_char(0);
            assert(token@ =~= seq![c]);
            if c == 'A' || c == 'a' {
                return Some(Card::Ace);
            } else if c == 'K' || c == 'k' {
                return Some(Card::King);
            } else if c == 'Q' || c == 'q' {
                return Some(Card::Queen);
            } else if c == 'J' || c == 'j' {
                return Some(Card::Jack);
            }
        }
        let ghost t = token@;
        assert(t.len() == 1 ==> t =~= seq![t[0]]);
        assert(!(t == seq!['A'] || t == seq!['a'] || t == seq!['K'] || t == seq!['k'] || t
            == seq!['Q'] || t == seq!['q'] || t == seq!['J'] || t == seq!['j']));
        let mut start: usize = 0;
        if n > 0 && token.get_char(0) == '+' {
            start = 1;
        }
        let ghost d = unsigned_part(t);
        assert(d =~= t.subrange(start as int, t.len() as int));
        if start >= n {
            return None;
        }
        // `value` is the number read so far, held at 11 once it passes 10.
        let mut value: u8 = 0;
        let mut i: usize = start;
        while i < n
            invariant
                start <= i <= n,
                n == t.len(),
                t == token@,
                d == unsigned_part(t),
                d =~= t.subrange(start as int, n as int),
                !(t == seq!['A'] || t == seq!['a'] || t == seq!['K'] || t == seq!['k'] || t
                    == seq!['Q'] || t == seq!['q'] || t == seq!['J'] || t == seq!['j']),
                forall|j: int| 0 <= j < i - start ==> is_digit(#[trigger] d[j]),
                value as nat == if digits_value(d.take(i - start)) > 11 {
                    11
                } else {
                    digits_value(d.take(i - start))
                },
            decreases n - i,
        {
            let c = token.get_char(i);
            if !('0' <= c && c <= '9') {
                assert(d[i - start] == c);
                assert(!is_digit(d[i - start]));
                return None;
            }
            let dv: u8 = (c as u32 - '0' as u32) as u8;
            proof {
                assert(d.take(i - start + 1).drop_last() =~= d.take(i - start));
                assert(d.take(i - start + 1).last() == c);
                let prev = digits_value(d.take(i - start));
                assert(prev * 10 + dv >= prev) by (nonlinear_arith);
            }
            if value >= 11 {
                value = 11;
            } else {
                let v: u8 = value * 10 + dv;
                value = if v > 11 {
                    11
                } else {
                    v
                };
            }
            i = i + 1;
        }
        assert(d.take(n - start) =~= d);
        if 2 <= value && value <= 10 {
            Some(Card::Number(value))
        } else {
            None
        }
    }

    /// The text of the card, as a token reads it back.
    pub fn to_display(&self) -> (r: &'static str)
        requires
            self.wf(),
        ensures
            r@ == display_of(*self),
    {
        match self {
            Card::Ace => {
                proof { reveal_strlit("A"); }
                "A"
            },
            Card::King => {
                proof { reveal_strlit("K"); }
                "K"
            },
            Card::Queen => {
                proof { reveal_strlit("Q"); }
                "Q"
            },
            Card::Jack => {
                proof { reveal_strlit("J"); }
                "J"
            },
            Card::Number(n) => {
                if *n == 2 {
                    proof { reveal_strlit("2"); }
                    "2"
                } else if *n == 3 {
                    proof { reveal_strlit("3"); }
                    "3"
                } else if *n == 4 {
                    proof { reveal_strlit("4"); }
                    "4"
                } else if *n == 5 {
                    proof { reveal_strlit("5"); }
                    "5"
                } else if *n == 6 {
                    proof { reveal_strlit("6"); }
                    "6"
                } else if *n == 7 {
                    proof { reveal_strlit("7"); }
                    "7"
                } else if *n == 8 {
                    proof { reveal_strlit("8"); }
                    "8"
                } else if *n == 9 {
                    proof { reveal_strlit("9"); }
                    "9"
                } else {
                    proof { reveal_strlit("10"); }
                    "10"
                }
            },
        }
    }
}

} // verus!
