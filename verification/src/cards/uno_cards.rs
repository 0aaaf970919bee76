//! Uno card faces: colors, kinds, the play-legality rule, and builders for
//! the full 108-card set.

use vstd::prelude::*;
use vstd::string::StringExecFns;

use crate::cards::CardFaces;
use crate::numtext::{decimal, push_decimal};

verus! {

/// Structure representing the information on a single standard Uno card.
#[derive(Debug, Clone, Copy, Eq, PartialEq, PartialOrd, Ord, Structural)]
pub struct UnoCard {
    pub color: UnoColor,
    pub kind: UnoCardKind,
}

/// The four play colors plus black for the wild cards.
#[derive(Debug, Clone, Copy, PartialEq, Eq, PartialOrd, Ord, Structural)]
pub enum UnoColor {
    Red,
    Blue,
    Green,
    Yellow,
    Black,
}

/// What kind of card this is: a number card, an action card, or a wild.
#[derive(Debug, Clone, Copy, PartialEq, Eq, PartialOrd, Ord, Structural)]
pub enum UnoCardKind {
    Number(u8),
    Action(UnoAction),
    Wild,
    WildDrawFour,
}

/// The three colored action cards.
#[derive(Debug, Clone, Copy, PartialEq, Eq, PartialOrd, Ord, Structural)]
pub enum UnoAction {
    DrawTwo,
    Skip,
    Reverse,
}

impl UnoColor {
    /// The color's name as shown on a card face.
    pub open spec fn text_spec(self) -> Seq<char> {
        match self {
            UnoColor::Red => "Red"@,
            UnoColor::Blue => "Blue"@,
            UnoColor::Green => "Green"@,
            UnoColor::Yellow => "Yellow"@,
            UnoColor::Black => "Black"@,
        }
    }

    /// The color's name as shown on a card face.
    pub fn text(self) -> (s: &'static str)
        ensures
            s@ == self.text_spec(),
    {
        match self {
            UnoColor::Red => "Red",
            UnoColor::Blue => "Blue",
            UnoColor::Green => "Green",
            UnoColor::Yellow => "Yellow",
            UnoColor::Black => "Black",
        }
    }

    /// Position of the color in the fixed red, blue, green, yellow, black
    /// order; used to compare cards.
    pub open spec fn order_spec(self) -> int {
        match self {
            UnoColor::Red => 0,
            UnoColor::Blue => 1,
            UnoColor::Green => 2,
            UnoColor::Yellow => 3,
            UnoColor::Black => 4,
        }
    }

    fn order(self) -> (n: u8)
        ensures
            n == self.order_spec(),
    {
        match self {
            UnoColor::Red => 0,
            UnoColor::Blue => 1,
            UnoColor::Green => 2,
            UnoColor::Yellow => 3,
            UnoColor::Black => 4,
        }
    }
}

impl UnoAction {
    /// The action's name as shown on a card face.
    pub open spec fn text_spec(self) -> Seq<char> {
        match self {
            UnoAction::DrawTwo => "Draw Two"@,
            UnoAction::Skip => "Skip"@,
            UnoAction::Reverse => "Reverse"@,
        }
    }

    /// The action's name as shown on a card face.
    pub fn text(self) -> (s: &'static str)
        ensures
            s@ == self.text_spec(),
    {
        match self {
            UnoAction::DrawTwo => "Draw Two",
            UnoAction::Skip => "Skip",
            UnoAction::Reverse => "Reverse",
        }
    }

    /// Position of the action in the draw-two, skip, reverse order; used to
    /// compare cards.
    pub open spec fn order_spec(self) -> int {
        match self {
            UnoAction::DrawTwo => 0,
            UnoAction::Skip => 1,
            UnoAction::Reverse => 2,
        }
    }

    fn order(self) -> (n: u8)
        ensures
            n == self.order_spec(),
    {
        match self {
            UnoAction::DrawTwo => 0,
            UnoAction::Skip => 1,
            UnoAction::Reverse => 2,
        }
    }
}

impl UnoCardKind {
    /// Whether the card is one of the two wild kinds.
    pub open spec fn is_wild_spec(self) -> bool {
        self is Wild || self is WildDrawFour
    }

    /// Returns true if the card is a wild card.
    pub fn is_wild(&self) -> (wild: bool)
        ensures
            wild == self.is_wild_spec(),
    {
        matches!(self, UnoCardKind::Wild | UnoCardKind::WildDrawFour)
    }

    /// The kind as shown on a card face: `#5`, an action name, or the wild
    /// wording.
    pub open spec fn text_spec(self) -> Seq<char> {
        match self {
            UnoCardKind::Number(n) => "#"@ + decimal(n as int),
            UnoCardKind::Action(a) => a.text_spec(),
            UnoCardKind::Wild => "Wild"@,
            UnoCardKind::WildDrawFour => "Wild + Draw 4"@,
        }
    }

    /// Rank of the kind used for ordering non-wild cards: number cards by
    /// their number, then the actions in their fixed order.
    pub open spec fn order_spec(self) -> int {
        match self {
            UnoCardKind::Number(n) => n as int,
            UnoCardKind::Action(a) => 256 + a.order_spec(),
            UnoCardKind::Wild => 512,
            UnoCardKind::WildDrawFour => 513,
        }
    }

    fn order(self) -> (n: u16)
        ensures
            n == self.order_spec(),
    {
        match self {
            UnoCardKind::Number(n) => n as u16,
            UnoCardKind::Action(a) => 256 + a.order() as u16,
            UnoCardKind::Wild => 512,
            UnoCardKind::WildDrawFour => 513,
        }
    }
}

impl UnoCard {
    /// The legality rule for placing this card on `other`: a declared color
    /// must be honored; otherwise a shared color, a wild, a shared number or
    /// a shared action makes the play legal.
    pub open spec fn plays_on_spec(self, other: UnoCard, declared_color: Option<UnoColor>) -> bool {
        ||| (declared_color matches Some(declared) && self.color == declared)
        ||| self.color == other.color
        ||| self.kind.is_wild_spec()
        ||| (self.kind matches UnoCardKind::Number(x) && other.kind matches UnoCardKind::Number(y)
            && x == y)
        ||| (self.kind matches UnoCardKind::Action(a) && other.kind matches UnoCardKind::Action(b)
            && a == b)
    }

    /// Returns `true` if this card can be legally played on the `other` card.
    pub fn plays_on(&self, other: &UnoCard, declared_color: Option<UnoColor>) -> (legal: bool)
        ensures
            legal == self.plays_on_spec(*other, declared_color),
    {
        if let Some(declared) = declared_color {
            if self.color == declared {
                return true;
            }
        }
        if self.color == other.color {
            return true;
        }
        match self.kind {
            UnoCardKind::Wild | UnoCardKind::WildDrawFour => true,
            UnoCardKind::Number(x) => {
                if let UnoCardKind::Number(y) = other.kind {
                    x == y
                } else {
                    false
                }
            },
            UnoCardKind::Action(a) => {
                match other.kind {
                    UnoCardKind::Action(b) => a.order() == b.order(),
                    _ => false,
                }
            },
        }
    }

    /// The ordering the face comparison follows: any wild card outranks a
    /// non-wild one (two wilds compare greater, as a wild on the left wins),
    /// and otherwise kinds are compared first and colors break ties.
    pub open spec fn compare_spec(self, other: UnoCard) -> core::cmp::Ordering {
        if self.kind.is_wild_spec() {
            core::cmp::Ordering::Greater
        } else if other.kind.is_wild_spec() {
            core::cmp::Ordering::Less
        } else if self.kind.order_spec() < other.kind.order_spec() {
            core::cmp::Ordering::Less
        } else if self.kind.order_spec() > other.kind.order_spec() {
            core::cmp::Ordering::Greater
        } else if self.color.order_spec() < other.color.order_spec() {
            core::cmp::Ordering::Less
        } else if self.color.order_spec() > other.color.order_spec() {
            core::cmp::Ordering::Greater
        } else {
            core::cmp::Ordering::Equal
        }
    }
}

impl CardFaces for UnoCard {
    /// Color then kind: a red five reads `Red (#5)`.
    fn display_front(&self) -> (text: String)
        ensures
            text@ == self.color.text_spec() + " ("@ + self.kind.text_spec() + ")"@,
    {
        let mut text = String::from_str(self.color.text());
        text.append(" (");
        match self.kind {
            UnoCardKind::Number(n) => {
                text.append("#");
                push_decimal(&mut text, n);
            },
            UnoCardKind::Action(a) => text.append(a.text()),
            UnoCardKind::Wild => text.append("Wild"),
            UnoCardKind::WildDrawFour => text.append("Wild + Draw 4"),
        }
        text.append(")");
        proof {
            assert(text@ =~= self.color.text_spec() + " ("@ + self.kind.text_spec() + ")"@);
        }
        text
    }

    /// Uno cards have no distinct back.
    fn display_back(&self) -> (text: Option<String>)
        ensures
            text is None,
    {
        None
    }

    /// Cards are interchangeable when color and kind agree.
    fn matches(&self, other: &Self) -> (same: bool)
        ensures
            same == (self.color == other.color && self.kind == other.kind),
    {
        self.color == other.color && self.kind == other.kind
    }

    /// Orders cards with wilds on top, then by kind, then by color.
    fn compare(&self, other: &Self) -> (r: core::cmp::Ordering)
        ensures
            r == self.compare_spec(*other),
    {
        if self.kind.is_wild() {
            return core::cmp::Ordering::Greater;
        }
        if other.kind.is_wild() {
            return core::cmp::Ordering::Less;
        }
        let mine = self.kind.order();
        let theirs = other.kind.order();
        if mine < theirs {
            return core::cmp::Ordering::Less;
        }
        if mine > theirs {
            return core::cmp::Ordering::Greater;
        }
        let my_color = self.color.order();
        let their_color = other.color.order();
        if my_color < their_color {
            core::cmp::Ordering::Less
        } else if my_color > their_color {
            core::cmp::Ordering::Greater
        } else {
            core::cmp::Ordering::Equal
        }
    }
}

/// The color of each 19-card block of number cards: red, blue, green, yellow.
pub open spec fn nth_uno_color(i: int) -> UnoColor {
    if i == 0 {
        UnoColor::Red
    } else if i == 1 {
        UnoColor::Blue
    } else if i == 2 {
        UnoColor::Green
    } else {
        UnoColor::Yellow
    }
}

/// The number on the card at offset `j` of a color's 19-card number block:
/// one zero card, then two cards of each number one through nine.
pub open spec fn uno_number_at(j: int) -> u8 {
    if j == 0 {
        0u8
    } else {
        (((j + 1) / 2) as u8)
    }
}

/// The action at offset `j` of a color's 6-card action block: draw-two, skip
/// and reverse, twice over.
pub open spec fn uno_action_at(j: int) -> UnoAction {
    if j % 3 == 0 {
        UnoAction::DrawTwo
    } else if j % 3 == 1 {
        UnoAction::Skip
    } else {
        UnoAction::Reverse
    }
}

/// All of the number card faces for a standard Uno deck: for each of the four
/// main colors, one zero and two of each number one through nine.
pub fn uno_number_cards() -> (cards: Vec<UnoCard>)
    ensures
        cards@.len() == 76,
        forall|i: int|
            0 <= i < 76 ==> #[trigger] cards@[i] == (UnoCard {
                color: nth_uno_color(i / 19),
                kind: UnoCardKind::Number(uno_number_at(i % 19)),
            }),
{
    let mut cards: Vec<UnoCard> = Vec::new();
    let mut c: usize = 0;
    while c < 4
        invariant
            c <= 4,
            cards@.len() == 19 * c,
            forall|i: int|
                0 <= i < cards@.len() ==> #[trigger] cards@[i] == (UnoCard {
                    color: nth_uno_color(i / 19),
                    kind: UnoCardKind::Number(uno_number_at(i % 19)),
                }),
        decreases 4 - c,
    {
        let color = if c == 0 {
            UnoColor::Red
        } else if c == 1 {
            UnoColor::Blue
        } else if c == 2 {
            UnoColor::Green
        } else {
            UnoColor::Yellow
        };
        let mut j: usize = 0;
        while j < 19
            invariant
                c < 4,
                j <= 19,
                color == nth_uno_color(c as int),
                cards@.len() == 19 * c + j,
                forall|i: int|
                    0 <= i < cards@.len() ==> #[trigger] cards@[i] == (UnoCard {
                        color: nth_uno_color(i / 19),
                        kind: UnoCardKind::Number(uno_number_at(i % 19)),
                    }),
            decreases 19 - j,
        {
            let number = if j == 0 {
                0u8
            } else {
                ((j + 1) / 2) as u8
            };
            cards.push(UnoCard { color, kind: UnoCardKind::Number(number) });
            proof {
                let i = cards@.len() - 1;
                assert(i == 19 * c + j);
                assert(i % 19 == j && i / 19 == c) by (nonlinear_arith)
                    requires
                        i == 19 * c + j,
                        0 <= j < 19,
                        0 <= c,
                ;
                assert(number == uno_number_at(j as int));
            }
            j += 1;
        }
        c += 1;
    }
    cards
}

/// All of the action cards in a standard Uno deck: two of each action per
/// main color.
pub fn uno_action_cards() -> (cards: Vec<UnoCard>)
    ensures
        cards@.len() == 24,
        forall|i: int|
            0 <= i < 24 ==> #[trigger] cards@[i] == (UnoCard {
                color: nth_uno_color(i / 6),
                kind: UnoCardKind::Action(uno_action_at(i % 6)),
            }),
{
    let mut cards: Vec<UnoCard> = Vec::new();
    let mut c: usize = 0;
    while c < 4
        invariant
            c <= 4,
            cards@.len() == 6 * c,
            forall|i: int|
                0 <= i < cards@.len() ==> #[trigger] cards@[i] == (UnoCard {
                    color: nth_uno_color(i / 6),
                    kind: UnoCardKind::Action(uno_action_at(i % 6)),
                }),
        decreases 4 - c,
    {
        let color = if c == 0 {
            UnoColor::Red
        } else if c == 1 {
            UnoColor::Blue
        } else if c == 2 {
            UnoColor::Green
        } else {
            UnoColor::Yellow
        };
        let mut j: usize = 0;
        while j < 6
            invariant
                c < 4,
                j <= 6,
                color == nth_uno_color(c as int),
                cards@.len() == 6 * c + j,
                forall|i: int|
                    0 <= i < cards@.len() ==> #[trigger] cards@[i] == (UnoCard {
                        color: nth_uno_color(i / 6),
                        kind: UnoCardKind::Action(uno_action_at(i % 6)),
                    }),
            decreases 6 - j,
        {
            let action = if j % 3 == 0 {
                UnoAction::DrawTwo
            } else if j % 3 == 1 {
                UnoAction::Skip
            } else {
                UnoAction::Reverse
            };
            cards.push(UnoCard { color, kind: UnoCardKind::Action(action) });
            proof {
                let i = cards@.len() - 1;
                assert(i == 6 * c + j);
                assert(i % 6 == j && i / 6 == c) by (nonlinear_arith)
                    requires
                        i == 6 * c + j,
                        0 <= j < 6,
                        0 <= c,
                ;
                assert(action == uno_action_at(j as int));
            }
            j += 1;
        }
        c += 1;
    }
    cards
}

/// The wild cards for a standard Uno deck: four plain wilds and four
/// wild-draw-fours, alternating.
pub fn uno_wild_cards() -> (cards: Vec<UnoCard>)
    ensures
        cards@.len() == 8,
        forall|i: int|
            0 <= i < 8 ==> #[trigger] cards@[i] == (UnoCard {
                color: UnoColor::Black,
                kind: if i % 2 == 0 {
                    UnoCardKind::Wild
                } else {
                    UnoCardKind::WildDrawFour
                },
            }),
{
    let mut cards: Vec<UnoCard> = Vec::new();
    let mut k: usize = 0;
    while k < 4
        invariant
            k <= 4,
            cards@.len() == 2 * k,
            forall|i: int|
                0 <= i < cards@.len() ==> #[trigger] cards@[i] == (UnoCard {
                    color: UnoColor::Black,
                    kind: if i % 2 == 0 {
                        UnoCardKind::Wild
                    } else {
                        UnoCardKind::WildDrawFour
                    },
                }),
        decreases 4 - k,
    {
        cards.push(UnoCard { color: UnoColor::Black, kind: UnoCardKind::Wild });
        cards.push(UnoCard { color: UnoColor::Black, kind: UnoCardKind::WildDrawFour });
        k += 1;
    }
    cards
}

/// A full set of 108 Uno cards: the number cards, then the action cards, then
/// the wilds.
pub fn full_uno_set() -> (cards: Vec<UnoCard>)
    ensures
        cards@.len() == 108,
        forall|i: int|
            0 <= i < 76 ==> #[trigger] cards@[i] == (UnoCard {
                color: nth_uno_color(i / 19),
                kind: UnoCardKind::Number(uno_number_at(i % 19)),
            }),
        forall|i: int|
            76 <= i < 100 ==> #[trigger] cards@[i] == (UnoCard {
                color: nth_uno_color((i - 76) / 6),
                kind: UnoCardKind::Action(uno_action_at((i - 76) % 6)),
            }),
        forall|i: int|
            100 <= i < 108 ==> #[trigger] cards@[i] == (UnoCard {
                color: UnoColor::Black,
                kind: if (i - 100) % 2 == 0 {
                    UnoCardKind::Wild
                } else {
                    UnoCardKind::WildDrawFour
                },
            }),
{
    let mut cards = uno_number_cards();
    let mut actions = uno_action_cards();
    let mut wilds = uno_wild_cards();
    cards.append(&mut actions);
    cards.append(&mut wilds);
    cards
}

} // verus!
