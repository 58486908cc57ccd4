use vstd::prelude::*;

use crate::character::Type;

verus! {

/// A rule that a character imposes on every play set containing it.
#[derive(Debug, Clone, PartialEq, Eq)]
pub enum Condition {
    /// The character with this identifier must be selected too.
    Character { character: String },
    /// Changes how many characters of a category are allowed.
    Type { category: Type, amount: TypeCond },
    /// Allows the play set to grow past the player count.
    ExtraCharacters { extra_characters: ExtraCharacters },
}

/// How a `Condition::Type` rule changes the allowed counts of its category.
#[derive(Debug, Clone, PartialEq, Eq)]
pub enum TypeCond {
    /// No character of the category may be selected; its count is not checked further.
    Forbidden,
    /// The count of the category is not checked.
    Any,
    /// Every non-negative allowed count is reduced by each amount, floored at zero.
    SaturatingSub(Vec<u8>),
    /// Every allowed count is shifted by each delta.
    Add(Vec<i8>),
}

/// How many slots past the player count a character asks for.
#[derive(Debug, Clone, Copy, PartialEq, Eq)]
pub enum ExtraCharacters {
    /// A fixed number of extra slots.
    Const(u8),
    /// `max(0, count of the category - subtrahend)` extra slots.
    Type(Type, i8),
}

} // verus!
