use vstd::prelude::*;
use vstd::string::*;

use crate::condition::Condition;
use crate::consts::{
    DEMON_ICON, FABLED_ICON, MINION_ICON, OUTSIDER_ICON, TOWNSFOLK_ICON, TRAVELLER_ICON,
};

verus! {

/// A character of the game.
#[derive(Debug, Clone, PartialEq, Eq)]
pub struct Character {
    pub name: String,
    pub description: String,
    pub category: Type,
    pub icon: Option<String>,
    pub conditions: Option<Vec<Condition>>,
}

/// The category of a character.
#[derive(Debug, Clone, Copy, PartialEq, Eq, Structural, PartialOrd, Ord, Hash)]
pub enum Type {
    Townsfolk,
    Outsider,
    Minion,
    Demon,
    Fabled,
    Traveller,
}

/// An ASCII letter.
pub open spec fn is_ascii_letter(c: char) -> bool {
    ('a' <= c && c <= 'z') || ('A' <= c && c <= 'Z')
}

/// The lowercase form of an ASCII uppercase letter; any other character unchanged.
pub open spec fn ascii_lower(c: char) -> char {
    if 'A' <= c && c <= 'Z' {
        ((c as u32) + 32) as char
    } else {
        c
    }
}

/// The identifier derived from a display name: its ASCII letters, lowercased.
pub open spec fn id_of(name: Seq<char>) -> Seq<char>
    decreases name.len(),
{
    if name.len() == 0 {
        Seq::empty()
    } else {
        let rest = id_of(name.drop_last());
        if is_ascii_letter(name.last()) {
            rest.push(ascii_lower(name.last()))
        } else {
            rest
        }
    }
}

/// The plural display name of a category.
pub open spec fn plural_name(t: Type) -> Seq<char> {
    match t {
        Type::Townsfolk => "Townsfolk"@,
        Type::Outsider => "Outsiders"@,
        Type::Minion => "Minions"@,
        Type::Demon => "Demons"@,
        Type::Fabled => "Fabled"@,
        Type::Traveller => "Travellers"@,
    }
}

/// The address of a category's generic icon.
pub open spec fn icon_url(t: Type) -> Seq<char> {
    match t {
        Type::Townsfolk => TOWNSFOLK_ICON@,
        Type::Outsider => OUTSIDER_ICON@,
        Type::Minion => MINION_ICON@,
        Type::Demon => DEMON_ICON@,
        Type::Fabled => FABLED_ICON@,
        Type::Traveller => TRAVELLER_ICON@,
    }
}

fn letter(c: char) -> (r: bool)
    ensures
        r == is_ascii_letter(c),
{
    ('a' <= c && c <= 'z') || ('A' <= c && c <= 'Z')
}

fn lower(c: char) -> (r: char)
    ensures
        r == ascii_lower(c),
{
    if 'A' <= c && c <= 'Z' {
        ((c as u32 + 32) as u8) as char
    } else {
        c
    }
}

/// Relies on String::push: appends one character.
#[verifier::external_body]
pub(crate) fn push_char(s: &mut String, c: char)
    ensures
        final(s)@ == old(s)@.push(c),
{
    s.push(c)
}

impl Character {
    /// The identifier of the character.
    pub open spec fn spec_id(&self) -> Seq<char> {
        id_of(self.name@)
    }

    /// The identifier of the character, derived from its name.
    pub fn id(&self) -> (r: String)
        ensures
            r@ == self.spec_id(),
    {
        let name = self.name.as_str();
        let n = name.unicode_len();
        let mut r = String::new();
        let mut i: usize = 0;
        while i < n
            invariant
                n == name@.len(),
                name@ == self.name@,
                i <= n,
                r@ == id_of(name@.subrange(0, i as int)),
            decreases n - i,
        {
            let c = name.get_char(i);
            proof {
                assert(name@.subrange(0, i + 1).drop_last() =~= name@.subrange(0, i as int));
            }
            if letter(c) {
                push_char(&mut r, lower(c));
            }
            i += 1;
        }
        proof {
            assert(name@.subrange(0, n as int) =~= name@);
        }
        r
    }
}

impl Type {
    /// The plural display name of the category.
    pub fn plural_str(&self) -> (r: &str)
        ensures
            r@ == plural_name(*self),
    {
        match self {
            Type::Townsfolk => "Townsfolk",
            Type::Outsider => "Outsiders",
            Type::Minion => "Minions",
            Type::Demon => "Demons",
            Type::Fabled => "Fabled",
            Type::Traveller => "Travellers",
        }
    }

    /// The address of the category's generic icon.
    pub fn icon(&self) -> (r: &str)
        ensures
            r@ == icon_url(*self),
    {
        match self {
            Type::Townsfolk => TOWNSFOLK_ICON,
            Type::Outsider => OUTSIDER_ICON,
            Type::Minion => MINION_ICON,
            Type::Demon => DEMON_ICON,
            Type::Fabled => FABLED_ICON,
            Type::Traveller => TRAVELLER_ICON,
        }
    }
}

} // verus!
