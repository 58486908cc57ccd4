use vstd::prelude::*;
use vstd::string::*;

use crate::character::{push_char, Character};

verus! {

/// The characters and scripts that ship with the tool.
#[derive(Debug, Clone, PartialEq, Eq)]
pub struct IncludedData {
    pub characters: Vec<Character>,
    pub scripts: Vec<Script>,
}

/// The characters and scripts that the user added.
#[derive(Debug, Clone, PartialEq, Eq)]
pub struct UserData {
    pub characters: Vec<Character>,
    pub scripts: Vec<Script>,
}

impl Default for UserData {
    fn default() -> (r: UserData)
        ensures
            r.characters@.len() == 0,
            r.scripts@.len() == 0,
    {
        UserData { characters: Vec::new(), scripts: Vec::new() }
    }
}

/// A named list of character identifiers: the pool a play set is drawn from.
#[derive(Debug, Clone, PartialEq, Eq)]
pub struct Script {
    pub name: String,
    pub characters: Vec<String>,
}

/// One element of a script-builder export, reduced to what a script needs.
#[derive(Debug, Clone, PartialEq, Eq)]
pub enum ScriptEntry {
    /// An object, with its `id` and `name` string fields where present.
    Object { id: Option<String>, name: Option<String> },
    /// A bare string naming a character.
    Id(String),
    /// Any other value.
    Other,
}

/// The name given to an imported script whose metadata names none.
pub const UNNAMED_SCRIPT: &'static str = "My Script";

/// The identifiers held by a vector of strings.
pub open spec fn string_views(v: Seq<String>) -> Seq<Seq<char>> {
    v.map_values(|s: String| s@)
}

/// `s` without its `-` and `_` characters.
pub open spec fn strip_separators(s: Seq<char>) -> Seq<char>
    decreases s.len(),
{
    if s.len() == 0 {
        Seq::empty()
    } else {
        let rest = strip_separators(s.drop_last());
        if s.last() == '-' || s.last() == '_' {
            rest
        } else {
            rest.push(s.last())
        }
    }
}

/// The identifier an object lists: non-empty and not starting with `_`.
pub open spec fn listed_id(e: ScriptEntry) -> Option<Seq<char>> {
    match e {
        ScriptEntry::Object { id: Some(i), name: _ } => if i@.len() > 0 && i@[0] != '_' {
            Some(i@)
        } else {
            None
        },
        _ => None,
    }
}

/// The identifier that a bare string names.
pub open spec fn bare_id(e: ScriptEntry) -> Option<Seq<char>> {
    match e {
        ScriptEntry::Id(s) => Some(s@),
        _ => None,
    }
}

/// The identifiers that the objects list, in order, separators stripped.
pub open spec fn listed_ids(es: Seq<ScriptEntry>) -> Seq<Seq<char>>
    decreases es.len(),
{
    if es.len() == 0 {
        Seq::empty()
    } else {
        let rest = listed_ids(es.drop_last());
        match listed_id(es.last()) {
            Some(i) => rest.push(strip_separators(i)),
            None => rest,
        }
    }
}

/// The bare identifiers, in order, separators stripped.
pub open spec fn bare_ids(es: Seq<ScriptEntry>) -> Seq<Seq<char>>
    decreases es.len(),
{
    if es.len() == 0 {
        Seq::empty()
    } else {
        let rest = bare_ids(es.drop_last());
        match bare_id(es.last()) {
            Some(i) => rest.push(strip_separators(i)),
            None => rest,
        }
    }
}

/// An object whose identifier is `_meta`.
pub open spec fn is_meta(e: ScriptEntry) -> bool {
    match e {
        ScriptEntry::Object { id: Some(i), name: _ } => i@ == "_meta"@,
        _ => false,
    }
}

/// The name of the first metadata object, if it holds a non-empty one.
pub open spec fn script_name(es: Seq<ScriptEntry>) -> Seq<char>
    decreases es.len(),
{
    if es.len() == 0 {
        UNNAMED_SCRIPT@
    } else if is_meta(es[0]) {
        match es[0] {
            ScriptEntry::Object { id: _, name: Some(n) } => if n@.len() > 0 {
                n@
            } else {
                UNNAMED_SCRIPT@
            },
            _ => UNNAMED_SCRIPT@,
        }
    } else {
        script_name(es.drop_first())
    }
}

fn strip(s: &String) -> (r: String)
    ensures
        r@ == strip_separators(s@),
{
    let text = s.as_str();
    let n = text.unicode_len();
    let mut r = String::new();
    let mut i: usize = 0;
    while i < n
        invariant
            n == text@.len(),
            text@ == s@,
            i <= n,
            r@ == strip_separators(text@.subrange(0, i as int)),
        decreases n - i,
    {
        let c = text.get_char(i);
        proof {
            assert(text@.subrange(0, i + 1).drop_last() =~= text@.subrange(0, i as int));
        }
        if c != '-' && c != '_' {
            push_char(&mut r, c);
        }
        i += 1;
    }
    proof {
        assert(text@.subrange(0, n as int) =~= text@);
    }
    r
}

fn is_meta_id(s: &String) -> (r: bool)
    ensures
        r == (s@ == "_meta"@),
{
    let text = s.as_str();
    proof {
        reveal_strlit("_meta");
    }
    if text.unicode_len() != 5 {
        return false;
    }
    let same = text.get_char(0) == '_' && text.get_char(1) == 'm' && text.get_char(2) == 'e'
        && text.get_char(3) == 't' && text.get_char(4) == 'a';
    proof {
        if same {
            assert(text@ =~= "_meta"@);
        }
    }
    same
}

/// Builds a script from the elements of a script-builder export: its name from
/// the first metadata object, its characters from the identifiers that objects
/// list followed by the bare identifiers, with `-` and `_` removed.
pub fn script_from_entries(entries: &Vec<ScriptEntry>) -> (r: Script)
    ensures
        r.name@ == script_name(entries@),
        string_views(r.characters@) == listed_ids(entries@) + bare_ids(entries@),
{
    let mut name: String = UNNAMED_SCRIPT.to_owned();
    let mut i: usize = 0;
    proof {
        assert(entries@.subrange(0, entries@.len() as int) =~= entries@);
    }
    while i < entries.len()
        invariant_except_break
            i <= entries@.len(),
            script_name(entries@) == script_name(entries@.subrange(i as int, entries@.len() as int)),
            name@ == UNNAMED_SCRIPT@,
        ensures
            name@ == script_name(entries@),
        decreases entries.len() - i,
    {
        let ghost rest = entries@.subrange(i as int, entries@.len() as int);
        proof {
            assert(rest[0] == entries@[i as int]);
            assert(rest.drop_first() =~= entries@.subrange(i + 1, entries@.len() as int));
        }
        if let ScriptEntry::Object { id: Some(id), name: found } = &entries[i] {
            if is_meta_id(id) {
                if let Some(n) = found {
                    if n.unicode_len() > 0 {
                        name = n.clone();
                    }
                }
                break;
            }
        }
        i += 1;
    }
    let mut characters: Vec<String> = Vec::new();
    let mut i: usize = 0;
    proof {
        assert(string_views(characters@) =~= listed_ids(entries@.subrange(0, 0)));
    }
    while i < entries.len()
        invariant
            i <= entries@.len(),
            string_views(characters@) == listed_ids(entries@.subrange(0, i as int)),
        decreases entries.len() - i,
    {
        proof {
            assert(entries@.subrange(0, i + 1).drop_last() =~= entries@.subrange(0, i as int));
        }
        let ghost before = characters@;
        if let ScriptEntry::Object { id: Some(id), name: _ } = &entries[i] {
            if id.unicode_len() > 0 && id.as_str().get_char(0) != '_' {
                characters.push(strip(id));
                proof {
                    assert(string_views(characters@) =~= string_views(before).push(
                        strip_separators(id@),
                    ));
                }
            }
        }
        i += 1;
    }
    proof {
        assert(entries@.subrange(0, entries@.len() as int) =~= entries@);
    }
    let ghost listed = string_views(characters@);
    let mut i: usize = 0;
    proof {
        assert(string_views(characters@) =~= listed + bare_ids(entries@.subrange(0, 0)));
    }
    while i < entries.len()
        invariant
            i <= entries@.len(),
            string_views(characters@) == listed + bare_ids(entries@.subrange(0, i as int)),
        decreases entries.len() - i,
    {
        proof {
            assert(entries@.subrange(0, i + 1).drop_last() =~= entries@.subrange(0, i as int));
        }
        let ghost before = characters@;
        if let ScriptEntry::Id(id) = &entries[i] {
            characters.push(strip(id));
            proof {
                assert(string_views(characters@) =~= string_views(before).push(
                    strip_separators(id@),
                ));
            }
        }
        i += 1;
    }
    proof {
        assert(entries@.subrange(0, entries@.len() as int) =~= entries@);
    }
    Script { name, characters }
}

} // verus!
