use vstd::prelude::*;

use rand::rngs::StdRng;

use crate::character::{push_char, Character, Type};
use crate::consts::{DEFAULT_SCRIPT, MAX_GENERATION_ITERATIONS};
use crate::data::{string_views, IncludedData, Script, UserData};
use crate::search::{accepted_draw, ids_of, search, whole_pool_accepted};
use crate::validate::{
    chars_of, clamp0, lemma_chars_push, extra_slots, ints_i16, is_valid_composition, validate_list, TypeCounts,
};

verus! {

/// Everything the selection tool knows: the catalogue, the chosen script, the
/// requested counts and the current selection.
#[derive(Debug, Clone, PartialEq, Eq)]
pub struct State {
    pub script: String,
    /// The selected character identifiers, each with its lock, in selection order.
    pub selected: Vec<(String, Selected)>,
    pub player_count: u8,
    pub type_counts_locked: bool,
    pub outsider_count: u8,
    pub minion_count: u8,
    pub demon_count: u8,
    pub included_data: IncludedData,
    pub user_data: UserData,
    pub expanded_script_menu: bool,
    pub script_rename_input: String,
    pub script_input: String,
}

/// Whether a selected character is pinned against randomization.
#[derive(Debug, Clone, Copy, PartialEq, Eq, Structural)]
pub struct Selected {
    pub locked: bool,
}

impl Default for Selected {
    fn default() -> (r: Selected)
        ensures
            !r.locked,
    {
        Selected { locked: false }
    }
}

/// The first catalogue entry whose identifier is `id`.
pub open spec fn lookup(cat: Seq<Character>, id: Seq<char>) -> Option<Character>
    decreases cat.len(),
{
    if cat.len() == 0 {
        None
    } else if cat[0].spec_id() == id {
        Some(cat[0])
    } else {
        lookup(cat.drop_first(), id)
    }
}

/// The catalogue entries of the identifiers that resolve, in order.
pub open spec fn resolve(cat: Seq<Character>, ids: Seq<Seq<char>>) -> Seq<Character>
    decreases ids.len(),
{
    if ids.len() == 0 {
        Seq::empty()
    } else {
        let rest = resolve(cat, ids.drop_last());
        match lookup(cat, ids.last()) {
            Some(c) => rest.push(c),
            None => rest,
        }
    }
}

/// The character that an optional reference points to.
pub open spec fn opt_char(r: Option<&Character>) -> Option<Character> {
    match r {
        Some(c) => Some(*c),
        None => None,
    }
}

/// The identifiers of selection entries, in order.
pub open spec fn entry_ids(s: Seq<(String, Selected)>) -> Seq<Seq<char>> {
    s.map_values(|e: (String, Selected)| e.0@)
}


/// The identifier `id` once for each catalogue entry that has it.
pub open spec fn matching_ids(cat: Seq<Character>, id: Seq<char>) -> Seq<Seq<char>>
    decreases cat.len(),
{
    if cat.len() == 0 {
        Seq::empty()
    } else {
        let rest = matching_ids(cat.drop_last(), id);
        if cat.last().spec_id() == id {
            rest.push(id)
        } else {
            rest
        }
    }
}

/// A script's identifiers resolved against the catalogue: unknown ones dropped,
/// one copy for each catalogue entry that has the identifier.
pub open spec fn resolved_ids(cat: Seq<Character>, ids: Seq<Seq<char>>) -> Seq<Seq<char>>
    decreases ids.len(),
{
    if ids.len() == 0 {
        Seq::empty()
    } else {
        resolved_ids(cat, ids.drop_last()) + matching_ids(cat, ids.last())
    }
}

/// `r` is script `s` with its identifiers resolved against the catalogue.
pub open spec fn resolves_to(cat: Seq<Character>, s: Script, r: Script) -> bool {
    &&& r.name@ == s.name@
    &&& string_views(r.characters@) == resolved_ids(cat, string_views(s.characters@))
}

/// The index of the first script named `name`, or the number of scripts.
pub open spec fn first_named(scripts: Seq<Script>, name: Seq<char>) -> int
    decreases scripts.len(),
{
    if scripts.len() == 0 {
        0
    } else {
        let k = first_named(scripts.drop_last(), name);
        if k < scripts.len() - 1 {
            k
        } else if scripts.last().name@ == name {
            scripts.len() - 1
        } else {
            scripts.len() as int
        }
    }
}

/// The members of `cs` whose identifier no member of `locked` has.
pub open spec fn without_ids(cs: Seq<Character>, locked: Seq<Character>) -> Seq<Character>
    decreases cs.len(),
{
    if cs.len() == 0 {
        Seq::empty()
    } else {
        let rest = without_ids(cs.drop_last(), locked);
        if exists|j: int| 0 <= j < locked.len() && locked[j].spec_id() == cs.last().spec_id() {
            rest
        } else {
            rest.push(cs.last())
        }
    }
}

/// The entries that are locked, in order.
pub open spec fn locked_entries(s: Seq<(String, Selected)>) -> Seq<(String, Selected)>
    decreases s.len(),
{
    if s.len() == 0 {
        Seq::empty()
    } else {
        let rest = locked_entries(s.drop_last());
        if s.last().1.locked {
            rest.push(s.last())
        } else {
            rest
        }
    }
}

/// The identifiers of the entries that are not locked, in order.
pub open spec fn unlocked_ids(s: Seq<(String, Selected)>) -> Seq<Seq<char>>
    decreases s.len(),
{
    if s.len() == 0 {
        Seq::empty()
    } else {
        let rest = unlocked_ids(s.drop_last());
        if s.last().1.locked {
            rest
        } else {
            rest.push(s.last().0@)
        }
    }
}

/// An entry as identifier and lock.
pub open spec fn entry_views(s: Seq<(String, Selected)>) -> Seq<(Seq<char>, bool)> {
    s.map_values(|e: (String, Selected)| (e.0@, e.1.locked))
}

/// Selects `id` unlocked: entries with that identifier are unlocked, or one is
/// added at its place in identifier order.
pub open spec fn put_unlocked(s: Seq<(Seq<char>, bool)>, id: Seq<char>) -> Seq<(Seq<char>, bool)> {
    if exists|k: int| 0 <= k < s.len() && s[k].0 == id {
        s.map_values(
            |e: (Seq<char>, bool)|
                if e.0 == id {
                    (id, false)
                } else {
                    e
                },
        )
    } else {
        s.insert(insert_pos(view_ids(s), id), (id, false))
    }
}

/// Selects each of `ids` unlocked, in order.
pub open spec fn put_all_unlocked(s: Seq<(Seq<char>, bool)>, ids: Seq<Seq<char>>) -> Seq<(Seq<char>, bool)>
    decreases ids.len(),
{
    if ids.len() == 0 {
        s
    } else {
        put_unlocked(put_all_unlocked(s, ids.drop_last()), ids.last())
    }
}

proof fn lemma_first_named_prefix(scripts: Seq<Script>, name: Seq<char>, n: int, k: int)
    requires
        0 <= k < n <= scripts.len(),
        first_named(scripts.subrange(0, n), name) == k,
    ensures
        first_named(scripts, name) == k,
    decreases scripts.len() - n,
{
    if n < scripts.len() {
        assert(scripts.subrange(0, n + 1).drop_last() =~= scripts.subrange(0, n));
        assert(first_named(scripts.subrange(0, n + 1), name) == k);
        lemma_first_named_prefix(scripts, name, n + 1, k);
    } else {
        assert(scripts.subrange(0, n) =~= scripts);
    }
}


/// The decimal digit for `d < 10`.
pub open spec fn digit(d: nat) -> char {
    (('0' as u32) + d) as char
}

/// `n` in decimal.
pub open spec fn decimal(n: nat) -> Seq<char>
    decreases n,
{
    if n < 10 {
        seq![digit(n)]
    } else {
        decimal(n / 10).push(digit(n % 10))
    }
}

/// `base (n)`: the name given to the `n`-th copy of a script name.
pub open spec fn numbered(base: Seq<char>, n: nat) -> Seq<char> {
    base + " ("@ + decimal(n) + ")"@
}

fn digit_char(d: u64) -> (r: char)
    requires
        d < 10,
    ensures
        r == digit(d as nat),
{
    ((48 + d) as u8) as char
}

/// `base (n)`, with `n` in decimal.
fn numbered_name(base: &String, n: u64) -> (r: String)
    ensures
        r@ == numbered(base@, n as nat),
{
    let mut tail: Vec<char> = Vec::new();
    let mut q: u64 = n;
    proof {
        assert(decimal(n as nat) =~= decimal(q as nat) + tail@);
    }
    while q >= 10
        invariant
            decimal(n as nat) == decimal(q as nat) + tail@,
        decreases q,
    {
        let d = digit_char(q % 10);
        proof {
            assert(decimal(q as nat) == decimal((q / 10) as nat).push(digit((q % 10) as nat)));
            assert(decimal(q as nat) + tail@ =~= decimal((q / 10) as nat) + (seq![d] + tail@));
        }
        let ghost before = tail@;
        tail.insert(0, d);
        proof {
            assert(tail@ =~= seq![d] + before);
        }
        q = q / 10;
    }
    let first = digit_char(q);
    let mut r = base.clone();
    push_char(&mut r, ' ');
    push_char(&mut r, '(');
    push_char(&mut r, first);
    let ghost digits = decimal(n as nat);
    proof {
        assert(decimal(q as nat) == seq![first]);
        assert(digits =~= seq![first] + tail@);
        reveal_strlit(" (");
        assert(r@ =~= base@ + " ("@ + digits.subrange(0, 1));
    }
    let mut i: usize = 0;
    while i < tail.len()
        invariant
            digits == seq![first] + tail@,
            i <= tail@.len(),
            r@ == base@ + " ("@ + digits.subrange(0, i + 1),
        decreases tail.len() - i,
    {
        push_char(&mut r, tail[i]);
        proof {
            assert(digits.subrange(0, i + 2) =~= digits.subrange(0, i + 1).push(tail@[i as int]));
        }
        i += 1;
    }
    push_char(&mut r, ')');
    proof {
        assert(digits.subrange(0, i + 1) =~= digits);
        reveal_strlit(")");
        assert(r@ =~= numbered(base@, n as nat));
    }
    r
}

/// The scripts whose name is not `name`, in order.
pub open spec fn without_script(s: Seq<Script>, name: Seq<char>) -> Seq<Script>
    decreases s.len(),
{
    if s.len() == 0 {
        Seq::empty()
    } else {
        let rest = without_script(s.drop_last(), name);
        if s.last().name@ == name {
            rest
        } else {
            rest.push(s.last())
        }
    }
}

/// `a` comes strictly before `b`.
pub open spec fn id_lt(a: Seq<char>, b: Seq<char>) -> bool {
    name_le(a, b) && a != b
}

/// The identifiers are strictly ascending: sorted, with no repeats.
pub open spec fn ids_ascending(ids: Seq<Seq<char>>) -> bool {
    forall|i: int, j: int| 0 <= i < j < ids.len() ==> id_lt(#[trigger] ids[i], #[trigger] ids[j])
}

/// The identifiers of selection entries given as identifier and lock.
pub open spec fn view_ids(s: Seq<(Seq<char>, bool)>) -> Seq<Seq<char>> {
    s.map_values(|e: (Seq<char>, bool)| e.0)
}

/// The entries' identifiers are strictly ascending.
pub open spec fn ascending_entries(s: Seq<(String, Selected)>) -> bool {
    ids_ascending(entry_ids(s))
}

/// Where `id` goes among ascending identifiers: after every smaller one.
pub open spec fn insert_pos(ids: Seq<Seq<char>>, id: Seq<char>) -> int
    decreases ids.len(),
{
    if ids.len() == 0 {
        0
    } else if id_lt(ids[0], id) {
        1 + insert_pos(ids.drop_first(), id)
    } else {
        0
    }
}

/// The index of the first occurrence of `id`, or the length if there is none.
pub open spec fn index_of(ids: Seq<Seq<char>>, id: Seq<char>) -> int
    decreases ids.len(),
{
    if ids.len() == 0 {
        0
    } else if ids[0] == id {
        0
    } else {
        1 + index_of(ids.drop_first(), id)
    }
}

proof fn lemma_name_le_antisymmetric(a: Seq<char>, b: Seq<char>)
    requires
        name_le(a, b),
        name_le(b, a),
    ensures
        a == b,
    decreases a.len(),
{
    if a.len() > 0 && b.len() > 0 {
        lemma_name_le_antisymmetric(a.drop_first(), b.drop_first());
        assert(a =~= seq![a[0]] + a.drop_first());
        assert(b =~= seq![b[0]] + b.drop_first());
    } else {
        assert(a =~= b);
    }
}

proof fn lemma_id_lt_transitive(a: Seq<char>, b: Seq<char>, c: Seq<char>)
    requires
        id_lt(a, b),
        id_lt(b, c),
    ensures
        id_lt(a, c),
{
    lemma_name_le_transitive(a, b, c);
    if a == c {
        lemma_name_le_antisymmetric(a, b);
    }
}

proof fn lemma_insert_pos(ids: Seq<Seq<char>>, id: Seq<char>)
    ensures
        0 <= insert_pos(ids, id) <= ids.len(),
        forall|j: int| 0 <= j < insert_pos(ids, id) ==> id_lt(#[trigger] ids[j], id),
        insert_pos(ids, id) < ids.len() ==> !id_lt(ids[insert_pos(ids, id)], id),
    decreases ids.len(),
{
    if ids.len() > 0 && id_lt(ids[0], id) {
        let rest = ids.drop_first();
        lemma_insert_pos(rest, id);
        assert forall|j: int| 0 <= j < insert_pos(ids, id) implies id_lt(#[trigger] ids[j], id) by {
            if j > 0 {
                assert(ids[j] == rest[j - 1]);
            }
        }
        if insert_pos(ids, id) < ids.len() {
            assert(ids[insert_pos(ids, id)] == rest[insert_pos(rest, id)]);
        }
    }
}

proof fn lemma_index_of(ids: Seq<Seq<char>>, id: Seq<char>)
    ensures
        0 <= index_of(ids, id) <= ids.len(),
        ids.contains(id) <==> index_of(ids, id) < ids.len(),
        index_of(ids, id) < ids.len() ==> ids[index_of(ids, id)] == id,
    decreases ids.len(),
{
    if ids.len() > 0 && ids[0] != id {
        let rest = ids.drop_first();
        lemma_index_of(rest, id);
        if ids.contains(id) {
            let k = choose|k: int| 0 <= k < ids.len() && ids[k] == id;
            assert(rest[k - 1] == id);
        }
        if rest.contains(id) {
            let k = choose|k: int| 0 <= k < rest.len() && rest[k] == id;
            assert(ids[k + 1] == id);
        }
    } else if ids.len() > 0 {
        assert(ids[0] == id);
    }
}

proof fn lemma_insert_ascending(ids: Seq<Seq<char>>, id: Seq<char>)
    requires
        ids_ascending(ids),
        !ids.contains(id),
    ensures
        ids_ascending(ids.insert(insert_pos(ids, id), id)),
{
    lemma_insert_pos(ids, id);
    let p = insert_pos(ids, id);
    let new = ids.insert(p, id);
    if p < ids.len() {
        assert(ids[p] != id);
        lemma_name_le_total(ids[p], id);
    }
    assert forall|a: int, b: int| 0 <= a < b < new.len() implies id_lt(
        #[trigger] new[a],
        #[trigger] new[b],
    ) by {
        if b < p {
            assert(new[a] == ids[a] && new[b] == ids[b]);
        } else if b == p {
            assert(new[a] == ids[a]);
        } else if a < p {
            assert(new[a] == ids[a] && new[b] == ids[b - 1]);
        } else if a == p {
            assert(new[b] == ids[b - 1]);
            assert(id_lt(id, ids[p]));
            if b - 1 > p {
                lemma_id_lt_transitive(id, ids[p], ids[b - 1]);
            }
        } else {
            assert(new[a] == ids[a - 1] && new[b] == ids[b - 1]);
        }
    }
}

proof fn lemma_remove_ascending(ids: Seq<Seq<char>>, k: int)
    requires
        ids_ascending(ids),
        0 <= k < ids.len(),
    ensures
        ids_ascending(ids.remove(k)),
{
    let new = ids.remove(k);
    assert forall|a: int, b: int| 0 <= a < b < new.len() implies id_lt(
        #[trigger] new[a],
        #[trigger] new[b],
    ) by {
        let a0 = if a < k { a } else { a + 1 };
        let b0 = if b < k { b } else { b + 1 };
        assert(new[a] == ids[a0] && new[b] == ids[b0]);
    }
}

/// The first member of `cs` with identifier `id`.
fn find_by_id<'a>(cs: &Vec<&'a Character>, id: &String) -> (r: Option<&'a Character>)
    ensures
        opt_char(r) == lookup(chars_of(cs@), id@),
{
    let mut i: usize = 0;
    proof {
        assert(chars_of(cs@).subrange(0, cs@.len() as int) =~= chars_of(cs@));
    }
    while i < cs.len()
        invariant
            i <= cs@.len(),
            lookup(chars_of(cs@), id@) == lookup(chars_of(cs@).subrange(i as int, cs@.len() as int), id@),
        decreases cs.len() - i,
    {
        let ghost rest = chars_of(cs@).subrange(i as int, cs@.len() as int);
        proof {
            assert(rest[0] == *cs@[i as int]);
            assert(rest.drop_first() =~= chars_of(cs@).subrange(i + 1, cs@.len() as int));
        }
        if cs[i].id() == *id {
            return Some(cs[i]);
        }
        i += 1;
    }
    None
}

proof fn lemma_view_ids(s: Seq<(String, Selected)>)
    ensures
        view_ids(entry_views(s)) == entry_ids(s),
{
    assert(view_ids(entry_views(s)) =~= entry_ids(s));
}

proof fn lemma_locked_entries_from(s: Seq<(String, Selected)>)
    ensures
        forall|k: int|
            0 <= k < locked_entries(s).len() ==> exists|j: int|
                0 <= j < s.len() && #[trigger] locked_entries(s)[k] == s[j],
    decreases s.len(),
{
    if s.len() > 0 {
        let r = s.drop_last();
        lemma_locked_entries_from(r);
        assert forall|k: int| 0 <= k < locked_entries(s).len() implies exists|j: int|
            0 <= j < s.len() && #[trigger] locked_entries(s)[k] == s[j] by {
            if k < locked_entries(r).len() {
                let j = choose|j: int| 0 <= j < r.len() && #[trigger] locked_entries(r)[k] == r[j];
                assert(s[j] == r[j]);
            } else {
                assert(locked_entries(s)[k] == s[s.len() - 1]);
            }
        }
    }
}

proof fn lemma_locked_entries_ascending(s: Seq<(String, Selected)>)
    requires
        ascending_entries(s),
    ensures
        ascending_entries(locked_entries(s)),
    decreases s.len(),
{
    if s.len() > 0 {
        let r = s.drop_last();
        assert forall|a: int, b: int| 0 <= a < b < entry_ids(r).len() implies id_lt(
            #[trigger] entry_ids(r)[a],
            #[trigger] entry_ids(r)[b],
        ) by {
            assert(entry_ids(r)[a] == entry_ids(s)[a] && entry_ids(r)[b] == entry_ids(s)[b]);
        }
        lemma_locked_entries_ascending(r);
        lemma_locked_entries_from(r);
        let l = locked_entries(s);
        let lr = locked_entries(r);
        if s.last().1.locked {
            assert forall|a: int, b: int| 0 <= a < b < entry_ids(l).len() implies id_lt(
                #[trigger] entry_ids(l)[a],
                #[trigger] entry_ids(l)[b],
            ) by {
                if b < lr.len() {
                    assert(entry_ids(l)[a] == entry_ids(lr)[a] && entry_ids(l)[b] == entry_ids(lr)[b]);
                } else {
                    let j = choose|j: int| 0 <= j < r.len() && #[trigger] lr[a] == r[j];
                    assert(entry_ids(l)[a] == entry_ids(s)[j]);
                    assert(entry_ids(l)[b] == entry_ids(s)[s.len() - 1]);
                }
            }
        }
    }
}

proof fn lemma_lookup_id(cat: Seq<Character>, id: Seq<char>)
    ensures
        lookup(cat, id) matches Some(c) ==> c.spec_id() == id,
    decreases cat.len(),
{
    if cat.len() > 0 && cat[0].spec_id() != id {
        lemma_lookup_id(cat.drop_first(), id);
    }
}

proof fn lemma_resolve_ascending(cat: Seq<Character>, ids: Seq<Seq<char>>)
    requires
        ids_ascending(ids),
    ensures
        ids_ascending(ids_of(resolve(cat, ids))),
        forall|k: int|
            0 <= k < resolve(cat, ids).len() ==> exists|j: int|
                0 <= j < ids.len() && #[trigger] resolve(cat, ids)[k].spec_id() == ids[j],
    decreases ids.len(),
{
    if ids.len() > 0 {
        let r = ids.drop_last();
        assert forall|a: int, b: int| 0 <= a < b < r.len() implies id_lt(#[trigger] r[a], #[trigger] r[b]) by {
            assert(r[a] == ids[a] && r[b] == ids[b]);
        }
        lemma_resolve_ascending(cat, r);
        lemma_lookup_id(cat, ids.last());
        let prev = resolve(cat, r);
        let cur = resolve(cat, ids);
        assert forall|k: int| 0 <= k < cur.len() implies exists|j: int|
            0 <= j < ids.len() && #[trigger] cur[k].spec_id() == ids[j] by {
            if k < prev.len() {
                let j = choose|j: int| 0 <= j < r.len() && #[trigger] prev[k].spec_id() == r[j];
                assert(cur[k] == prev[k] && ids[j] == r[j]);
            } else {
                assert(cur[k].spec_id() == ids[ids.len() - 1]);
            }
        }
        assert forall|a: int, b: int| 0 <= a < b < ids_of(cur).len() implies id_lt(
            #[trigger] ids_of(cur)[a],
            #[trigger] ids_of(cur)[b],
        ) by {
            if b < prev.len() {
                assert(ids_of(cur)[a] == ids_of(prev)[a] && ids_of(cur)[b] == ids_of(prev)[b]);
            } else {
                let j = choose|j: int| 0 <= j < r.len() && #[trigger] prev[a].spec_id() == r[j];
                assert(ids_of(cur)[a] == ids[j]);
                assert(ids_of(cur)[b] == ids[ids.len() - 1]);
            }
        }
    }
}

/// Where `id` goes in the ascending selection `sel`.
fn insertion_point(sel: &Vec<(String, Selected)>, id: &String) -> (k: usize)
    ensures
        k == insert_pos(entry_ids(sel@), id@),
{
    let ghost ids = entry_ids(sel@);
    let mut k: usize = 0;
    proof {
        assert(ids.subrange(0, ids.len() as int) =~= ids);
    }
    while k < sel.len() && !(sel[k].0 == *id) && names_in_order(&sel[k].0, id)
        invariant
            ids == entry_ids(sel@),
            k <= sel@.len(),
            insert_pos(ids, id@) == k + insert_pos(ids.subrange(k as int, ids.len() as int), id@),
        decreases sel.len() - k,
    {
        proof {
            let rest = ids.subrange(k as int, ids.len() as int);
            assert(rest[0] == sel@[k as int].0@);
            assert(rest.drop_first() =~= ids.subrange(k + 1, ids.len() as int));
        }
        k += 1;
    }
    proof {
        let rest = ids.subrange(k as int, ids.len() as int);
        if k < sel@.len() {
            assert(rest[0] == sel@[k as int].0@);
        }
    }
    k
}

/// The index of the first entry of `sel` with identifier `id`, or its length.
fn position_of(sel: &Vec<(String, Selected)>, id: &String) -> (k: usize)
    ensures
        k == index_of(entry_ids(sel@), id@),
{
    let ghost ids = entry_ids(sel@);
    let mut k: usize = 0;
    proof {
        assert(ids.subrange(0, ids.len() as int) =~= ids);
    }
    while k < sel.len() && !(sel[k].0 == *id)
        invariant
            ids == entry_ids(sel@),
            k <= sel@.len(),
            index_of(ids, id@) == k + index_of(ids.subrange(k as int, ids.len() as int), id@),
        decreases sel.len() - k,
    {
        proof {
            let rest = ids.subrange(k as int, ids.len() as int);
            assert(rest[0] == sel@[k as int].0@);
            assert(rest.drop_first() =~= ids.subrange(k + 1, ids.len() as int));
        }
        k += 1;
    }
    proof {
        let rest = ids.subrange(k as int, ids.len() as int);
        if k < sel@.len() {
            assert(rest[0] == sel@[k as int].0@);
        }
    }
    k
}

proof fn lemma_entry_ids_insert(s: Seq<(String, Selected)>, k: int, e: (String, Selected))
    requires
        0 <= k <= s.len(),
    ensures
        entry_ids(s.insert(k, e)) == entry_ids(s).insert(k, e.0@),
{
    assert(entry_ids(s.insert(k, e)) =~= entry_ids(s).insert(k, e.0@));
}

proof fn lemma_entry_ids_remove(s: Seq<(String, Selected)>, k: int)
    requires
        0 <= k < s.len(),
    ensures
        entry_ids(s.remove(k)) == entry_ids(s).remove(k),
{
    assert(entry_ids(s.remove(k)) =~= entry_ids(s).remove(k));
}

/// Selects `id` unlocked in `selected`.
fn select_unlocked(selected: &mut Vec<(String, Selected)>, id: String)
    ensures
        entry_views(final(selected)@) == put_unlocked(entry_views(old(selected)@), id@),
        ascending_entries(old(selected)@) ==> ascending_entries(final(selected)@),
{
    proof {
        lemma_view_ids(old(selected)@);
    }
    let ghost start = entry_views(selected@);
    let ghost target = start.map_values(
        |e: (Seq<char>, bool)|
            if e.0 == id@ {
                (id@, false)
            } else {
                e
            },
    );
    let mut found = false;
    let mut k: usize = 0;
    while k < selected.len()
        invariant
            selected@.len() == start.len(),
            start == entry_views(old(selected)@),
            target.len() == start.len(),
            forall|j: int| 0 <= j < start.len() ==> #[trigger] target[j] == (if start[j].0 == id@ {
                (id@, false)
            } else {
                start[j]
            }),
            k <= selected@.len(),
            found == exists|j: int| 0 <= j < k && start[j].0 == id@,
            forall|j: int| 0 <= j < k ==> #[trigger] entry_views(selected@)[j] == target[j],
            forall|j: int| k <= j < selected@.len() ==> #[trigger] selected@[j] == old(selected)@[j],
        decreases selected.len() - k,
    {
        proof {
            assert(start[k as int] == (selected@[k as int].0@, selected@[k as int].1.locked));
        }
        let ghost before = selected@;
        if selected[k].0 == id {
            let name = selected[k].0.clone();
            selected.set(k, (name, Selected { locked: false }));
            found = true;
        }
        proof {
            assert(entry_views(selected@)[k as int] == target[k as int]);
            assert forall|j: int| 0 <= j < k + 1 implies #[trigger] entry_views(selected@)[j]
                == target[j] by {
                if j < k {
                    assert(selected@[j] == before[j]);
                    assert(entry_views(before)[j] == target[j]);
                }
            }
        }
        k += 1;
    }
    if !found {
        let ghost before = selected@;
        proof {
            assert forall|j: int| 0 <= j < start.len() implies #[trigger] entry_views(before)[j]
                == start[j] by {
                assert(entry_views(before)[j] == target[j]);
            }
            assert(entry_views(before) =~= start);
            lemma_view_ids(before);
            lemma_index_of(entry_ids(before), id@);
            lemma_insert_pos(entry_ids(before), id@);
            if entry_ids(before).contains(id@) {
                let j = choose|j: int| 0 <= j < entry_ids(before).len() && entry_ids(before)[j] == id@;
                assert(start[j].0 == id@);
            }
        }
        let p = insertion_point(selected, &id);
        let ghost key = id@;
        selected.insert(p, (id, Selected { locked: false }));
        proof {
            assert(selected@ == before.insert(p as int, selected@[p as int]));
            assert(entry_views(selected@) =~= entry_views(before).insert(p as int, (key, false)));
            lemma_entry_ids_insert(before, p as int, selected@[p as int]);
            if ascending_entries(old(selected)@) {
                lemma_insert_ascending(entry_ids(before), key);
            }
        }
    } else {
        proof {
            assert(entry_views(selected@) =~= target);
            lemma_view_ids(selected@);
            assert(view_ids(target) =~= view_ids(start));
        }
    }
}

impl State {
    /// Every character: the included ones, then the user's.
    pub open spec fn catalog(&self) -> Seq<Character> {
        self.included_data.characters@ + self.user_data.characters@
    }

    /// Every script: the included ones, then the user's.
    pub open spec fn all_scripts(&self) -> Seq<Script> {
        self.included_data.scripts@ + self.user_data.scripts@
    }

    /// The identifiers of the selection, in order.
    pub open spec fn selected_ids(&self) -> Seq<Seq<char>> {
        entry_ids(self.selected@)
    }

    /// The selection's identifiers are strictly ascending, as in a map keyed by
    /// identifier.
    pub open spec fn selection_sorted(&self) -> bool {
        ascending_entries(self.selected@)
    }

    /// The selection is a legal play set: every rule holds and its size is the
    /// player count plus the extra slots that it asks for.
    pub open spec fn valid_list(&self) -> bool {
        is_valid_composition(self.selection(), self.base_view()) && self.selected@.len()
            == self.player_count + extra_slots(self.selection())
    }

    /// The selected characters found in the catalogue.
    pub open spec fn selection(&self) -> Seq<Character> {
        resolve(self.catalog(), self.selected_ids())
    }

    /// The starting allowed counts: the requested Outsider, Minion and Demon counts.
    pub open spec fn base_view(&self) -> Map<Type, Set<int>> {
        map![
            Type::Outsider => set![self.outsider_count as int],
            Type::Minion => set![self.minion_count as int],
            Type::Demon => set![self.demon_count as int],
        ]
    }

    /// The default counts for the player count, where it is in force.
    pub open spec fn with_default_counts(self) -> State {
        if !self.type_counts_locked || self.player_count < 5 {
            self
        } else if self.player_count == 5 {
            State { outsider_count: 0, minion_count: 1, demon_count: 1, ..self }
        } else if self.player_count == 6 {
            State { outsider_count: 1, minion_count: 1, demon_count: 1, ..self }
        } else {
            State {
                outsider_count: ((self.player_count - 4) % 3) as u8,
                minion_count: ((self.player_count - 4) / 3) as u8,
                demon_count: 1,
                ..self
            }
        }
    }

    /// The players left for Townsfolk once the other requested counts are taken.
    pub fn townsfolk_count(&self) -> (r: u8)
        ensures
            r as int == clamp0(
                self.player_count - self.outsider_count - self.minion_count - self.demon_count,
            ),
    {
        self.player_count.saturating_sub(self.outsider_count).saturating_sub(
            self.minion_count,
        ).saturating_sub(self.demon_count)
    }

    /// Sets the default Outsider, Minion and Demon counts for the player count,
    /// when the counts follow the player count and it is at least five.
    pub fn update_type_counts(&mut self)
        ensures
            *final(self) == old(self).with_default_counts(),
    {
        if !self.type_counts_locked || self.player_count < 5 {
            return;
        }
        self.demon_count = 1;
        if self.player_count == 5 {
            self.outsider_count = 0;
            self.minion_count = 1;
        } else if self.player_count == 6 {
            self.outsider_count = 1;
            self.minion_count = 1;
        } else {
            self.outsider_count = (self.player_count - 4) % 3;
            self.minion_count = (self.player_count - 4) / 3;
        }
    }

    /// The starting allowed counts for the rule evaluator.
    pub fn type_counts(&self) -> (r: TypeCounts)
        ensures
            r@ == self.base_view(),
    {
        let r = TypeCounts {
            townsfolk: None,
            outsider: Some(vec![self.outsider_count as i16]),
            minion: Some(vec![self.minion_count as i16]),
            demon: Some(vec![self.demon_count as i16]),
            fabled: None,
            traveller: None,
        };
        proof {
            assert(ints_i16(seq![self.outsider_count as i16]) =~= set![self.outsider_count as int])
                by {
                assert(seq![self.outsider_count as i16][0] == self.outsider_count as i16);
            }
            assert(ints_i16(seq![self.minion_count as i16]) =~= set![self.minion_count as int])
                by {
                assert(seq![self.minion_count as i16][0] == self.minion_count as i16);
            }
            assert(ints_i16(seq![self.demon_count as i16]) =~= set![self.demon_count as int]) by {
                assert(seq![self.demon_count as i16][0] == self.demon_count as i16);
            }
            assert forall|t: Type| #[trigger] r@.contains_key(t) == self.base_view().contains_key(t)
                by {
                match t {
                    Type::Outsider => {},
                    Type::Minion => {},
                    Type::Demon => {},
                    _ => {},
                }
            }
            assert forall|t: Type| #[trigger] r@.contains_key(t) implies r@[t]
                == self.base_view()[t] by {
                match t {
                    Type::Outsider => {},
                    Type::Minion => {},
                    Type::Demon => {},
                    _ => {},
                }
            }
            assert(r@ =~= self.base_view());
        }
        r
    }

    /// Every character of the catalogue, included ones first.
    pub fn characters(&self) -> (r: Vec<&Character>)
        ensures
            chars_of(r@) == self.catalog(),
    {
        let mut r: Vec<&Character> = Vec::new();
        let mut i: usize = 0;
        while i < self.included_data.characters.len()
            invariant
                i <= self.included_data.characters@.len(),
                chars_of(r@) == self.included_data.characters@.subrange(0, i as int),
            decreases self.included_data.characters.len() - i,
        {
            let ghost before = r@;
            r.push(&self.included_data.characters[i]);
            proof {
                lemma_chars_push(before, &self.included_data.characters@[i as int]);
                assert(chars_of(r@) =~= self.included_data.characters@.subrange(0, i + 1));
            }
            i += 1;
        }
        let mut j: usize = 0;
        while j < self.user_data.characters.len()
            invariant
                j <= self.user_data.characters@.len(),
                chars_of(r@) == self.included_data.characters@ + self.user_data.characters@.subrange(
                    0,
                    j as int,
                ),
            decreases self.user_data.characters.len() - j,
        {
            let ghost before = r@;
            r.push(&self.user_data.characters[j]);
            proof {
                lemma_chars_push(before, &self.user_data.characters@[j as int]);
                assert(chars_of(r@) =~= self.included_data.characters@
                    + self.user_data.characters@.subrange(0, j + 1));
            }
            j += 1;
        }
        proof {
            assert(self.user_data.characters@.subrange(0, j as int) =~= self.user_data.characters@);
        }
        r
    }

    /// The first character of the catalogue with identifier `id`.
    pub fn get_character(&self, id: &String) -> (r: Option<&Character>)
        ensures
            opt_char(r) == lookup(self.catalog(), id@),
    {
        let all = self.characters();
        let mut i: usize = 0;
        proof {
            assert(chars_of(all@).subrange(0, all@.len() as int) =~= chars_of(all@));
        }
        while i < all.len()
            invariant
                i <= all@.len(),
                chars_of(all@) == self.catalog(),
                lookup(self.catalog(), id@) == lookup(
                    chars_of(all@).subrange(i as int, all@.len() as int),
                    id@,
                ),
            decreases all.len() - i,
        {
            let ghost rest = chars_of(all@).subrange(i as int, all@.len() as int);
            proof {
                assert(rest[0] == *all@[i as int]);
                assert(rest.drop_first() =~= chars_of(all@).subrange(i + 1, all@.len() as int));
            }
            if all[i].id() == *id {
                return Some(all[i]);
            }
            i += 1;
        }
        None
    }

    /// The selected characters that the catalogue holds, in selection order:
    /// ascending identifier order when the selection is sorted.
    pub fn selected_characters(&self) -> (r: Vec<&Character>)
        ensures
            chars_of(r@) == self.selection(),
            self.selection_sorted() ==> ids_ascending(ids_of(chars_of(r@))),
    {
        proof {
            if self.selection_sorted() {
                lemma_resolve_ascending(self.catalog(), self.selected_ids());
            }
        }
        let mut r: Vec<&Character> = Vec::new();
        let mut i: usize = 0;
        while i < self.selected.len()
            invariant
                i <= self.selected@.len(),
                chars_of(r@) == resolve(self.catalog(), self.selected_ids().subrange(0, i as int)),
            decreases self.selected.len() - i,
        {
            proof {
                assert(self.selected_ids().subrange(0, i + 1).drop_last() =~= self.selected_ids().subrange(
                    0,
                    i as int,
                ));
                assert(self.selected_ids()[i as int] == self.selected@[i as int].0@);
            }
            let ghost before = r@;
            match self.get_character(&self.selected[i].0) {
                Some(c) => {
                    r.push(c);
                    proof {
                        lemma_chars_push(before, c);
                    }
                },
                None => {},
            }
            i += 1;
        }
        proof {
            assert(self.selected_ids().subrange(0, i as int) =~= self.selected_ids());
        }
        r
    }

    /// The characters of the current script, if a script has the current name.
    pub open spec fn script_pool(&self) -> Seq<Character> {
        let k = first_named(self.all_scripts(), self.script@);
        if k < self.all_scripts().len() {
            resolve(
                self.catalog(),
                resolved_ids(self.catalog(), string_views(self.all_scripts()[k].characters@)),
            )
        } else {
            Seq::empty()
        }
    }

    fn resolve_script(&self, all: &Vec<&Character>, s: &Script) -> (r: Script)
        requires
            chars_of(all@) == self.catalog(),
        ensures
            resolves_to(self.catalog(), *s, r),
    {
        let ghost cat = self.catalog();
        let mut ids: Vec<String> = Vec::new();
        let mut i: usize = 0;
        proof {
            assert(string_views(ids@) =~= resolved_ids(cat, string_views(s.characters@).subrange(0, 0)));
        }
        while i < s.characters.len()
            invariant
                chars_of(all@) == cat,
                i <= s.characters@.len(),
                string_views(ids@) == resolved_ids(cat, string_views(s.characters@).subrange(0, i as int)),
            decreases s.characters.len() - i,
        {
            let id = &s.characters[i];
            let ghost prefix = string_views(ids@);
            let mut j: usize = 0;
            proof {
                assert(cat.subrange(0, 0).len() == 0);
                assert(prefix =~= prefix + matching_ids(cat.subrange(0, 0), id@));
            }
            while j < all.len()
                invariant
                    chars_of(all@) == cat,
                    j <= all@.len(),
                    string_views(ids@) == prefix + matching_ids(cat.subrange(0, j as int), id@),
                decreases all.len() - j,
            {
                proof {
                    assert(cat.subrange(0, j + 1).drop_last() =~= cat.subrange(0, j as int));
                    assert(cat[j as int] == *all@[j as int]);
                }
                let ghost before = ids@;
                if all[j].id() == *id {
                    ids.push(id.clone());
                    proof {
                        assert(string_views(ids@) =~= string_views(before).push(id@));
                    }
                }
                j += 1;
            }
            proof {
                assert(cat.subrange(0, all@.len() as int) =~= cat);
                assert(string_views(s.characters@).subrange(0, i + 1).drop_last()
                    =~= string_views(s.characters@).subrange(0, i as int));
                assert(string_views(s.characters@)[i as int] == id@);
            }
            i += 1;
        }
        proof {
            assert(string_views(s.characters@).subrange(0, i as int) =~= string_views(s.characters@));
        }
        Script { name: s.name.clone(), characters: ids }
    }

    /// Every script, its identifiers resolved against the catalogue.
    pub fn scripts(&self) -> (r: Vec<Script>)
        ensures
            r@.len() == self.all_scripts().len(),
            forall|k: int| 0 <= k < r@.len() ==> resolves_to(self.catalog(), self.all_scripts()[k], #[trigger] r@[k]),
    {
        let all = self.characters();
        let mut r: Vec<Script> = Vec::new();
        let mut i: usize = 0;
        while i < self.included_data.scripts.len()
            invariant
                chars_of(all@) == self.catalog(),
                i <= self.included_data.scripts@.len(),
                r@.len() == i,
                forall|k: int| 0 <= k < i ==> resolves_to(self.catalog(), self.all_scripts()[k], #[trigger] r@[k]),
            decreases self.included_data.scripts.len() - i,
        {
            let s = self.resolve_script(&all, &self.included_data.scripts[i]);
            r.push(s);
            i += 1;
        }
        let n = self.included_data.scripts.len();
        let mut j: usize = 0;
        while j < self.user_data.scripts.len()
            invariant
                chars_of(all@) == self.catalog(),
                n == self.included_data.scripts@.len(),
                j <= self.user_data.scripts@.len(),
                r@.len() == n + j,
                forall|k: int| 0 <= k < n + j ==> resolves_to(self.catalog(), self.all_scripts()[k], #[trigger] r@[k]),
            decreases self.user_data.scripts.len() - j,
        {
            let s = self.resolve_script(&all, &self.user_data.scripts[j]);
            r.push(s);
            j += 1;
        }
        r
    }

    /// The script with the current name, resolved against the catalogue.
    pub fn get_current_script(&self) -> (r: Option<Script>)
        ensures
            r matches Some(s) ==> first_named(self.all_scripts(), self.script@)
                < self.all_scripts().len() && resolves_to(
                self.catalog(),
                self.all_scripts()[first_named(self.all_scripts(), self.script@)],
                s,
            ),
            r is None ==> first_named(self.all_scripts(), self.script@) == self.all_scripts().len(),
    {
        let mut all = self.scripts();
        let ghost scripts = self.all_scripts();
        let mut i: usize = 0;
        while i < all.len()
            invariant
                scripts == self.all_scripts(),
                all@.len() == scripts.len(),
                forall|k: int| 0 <= k < all@.len() ==> resolves_to(self.catalog(), scripts[k], #[trigger] all@[k]),
                i <= all@.len(),
                first_named(scripts.subrange(0, i as int), self.script@) == i,
            decreases all.len() - i,
        {
            proof {
                assert(scripts.subrange(0, i + 1).drop_last() =~= scripts.subrange(0, i as int));
                assert(resolves_to(self.catalog(), scripts[i as int], all@[i as int]));
            }
            if all[i].name == self.script {
                proof {
                    assert(scripts.subrange(0, i + 1).last() == scripts[i as int]);
                    assert(first_named(scripts.subrange(0, i + 1), self.script@) == i);
                    lemma_first_named_prefix(scripts, self.script@, i + 1, i as int);
                }
                let ghost pre = all@;
                let found = all.remove(i);
                proof {
                    assert(found == pre[i as int]);
                    assert(resolves_to(self.catalog(), scripts[i as int], found));
                    assert(first_named(self.all_scripts(), self.script@) == i);
                }
                return Some(found);
            }
            i += 1;
        }
        proof {
            assert(scripts.subrange(0, i as int) =~= scripts);
        }
        None
    }

    /// The characters of the current script that the catalogue holds.
    pub fn script_characters(&self) -> (r: Vec<&Character>)
        ensures
            chars_of(r@) == self.script_pool(),
    {
        let current = self.get_current_script();
        let mut r: Vec<&Character> = Vec::new();
        match current {
            None => {
                proof {
                    assert(chars_of(r@) =~= Seq::<Character>::empty());
                }
            },
            Some(script) => {
                let ghost ids = string_views(script.characters@);
                let mut i: usize = 0;
                proof {
                    assert(chars_of(r@) =~= resolve(self.catalog(), ids.subrange(0, 0)));
                }
                while i < script.characters.len()
                    invariant
                        ids == string_views(script.characters@),
                        i <= script.characters@.len(),
                        chars_of(r@) == resolve(self.catalog(), ids.subrange(0, i as int)),
                    decreases script.characters.len() - i,
                {
                    proof {
                        assert(ids.subrange(0, i + 1).drop_last() =~= ids.subrange(0, i as int));
                        assert(ids[i as int] == script.characters@[i as int]@);
                    }
                    let ghost before = r@;
                    match self.get_character(&script.characters[i]) {
                        Some(c) => {
                            r.push(c);
                            proof {
                                lemma_chars_push(before, c);
                            }
                        },
                        None => {},
                    }
                    i += 1;
                }
                proof {
                    assert(ids.subrange(0, i as int) =~= ids);
                }
            },
        }
        r
    }

    /// Draws the unlocked part of a play set at random around the `locked`
    /// characters, from the current script's characters that share no
    /// identifier with a locked one. Returns the number of sweeps used and the
    /// identifiers drawn, or `None` once the sweep budget is spent.
    pub fn get_randomized_characters(
        &self,
        locked: &[&Character],
        old_unlocked: &Vec<String>,
        rng: &mut StdRng,
    ) -> (r: Option<(usize, Vec<String>)>)
        ensures
            r matches Some((sweeps, ids)) ==> {
                &&& 1 <= sweeps <= MAX_GENERATION_ITERATIONS
                &&& exists|picks: Seq<usize>, e: nat|
                    accepted_draw(
                        without_ids(self.script_pool(), chars_of(locked@)),
                        chars_of(locked@),
                        self.player_count as nat,
                        self.base_view(),
                        string_views(old_unlocked@),
                        picks,
                        e,
                        string_views(ids@),
                    )
            },
            whole_pool_accepted(
                without_ids(self.script_pool(), chars_of(locked@)),
                chars_of(locked@),
                self.player_count as nat,
                self.base_view(),
                string_views(old_unlocked@),
            ) ==> (r matches Some((sweeps, ids)) && sweeps == 1 && string_views(ids@) == ids_of(
                without_ids(self.script_pool(), chars_of(locked@)),
            )),
    {
        let candidates = self.script_characters();
        let mut pool: Vec<&Character> = Vec::new();
        let mut i: usize = 0;
        proof {
            assert(chars_of(pool@) =~= without_ids(chars_of(candidates@).subrange(0, 0), chars_of(locked@)));
        }
        while i < candidates.len()
            invariant
                i <= candidates@.len(),
                chars_of(pool@) == without_ids(chars_of(candidates@).subrange(0, i as int), chars_of(locked@)),
            decreases candidates.len() - i,
        {
            let ghost prefix = chars_of(candidates@).subrange(0, i as int);
            proof {
                assert(chars_of(candidates@).subrange(0, i + 1).drop_last() =~= prefix);
            }
            let id = candidates[i].id();
            let mut clash = false;
            let mut j: usize = 0;
            while j < locked.len()
                invariant
                    j <= locked@.len(),
                    clash == exists|k: int| 0 <= k < j && chars_of(locked@)[k].spec_id() == id@,
                decreases locked.len() - j,
            {
                if locked[j].id() == id {
                    clash = true;
                }
                proof {
                    assert(chars_of(locked@)[j as int] == *locked@[j as int]);
                    if clash {
                        if locked[j as int].spec_id() == id@ {
                            assert(0 <= j < j + 1 && chars_of(locked@)[j as int].spec_id() == id@);
                        }
                    }
                }
                j += 1;
            }
            let ghost before = pool@;
            if !clash {
                pool.push(candidates[i]);
                proof {
                    lemma_chars_push(before, candidates@[i as int]);
                }
            }
            proof {
                assert(chars_of(candidates@)[i as int] == *candidates@[i as int]);
            }
            i += 1;
        }
        proof {
            assert(chars_of(candidates@).subrange(0, i as int) =~= chars_of(candidates@));
        }
        let counts = self.type_counts();
        search(
            pool.as_slice(),
            locked,
            self.player_count as usize,
            &counts,
            old_unlocked,
            MAX_GENERATION_ITERATIONS,
            rng,
        )
    }

    /// Keeps the locked selection and draws the rest anew at random; on failure
    /// only the locked selection remains. Returns the number of sweeps used, or
    /// `None` once the sweep budget is spent.
    pub fn randomize_unlocked(&mut self, rng: &mut StdRng) -> (r: Option<usize>)
        ensures
            *final(self) == (State { selected: final(self).selected, ..*old(self) }),
            r is None ==> final(self).selected@ == locked_entries(old(self).selected@),
            r matches Some(sweeps) ==> {
                let kept = locked_entries(old(self).selected@);
                let locked = resolve(old(self).script_pool(), entry_ids(kept));
                &&& 1 <= sweeps <= MAX_GENERATION_ITERATIONS
                &&& exists|ids: Seq<Seq<char>>, picks: Seq<usize>, e: nat|
                    {
                        &&& accepted_draw(
                            without_ids(old(self).script_pool(), locked),
                            locked,
                            old(self).player_count as nat,
                            old(self).base_view(),
                            unlocked_ids(old(self).selected@),
                            picks,
                            e,
                            ids,
                        )
                        &&& entry_views(final(self).selected@) == put_all_unlocked(entry_views(kept), ids)
                    }
            },
            ({
                let locked = resolve(
                    old(self).script_pool(),
                    entry_ids(locked_entries(old(self).selected@)),
                );
                whole_pool_accepted(
                    without_ids(old(self).script_pool(), locked),
                    locked,
                    old(self).player_count as nat,
                    old(self).base_view(),
                    unlocked_ids(old(self).selected@),
                ) ==> r == Some(1usize)
            }),
            old(self).selection_sorted() ==> final(self).selection_sorted(),
    {
        let ghost sel = self.selected@;
        let mut kept: Vec<(String, Selected)> = Vec::new();
        let mut old_unlocked: Vec<String> = Vec::new();
        let mut i: usize = 0;
        while i < self.selected.len()
            invariant
                sel == self.selected@,
                i <= sel.len(),
                kept@ == locked_entries(sel.subrange(0, i as int)),
                string_views(old_unlocked@) == unlocked_ids(sel.subrange(0, i as int)),
            decreases self.selected.len() - i,
        {
            proof {
                assert(sel.subrange(0, i + 1).drop_last() =~= sel.subrange(0, i as int));
            }
            let ghost before = old_unlocked@;
            let entry = &self.selected[i];
            if entry.1.locked {
                kept.push((entry.0.clone(), entry.1));
            } else {
                old_unlocked.push(entry.0.clone());
                proof {
                    assert(string_views(old_unlocked@) =~= string_views(before).push(entry.0@));
                }
            }
            i += 1;
        }
        proof {
            assert(sel.subrange(0, i as int) =~= sel);
        }
        self.selected = kept;
        let ghost kept_view = self.selected@;
        proof {
            if ascending_entries(sel) {
                lemma_locked_entries_ascending(sel);
            }
        }
        let ghost mut locked_chars: Seq<Character> = Seq::empty();
        let found = {
            let candidates = self.script_characters();
            let mut locked: Vec<&Character> = Vec::new();
            let mut j: usize = 0;
            proof {
                assert(chars_of(locked@) =~= resolve(chars_of(candidates@), entry_ids(kept_view).subrange(0, 0)));
            }
            while j < self.selected.len()
                invariant
                    kept_view == self.selected@,
                    j <= kept_view.len(),
                    chars_of(locked@) == resolve(chars_of(candidates@), entry_ids(kept_view).subrange(0, j as int)),
                decreases self.selected.len() - j,
            {
                proof {
                    assert(entry_ids(kept_view).subrange(0, j + 1).drop_last() =~= entry_ids(kept_view).subrange(0, j as int));
                    assert(entry_ids(kept_view)[j as int] == kept_view[j as int].0@);
                }
                let ghost before = locked@;
                match find_by_id(&candidates, &self.selected[j].0) {
                    Some(c) => {
                        locked.push(c);
                        proof {
                            lemma_chars_push(before, c);
                        }
                    },
                    None => {},
                }
                j += 1;
            }
            proof {
                assert(entry_ids(kept_view).subrange(0, j as int) =~= entry_ids(kept_view));
            }
            proof {
                locked_chars = chars_of(locked@);
            }
            self.get_randomized_characters(locked.as_slice(), &old_unlocked, rng)
        };
        proof {
            assert(self.script_pool() == old(self).script_pool());
            assert(self.base_view() == old(self).base_view());
            assert(locked_chars == resolve(old(self).script_pool(), entry_ids(kept_view)));
        }
        match found {
            Some((sweeps, ids)) => {
                let ghost drawn = string_views(ids@);
                let mut k: usize = 0;
                proof {
                    assert(drawn.subrange(0, 0) =~= Seq::<Seq<char>>::empty());
                }
                while k < ids.len()
                    invariant
                        drawn == string_views(ids@),
                        k <= ids@.len(),
                        *self == (State { selected: self.selected, ..*old(self) }),
                        entry_views(self.selected@) == put_all_unlocked(
                            entry_views(kept_view),
                            drawn.subrange(0, k as int),
                        ),
                        ascending_entries(old(self).selected@) ==> ascending_entries(self.selected@),
                    decreases ids.len() - k,
                {
                    proof {
                        assert(drawn.subrange(0, k + 1).drop_last() =~= drawn.subrange(0, k as int));
                        assert(drawn[k as int] == ids@[k as int]@);
                    }
                    select_unlocked(&mut self.selected, ids[k].clone());
                    k += 1;
                }
                proof {
                    assert(drawn.subrange(0, k as int) =~= drawn);
                    let (picks, e) = choose|picks: Seq<usize>, e: nat|
                        accepted_draw(
                            without_ids(old(self).script_pool(), locked_chars),
                            locked_chars,
                            old(self).player_count as nat,
                            old(self).base_view(),
                            string_views(old_unlocked@),
                            picks,
                            e,
                            drawn,
                        );
                    assert(accepted_draw(
                        without_ids(old(self).script_pool(), locked_chars),
                        locked_chars,
                        old(self).player_count as nat,
                        old(self).base_view(),
                        unlocked_ids(old(self).selected@),
                        picks,
                        e,
                        drawn,
                    ));
                }
                Some(sweeps)
            },
            None => None,
        }
    }

    /// Some script is named `name`.
    pub open spec fn name_taken(&self, name: Seq<char>) -> bool {
        exists|k: int| 0 <= k < self.all_scripts().len() && self.all_scripts()[k].name@ == name
    }

    /// `got` is the name an imported script named `base` receives: `base` while
    /// free, else `base (n)` for the least `n` whose name is free (counting stops
    /// at the largest `u64`).
    pub open spec fn unique_name(&self, base: Seq<char>, got: Seq<char>) -> bool {
        if !self.name_taken(base) {
            got == base
        } else {
            exists|n: nat|
                1 <= n <= u64::MAX && got == numbered(base, n) && (!self.name_taken(got) || n
                    == u64::MAX) && forall|j: nat| 1 <= j < n ==> #[trigger] self.name_taken(numbered(base, j))
        }
    }

    fn has_script_named(&self, name: &String) -> (r: bool)
        ensures
            r == self.name_taken(name@),
    {
        let mut i: usize = 0;
        while i < self.included_data.scripts.len()
            invariant
                i <= self.included_data.scripts@.len(),
                forall|k: int| 0 <= k < i ==> self.all_scripts()[k].name@ != name@,
            decreases self.included_data.scripts.len() - i,
        {
            if self.included_data.scripts[i].name == *name {
                proof {
                    assert(self.all_scripts()[i as int] == self.included_data.scripts@[i as int]);
                }
                return true;
            }
            i += 1;
        }
        let n = self.included_data.scripts.len();
        let mut j: usize = 0;
        while j < self.user_data.scripts.len()
            invariant
                n == self.included_data.scripts@.len(),
                j <= self.user_data.scripts@.len(),
                forall|k: int| 0 <= k < n + j ==> self.all_scripts()[k].name@ != name@,
            decreases self.user_data.scripts.len() - j,
        {
            if self.user_data.scripts[j].name == *name {
                proof {
                    assert(self.all_scripts()[n + j] == self.user_data.scripts@[j as int]);
                }
                return true;
            }
            proof {
                assert(self.all_scripts()[n + j] == self.user_data.scripts@[j as int]);
            }
            j += 1;
        }
        false
    }

    /// Adds an imported script to the user's scripts under a name no script has.
    pub fn import_script(&mut self, new_script: Script)
        ensures
            final(self).user_data.scripts@.len() == old(self).user_data.scripts@.len() + 1,
            final(self).user_data.scripts@.drop_last() == old(self).user_data.scripts@,
            final(self).user_data.scripts@.last().characters == new_script.characters,
            old(self).unique_name(new_script.name@, final(self).user_data.scripts@.last().name@),
            *final(self) == (State {
                user_data: UserData { scripts: final(self).user_data.scripts, ..old(self).user_data },
                ..*old(self)
            }),
    {
        let mut script = new_script;
        let base = script.name.clone();
        let mut n: u64 = 0;
        let mut taken = self.has_script_named(&script.name);
        while taken && n < u64::MAX
            invariant
                base@ == new_script.name@,
                script.characters == new_script.characters,
                taken == self.name_taken(script.name@),
                n == 0 ==> script.name@ == base@,
                n > 0 ==> script.name@ == numbered(base@, n as nat),
                self.name_taken(base@) || n == 0,
                forall|j: nat| 1 <= j < n ==> #[trigger] self.name_taken(numbered(base@, j)),
            decreases u64::MAX - n,
        {
            proof {
                if n > 0 {
                    assert(self.name_taken(numbered(base@, n as nat)));
                }
            }
            n += 1;
            script.name = numbered_name(&base, n);
            taken = self.has_script_named(&script.name);
        }
        proof {
            if n > 0 {
                assert(1 <= n <= u64::MAX && script.name@ == numbered(base@, n as nat));
            }
        }
        self.user_data.scripts.push(script);
    }

    /// Selects `id` locked at its place in identifier order, or drops it from
    /// the selection if it is selected. An ascending selection stays ascending.
    pub fn toggle(&mut self, id: String)
        ensures
            *final(self) == (State { selected: final(self).selected, ..*old(self) }),
            entry_ids(old(self).selected@).contains(id@) ==> final(self).selected@ == old(
                self,
            ).selected@.remove(index_of(entry_ids(old(self).selected@), id@)),
            !entry_ids(old(self).selected@).contains(id@) ==> final(self).selected@ == old(
                self,
            ).selected@.insert(
                insert_pos(entry_ids(old(self).selected@), id@),
                (id, Selected { locked: true }),
            ),
            old(self).selection_sorted() ==> final(self).selection_sorted(),
    {
        let ghost ids = entry_ids(self.selected@);
        let k = position_of(&self.selected, &id);
        proof {
            lemma_index_of(ids, id@);
        }
        if k < self.selected.len() {
            let ghost before = self.selected@;
            self.selected.remove(k);
            proof {
                lemma_entry_ids_remove(before, k as int);
                if ascending_entries(before) {
                    lemma_remove_ascending(ids, k as int);
                }
            }
        } else {
            let p = insertion_point(&self.selected, &id);
            proof {
                lemma_insert_pos(ids, id@);
            }
            let ghost before = self.selected@;
            let ghost key = id@;
            self.selected.insert(p, (id, Selected { locked: true }));
            proof {
                lemma_entry_ids_insert(before, p as int, self.selected@[p as int]);
                assert(self.selected@[p as int].0@ == key);
                if ascending_entries(before) {
                    lemma_insert_ascending(ids, key);
                }
            }
        }
    }

    /// Flips the lock of the selected entries with identifier `id`.
    pub fn toggle_lock(&mut self, id: &String)
        ensures
            *final(self) == (State { selected: final(self).selected, ..*old(self) }),
            entry_ids(final(self).selected@) == entry_ids(old(self).selected@),
            old(self).selection_sorted() ==> final(self).selection_sorted(),
            final(self).selected@.len() == old(self).selected@.len(),
            forall|k: int|
                0 <= k < old(self).selected@.len() ==> #[trigger] final(self).selected@[k] == if old(
                    self,
                ).selected@[k].0@ == id@ {
                    (old(self).selected@[k].0, Selected { locked: !old(self).selected@[k].1.locked })
                } else {
                    old(self).selected@[k]
                },
    {
        let ghost sel = self.selected@;
        let mut i: usize = 0;
        while i < self.selected.len()
            invariant
                self.selected@.len() == sel.len(),
                *self == (State { selected: self.selected, ..*old(self) }),
                sel == old(self).selected@,
                i <= sel.len(),
                forall|k: int|
                    0 <= k < i ==> #[trigger] self.selected@[k] == if sel[k].0@ == id@ {
                        (sel[k].0, Selected { locked: !sel[k].1.locked })
                    } else {
                        sel[k]
                    },
                forall|k: int| i <= k < sel.len() ==> #[trigger] self.selected@[k] == sel[k],
            decreases self.selected.len() - i,
        {
            if self.selected[i].0 == *id {
                let name = self.selected[i].0.clone();
                let flipped = Selected { locked: !self.selected[i].1.locked };
                self.selected.set(i, (name, flipped));
            }
            i += 1;
        }
    }

    /// Locks or unlocks every selected entry.
    pub fn set_lock_for_all(&mut self, value: bool)
        ensures
            *final(self) == (State { selected: final(self).selected, ..*old(self) }),
            entry_ids(final(self).selected@) == entry_ids(old(self).selected@),
            forall|k: int| 0 <= k < final(self).selected@.len() ==> #[trigger] final(self).selected@[k].1.locked == value,
            old(self).selection_sorted() ==> final(self).selection_sorted(),
    {
        let ghost sel = self.selected@;
        let mut i: usize = 0;
        while i < self.selected.len()
            invariant
                self.selected@.len() == sel.len(),
                *self == (State { selected: self.selected, ..*old(self) }),
                sel == old(self).selected@,
                i <= sel.len(),
                forall|k: int| 0 <= k < sel.len() ==> #[trigger] self.selected@[k].0 == sel[k].0,
                forall|k: int| 0 <= k < i ==> #[trigger] self.selected@[k].1.locked == value,
            decreases self.selected.len() - i,
        {
            let name = self.selected[i].0.clone();
            self.selected.set(i, (name, Selected { locked: value }));
            i += 1;
        }
        proof {
            assert(entry_ids(self.selected@) =~= entry_ids(sel));
        }
    }

    /// Switches to the script named `name` and clears the selection.
    pub fn set_script(&mut self, name: String)
        ensures
            *final(self) == (State { script: name, selected: final(self).selected, ..*old(self) }),
            final(self).selected@.len() == 0,
            final(self).selection_sorted(),
    {
        self.script = name;
        self.selected = Vec::new();
    }

    /// Sets the player count and, where they follow it, the default counts.
    pub fn set_player_count(&mut self, count: u8)
        ensures
            *final(self) == (State { player_count: count, ..*old(self) }).with_default_counts(),
    {
        self.player_count = count;
        self.update_type_counts();
    }

    /// Sets whether the counts follow the player count, and applies the defaults.
    pub fn set_type_counts_locked(&mut self, value: bool)
        ensures
            *final(self) == (State { type_counts_locked: value, ..*old(self) }).with_default_counts(),
    {
        self.type_counts_locked = value;
        self.update_type_counts();
    }

    /// Deletes the user's scripts with the current name and returns to the
    /// default script with the script menu closed.
    pub fn delete_script(&mut self)
        ensures
            final(self).user_data.scripts@ == without_script(old(self).user_data.scripts@, old(self).script@),
            final(self).script@ == DEFAULT_SCRIPT@,
            !final(self).expanded_script_menu,
            *final(self) == (State {
                user_data: UserData { scripts: final(self).user_data.scripts, ..old(self).user_data },
                script: final(self).script,
                expanded_script_menu: false,
                ..*old(self)
            }),
    {
        let ghost scripts = self.user_data.scripts@;
        let mut rest: Vec<Script> = Vec::new();
        std::mem::swap(&mut rest, &mut self.user_data.scripts);
        let mut kept: Vec<Script> = Vec::new();
        let ghost mut i: int = 0;
        while rest.len() > 0
            invariant
                0 <= i <= scripts.len(),
                rest@ == scripts.subrange(i, scripts.len() as int),
                kept@ == without_script(scripts.subrange(0, i), old(self).script@),
                self.script == old(self).script,
            decreases rest.len(),
        {
            proof {
                assert(scripts.subrange(0, i + 1).drop_last() =~= scripts.subrange(0, i));
                assert(rest@[0] == scripts[i]);
            }
            let s = rest.remove(0);
            proof {
                assert(rest@ =~= scripts.subrange(i + 1, scripts.len() as int));
            }
            if s.name != self.script {
                kept.push(s);
            }
            proof {
                i = i + 1;
            }
        }
        proof {
            assert(scripts.subrange(0, i) =~= scripts);
        }
        self.user_data.scripts = kept;
        self.script = DEFAULT_SCRIPT.to_owned();
        self.expanded_script_menu = false;
    }

    /// Whether the selection is a legal play set: every rule holds and its size
    /// is the player count plus the extra slots that it asks for.
    pub fn is_valid_character_list(&self) -> (r: bool)
        ensures
            r == self.valid_list(),
    {
        let chosen = self.selected_characters();
        let counts = self.type_counts();
        let (valid, extra) = validate_list(chosen.as_slice(), &counts);
        valid && self.selected.len() as u128 == self.player_count as u128 + extra
    }
}

/// The members of `cs` in category `t`, in order.
pub open spec fn of_type(cs: Seq<Character>, t: Type) -> Seq<Character>
    decreases cs.len(),
{
    if cs.len() == 0 {
        Seq::empty()
    } else {
        let rest = of_type(cs.drop_last(), t);
        if cs.last().category == t {
            rest.push(cs.last())
        } else {
            rest
        }
    }
}

/// The categories in display order.
pub open spec fn type_order() -> Seq<Type> {
    seq![Type::Townsfolk, Type::Outsider, Type::Minion, Type::Demon, Type::Fabled, Type::Traveller]
}

/// The non-empty groups of `cs` for the categories `ts`, in that order.
pub open spec fn groups(cs: Seq<Character>, ts: Seq<Type>) -> Seq<(Type, Seq<Character>)>
    decreases ts.len(),
{
    if ts.len() == 0 {
        Seq::empty()
    } else {
        let rest = groups(cs, ts.drop_last());
        if of_type(cs, ts.last()).len() > 0 {
            rest.push((ts.last(), of_type(cs, ts.last())))
        } else {
            rest
        }
    }
}

/// The members of `characters` in category `t`, in order.
fn members_of<'a>(characters: &Vec<&'a Character>, t: Type) -> (r: Vec<&'a Character>)
    ensures
        chars_of(r@) == of_type(chars_of(characters@), t),
{
    let mut r: Vec<&'a Character> = Vec::new();
    let mut i: usize = 0;
    while i < characters.len()
        invariant
            i <= characters@.len(),
            chars_of(r@) == of_type(chars_of(characters@).subrange(0, i as int), t),
        decreases characters.len() - i,
    {
        proof {
            assert(chars_of(characters@).subrange(0, i + 1).drop_last() =~= chars_of(characters@).subrange(
                0,
                i as int,
            ));
            assert(chars_of(characters@)[i as int] == *characters@[i as int]);
        }
        let ghost before = r@;
        if characters[i].category == t {
            r.push(characters[i]);
            proof {
                lemma_chars_push(before, characters@[i as int]);
            }
        }
        i += 1;
    }
    proof {
        assert(chars_of(characters@).subrange(0, i as int) =~= chars_of(characters@));
    }
    r
}

/// `a` comes no later than `b` in the lexicographic order of their characters.
pub open spec fn name_le(a: Seq<char>, b: Seq<char>) -> bool
    decreases a.len(),
{
    if a.len() == 0 {
        true
    } else if b.len() == 0 {
        false
    } else if a[0] != b[0] {
        a[0] < b[0]
    } else {
        name_le(a.drop_first(), b.drop_first())
    }
}

/// The characters are in order of name.
pub open spec fn sorted_by_name(s: Seq<Character>) -> bool {
    forall|i: int, j: int| 0 <= i < j < s.len() ==> name_le(#[trigger] s[i].name@, #[trigger] s[j].name@)
}

proof fn lemma_name_le_total(a: Seq<char>, b: Seq<char>)
    ensures
        name_le(a, b) || name_le(b, a),
    decreases a.len(),
{
    if a.len() > 0 && b.len() > 0 && a[0] == b[0] {
        lemma_name_le_total(a.drop_first(), b.drop_first());
    }
}

proof fn lemma_name_le_transitive(a: Seq<char>, b: Seq<char>, c: Seq<char>)
    requires
        name_le(a, b),
        name_le(b, c),
    ensures
        name_le(a, c),
    decreases a.len(),
{
    if a.len() > 0 && b.len() > 0 && c.len() > 0 && a[0] == b[0] && b[0] == c[0] {
        lemma_name_le_transitive(a.drop_first(), b.drop_first(), c.drop_first());
    }
}

fn names_in_order(a: &String, b: &String) -> (r: bool)
    ensures
        r == name_le(a@, b@),
{
    let x = a.as_str();
    let y = b.as_str();
    let n = x.unicode_len();
    let m = y.unicode_len();
    let mut i: usize = 0;
    proof {
        assert(x@.subrange(0, n as int) =~= x@);
        assert(y@.subrange(0, m as int) =~= y@);
    }
    while i < n && i < m
        invariant
            n == x@.len(),
            m == y@.len(),
            x@ == a@,
            y@ == b@,
            i <= n,
            i <= m,
            name_le(a@, b@) == name_le(x@.subrange(i as int, n as int), y@.subrange(i as int, m as int)),
        decreases n - i,
    {
        let c = x.get_char(i);
        let d = y.get_char(i);
        let ghost u = x@.subrange(i as int, n as int);
        let ghost v = y@.subrange(i as int, m as int);
        proof {
            assert(u[0] == c);
            assert(v[0] == d);
        }
        if c != d {
            return c < d;
        }
        proof {
            assert(u.drop_first() =~= x@.subrange(i + 1, n as int));
            assert(v.drop_first() =~= y@.subrange(i + 1, m as int));
        }
        i += 1;
    }
    i == n
}

/// Orders characters by name.
fn sort_by_name<'a>(group: &Vec<&'a Character>) -> (r: Vec<&'a Character>)
    ensures
        chars_of(r@).to_multiset() == chars_of(group@).to_multiset(),
        sorted_by_name(chars_of(r@)),
{
    let mut r: Vec<&'a Character> = Vec::new();
    let mut i: usize = 0;
    proof {
        assert(chars_of(r@) =~= chars_of(group@).subrange(0, 0));
    }
    while i < group.len()
        invariant
            i <= group@.len(),
            chars_of(r@).to_multiset() == chars_of(group@).subrange(0, i as int).to_multiset(),
            sorted_by_name(chars_of(r@)),
        decreases group.len() - i,
    {
        let x = group[i];
        let ghost sorted = chars_of(r@);
        let mut k: usize = 0;
        while k < r.len() && names_in_order(&r[k].name, &x.name)
            invariant
                sorted == chars_of(r@),
                k <= r@.len(),
                forall|j: int| 0 <= j < k ==> name_le(#[trigger] sorted[j].name@, x.name@),
            decreases r.len() - k,
        {
            k += 1;
        }
        proof {
            if k < r@.len() {
                assert(!name_le(sorted[k as int].name@, x.name@));
                lemma_name_le_total(sorted[k as int].name@, x.name@);
            }
        }
        r.insert(k, x);
        proof {
            let new = chars_of(r@);
            assert(new =~= sorted.insert(k as int, *x));
            vstd::seq_lib::to_multiset_insert(sorted, k as int, *x);
            assert(chars_of(group@).subrange(0, i + 1) =~= chars_of(group@).subrange(0, i as int).push(*x));
            vstd::seq_lib::to_multiset_build(chars_of(group@).subrange(0, i as int), *x);
            assert forall|a: int, b: int| 0 <= a < b < new.len() implies name_le(
                #[trigger] new[a].name@,
                #[trigger] new[b].name@,
            ) by {
                if b < k {
                    assert(new[a] == sorted[a] && new[b] == sorted[b]);
                } else if b == k {
                    assert(new[a] == sorted[a]);
                } else if a < k {
                    assert(new[a] == sorted[a] && new[b] == sorted[b - 1]);
                } else if a == k {
                    assert(new[b] == sorted[b - 1]);
                    if b - 1 > k {
                        lemma_name_le_transitive(x.name@, sorted[k as int].name@, sorted[b - 1].name@);
                    }
                } else {
                    assert(new[a] == sorted[a - 1] && new[b] == sorted[b - 1]);
                }
            }
        }
        i += 1;
    }
    proof {
        assert(chars_of(group@).subrange(0, i as int) =~= chars_of(group@));
    }
    r
}

/// Groups characters by category, in display order, leaving out empty groups;
/// each group is ordered by name.
pub fn group_characters_by_type<'a>(characters: &Vec<&'a Character>) -> (r: Vec<(Type, Vec<&'a Character>)>)
    ensures
        r@.len() == groups(chars_of(characters@), type_order()).len(),
        forall|k: int|
            0 <= k < r@.len() ==> (#[trigger] r@[k]).0 == groups(chars_of(characters@), type_order())[k].0
                && chars_of(r@[k].1@).to_multiset() == groups(chars_of(characters@), type_order())[k].1.to_multiset()
                && sorted_by_name(chars_of(r@[k].1@)),
{
    let order = vec![Type::Townsfolk, Type::Outsider, Type::Minion, Type::Demon, Type::Fabled, Type::Traveller];
    proof {
        assert(order@ =~= type_order());
    }
    let ghost cs = chars_of(characters@);
    let mut r: Vec<(Type, Vec<&'a Character>)> = Vec::new();
    let mut i: usize = 0;
    while i < order.len()
        invariant
            order@ == type_order(),
            cs == chars_of(characters@),
            i <= order@.len(),
            r@.len() == groups(cs, order@.subrange(0, i as int)).len(),
            forall|k: int|
                0 <= k < r@.len() ==> (#[trigger] r@[k]).0 == groups(cs, order@.subrange(0, i as int))[k].0
                    && chars_of(r@[k].1@).to_multiset() == groups(cs, order@.subrange(0, i as int))[k].1.to_multiset()
                    && sorted_by_name(chars_of(r@[k].1@)),
        decreases order.len() - i,
    {
        let ghost prev = groups(cs, order@.subrange(0, i as int));
        proof {
            assert(order@.subrange(0, i + 1).drop_last() =~= order@.subrange(0, i as int));
        }
        let t = order[i];
        let members = members_of(characters, t);
        let ghost before = r@;
        if members.len() > 0 {
            let sorted = sort_by_name(&members);
            r.push((t, sorted));
            proof {
                assert forall|k: int| 0 <= k < r@.len() implies (#[trigger] r@[k]).0 == groups(
                    cs,
                    order@.subrange(0, i + 1),
                )[k].0 && chars_of(r@[k].1@).to_multiset() == groups(cs, order@.subrange(0, i + 1))[k].1.to_multiset()
                    && sorted_by_name(chars_of(r@[k].1@)) by {
                    if k < before.len() {
                        assert(r@[k] == before[k]);
                    }
                }
            }
        }
        i += 1;
    }
    proof {
        assert(order@.subrange(0, i as int) =~= order@);
    }
    r
}

} // verus!
