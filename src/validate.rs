use vstd::prelude::*;

use crate::character::{Character, Type};
use crate::condition::{Condition, ExtraCharacters, TypeCond};

verus! {

// ---------------------------------------------------------------------------
// Sets of integers held in vectors
// ---------------------------------------------------------------------------

/// The values held by `s`, as a set of integers.
pub open spec fn ints_i128(s: Seq<i128>) -> Set<int> {
    Set::new(|x: int| exists|i: int| 0 <= i < s.len() && s[i] as int == x)
}

/// The values held by `s`, as a set of integers.
pub open spec fn ints_i16(s: Seq<i16>) -> Set<int> {
    Set::new(|x: int| exists|i: int| 0 <= i < s.len() && s[i] as int == x)
}

/// The values held by `s`, as a set of integers.
pub open spec fn ints_i8(s: Seq<i8>) -> Set<int> {
    Set::new(|x: int| exists|i: int| 0 <= i < s.len() && s[i] as int == x)
}

/// The values held by `s`, as a set of integers.
pub open spec fn ints_u8(s: Seq<u8>) -> Set<int> {
    Set::new(|x: int| exists|i: int| 0 <= i < s.len() && s[i] as int == x)
}

/// Every element lies in `[-b, b]`.
pub open spec fn bounded(s: Seq<i128>, b: int) -> bool {
    forall|i: int| 0 <= i < s.len() ==> -b <= #[trigger] s[i] <= b
}

// ---------------------------------------------------------------------------
// Allowed-count sets
// ---------------------------------------------------------------------------

/// `{c + e | c in a, e in d}`.
pub open spec fn minkowski(a: Set<int>, d: Set<int>) -> Set<int> {
    Set::new(|x: int| exists|c: int, e: int| a.contains(c) && d.contains(e) && x == c + e)
}

/// The set an offset is added to: an unset or empty allowed set counts as `{0}`.
pub open spec fn offset_base(cur: Option<Set<int>>) -> Set<int> {
    match cur {
        Some(a) => if a == Set::<int>::empty() {
            set![0int]
        } else {
            a
        },
        None => set![0int],
    }
}

/// The allowed set after an offset rule with deltas `d`.
pub open spec fn apply_offset(cur: Option<Set<int>>, d: Set<int>) -> Option<Set<int>> {
    Some(minkowski(offset_base(cur), d))
}

/// `c - m`, floored at zero.
pub open spec fn sat_sub(c: int, m: int) -> int {
    if c >= m {
        c - m
    } else {
        0
    }
}

/// `{max(c - m, 0) | c in a, c >= 0, m in p}`.
pub open spec fn reduce(a: Set<int>, p: Set<int>) -> Set<int> {
    Set::new(
        |x: int| exists|c: int, m: int| a.contains(c) && c >= 0 && p.contains(m) && x == sat_sub(c, m),
    )
}


// ---------------------------------------------------------------------------
// Executable set operations
// ---------------------------------------------------------------------------

/// Adds `x` to `v` unless it is already there.
fn insert_int(v: &mut Vec<i128>, x: i128)
    ensures
        final(v)@ == old(v)@ || final(v)@ == old(v)@.push(x),
        ints_i128(final(v)@) == ints_i128(old(v)@).insert(x as int),
{
    let mut i: usize = 0;
    while i < v.len()
        invariant
            v@ == old(v)@,
            i <= v.len(),
            forall|k: int| 0 <= k < i ==> v@[k] != x,
        decreases v.len() - i,
    {
        if v[i] == x {
            proof {
                assert(ints_i128(v@) =~= ints_i128(v@).insert(x as int));
            }
            return;
        }
        i += 1;
    }
    let ghost before = v@;
    v.push(x);
    proof {
        assert forall|y: int| ints_i128(v@).contains(y) == ints_i128(before).insert(x as int).contains(
            y,
        ) by {
            if ints_i128(before).contains(y) {
                let k = choose|k: int| 0 <= k < before.len() && before[k] as int == y;
                assert(v@[k] == before[k]);
            }
            if ints_i128(v@).contains(y) {
                let k = choose|k: int| 0 <= k < v@.len() && v@[k] as int == y;
                if k < before.len() {
                    assert(before[k] == v@[k]);
                }
            }
            if y == x as int {
                assert(v@[before.len() as int] == x);
            }
        }
        assert(ints_i128(v@) =~= ints_i128(before).insert(x as int));
    }
}

/// The Minkowski sum of the values of `a` and the deltas `d`.
fn minkowski_sum(a: &Vec<i128>, d: &Vec<i8>, Ghost(b): Ghost<int>) -> (r: Vec<i128>)
    requires
        0 <= b <= 0x1000_0000_0000_0000_0000_0000_0000,
        bounded(a@, b),
    ensures
        ints_i128(r@) == minkowski(ints_i128(a@), ints_i8(d@)),
        bounded(r@, b + 128),
{
    let mut r: Vec<i128> = Vec::new();
    let mut j: usize = 0;
    while j < d.len()
        invariant
            j <= d.len(),
            bounded(a@, b),
            0 <= b <= 0x1000_0000_0000_0000_0000_0000_0000,
            bounded(r@, b + 128),
            forall|x: int|
                ints_i128(r@).contains(x) <==> (exists|jj: int, ii: int|
                    0 <= jj < j && 0 <= ii < a@.len() && x == a@[ii] + d@[jj]),
        decreases d.len() - j,
    {
        let mut i: usize = 0;
        while i < a.len()
            invariant
                j < d.len(),
                i <= a.len(),
                bounded(a@, b),
                0 <= b <= 0x1000_0000_0000_0000_0000_0000_0000,
                bounded(r@, b + 128),
                forall|x: int|
                    ints_i128(r@).contains(x) <==> ((exists|jj: int, ii: int|
                        0 <= jj < j && 0 <= ii < a@.len() && x == a@[ii] + d@[jj]) || (exists|
                        ii: int,
                    | 0 <= ii < i && x == a@[ii] + d@[j as int])),
            decreases a.len() - i,
        {
            assert(-b <= a@[i as int] <= b);
            let x: i128 = a[i] + d[j] as i128;
            let ghost before = r@;
            insert_int(&mut r, x);
            proof {
                assert forall|k: int| 0 <= k < r@.len() implies -(b + 128) <= #[trigger] r@[k] <= b
                    + 128 by {
                    if k < before.len() {
                        assert(r@[k] == before[k]);
                    }
                }
                assert forall|y: int|
                    ints_i128(r@).contains(y) <==> ((exists|jj: int, ii: int|
                        0 <= jj < j && 0 <= ii < a@.len() && y == a@[ii] + d@[jj]) || (exists|
                        ii: int,
                    | 0 <= ii < i + 1 && y == a@[ii] + d@[j as int])) by {
                    if y == x as int {
                        assert(0 <= i < i + 1 && y == a@[i as int] + d@[j as int]);
                    }
                    if exists|ii: int| 0 <= ii < i + 1 && y == a@[ii] + d@[j as int] {
                        let ii = choose|ii: int| 0 <= ii < i + 1 && y == a@[ii] + d@[j as int];
                        if ii < i {
                            assert(exists|ii: int| 0 <= ii < i && y == a@[ii] + d@[j as int]);
                        }
                    }
                }
            }
            i += 1;
        }
        proof {
            assert forall|y: int|
                ints_i128(r@).contains(y) <==> (exists|jj: int, ii: int|
                    0 <= jj < j + 1 && 0 <= ii < a@.len() && y == a@[ii] + d@[jj]) by {
                if exists|ii: int| 0 <= ii < a@.len() && y == a@[ii] + d@[j as int] {
                    let ii = choose|ii: int| 0 <= ii < a@.len() && y == a@[ii] + d@[j as int];
                    assert(0 <= j < j + 1 && 0 <= ii < a@.len() && y == a@[ii] + d@[j as int]);
                }
                if exists|jj: int, ii: int|
                    0 <= jj < j + 1 && 0 <= ii < a@.len() && y == a@[ii] + d@[jj] {
                    let (jj, ii) = choose|jj: int, ii: int|
                        0 <= jj < j + 1 && 0 <= ii < a@.len() && y == a@[ii] + d@[jj];
                    if jj < j {
                        assert(exists|jj: int, ii: int|
                            0 <= jj < j && 0 <= ii < a@.len() && y == a@[ii] + d@[jj]);
                    } else {
                        assert(exists|ii: int| 0 <= ii < a@.len() && y == a@[ii] + d@[j as int]);
                    }
                }
            }
        }
        j += 1;
    }
    proof {
        let m = minkowski(ints_i128(a@), ints_i8(d@));
        assert forall|y: int| ints_i128(r@).contains(y) <==> m.contains(y) by {
            if ints_i128(r@).contains(y) {
                let (jj, ii) = choose|jj: int, ii: int|
                    0 <= jj < d@.len() && 0 <= ii < a@.len() && y == a@[ii] + d@[jj];
                assert(ints_i128(a@).contains(a@[ii] as int));
                assert(ints_i8(d@).contains(d@[jj] as int));
            }
            if m.contains(y) {
                let (c, e) = choose|c: int, e: int|
                    ints_i128(a@).contains(c) && ints_i8(d@).contains(e) && y == c + e;
                let ii = choose|ii: int| 0 <= ii < a@.len() && a@[ii] as int == c;
                let jj = choose|jj: int| 0 <= jj < d@.len() && d@[jj] as int == e;
                assert(0 <= jj < d@.len() && 0 <= ii < a@.len() && y == a@[ii] + d@[jj]);
            }
        }
        assert(ints_i128(r@) =~= m);
    }
    r
}

/// The saturating reduction of the non-negative values of `a` by the amounts `p`.
fn saturating_reduce(a: &Vec<i128>, p: &Vec<u8>, Ghost(b): Ghost<int>) -> (r: Vec<i128>)
    requires
        0 <= b,
        bounded(a@, b),
    ensures
        ints_i128(r@) == reduce(ints_i128(a@), ints_u8(p@)),
        bounded(r@, b),
{
    let mut r: Vec<i128> = Vec::new();
    let mut j: usize = 0;
    while j < p.len()
        invariant
            j <= p.len(),
            0 <= b,
            bounded(a@, b),
            bounded(r@, b),
            forall|x: int|
                ints_i128(r@).contains(x) <==> (exists|jj: int, ii: int|
                    0 <= jj < j && 0 <= ii < a@.len() && a@[ii] >= 0 && x == sat_sub(
                        a@[ii] as int,
                        p@[jj] as int,
                    )),
        decreases p.len() - j,
    {
        let mut i: usize = 0;
        while i < a.len()
            invariant
                j < p.len(),
                i <= a.len(),
                0 <= b,
                bounded(a@, b),
                bounded(r@, b),
                forall|x: int|
                    ints_i128(r@).contains(x) <==> ((exists|jj: int, ii: int|
                        0 <= jj < j && 0 <= ii < a@.len() && a@[ii] >= 0 && x == sat_sub(
                            a@[ii] as int,
                            p@[jj] as int,
                        )) || (exists|ii: int|
                        0 <= ii < i && a@[ii] >= 0 && x == sat_sub(
                            a@[ii] as int,
                            p@[j as int] as int,
                        ))),
            decreases a.len() - i,
        {
            let c = a[i];
            if c >= 0 {
                assert(c <= b);
                let m = p[j] as i128;
                let x: i128 = if c >= m {
                    c - m
                } else {
                    0
                };
                let ghost before = r@;
                insert_int(&mut r, x);
                proof {
                    assert forall|k: int| 0 <= k < r@.len() implies -b <= #[trigger] r@[k] <= b by {
                        if k < before.len() {
                            assert(r@[k] == before[k]);
                        }
                    }
                    assert forall|y: int|
                        ints_i128(r@).contains(y) <==> ((exists|jj: int, ii: int|
                            0 <= jj < j && 0 <= ii < a@.len() && a@[ii] >= 0 && y == sat_sub(
                                a@[ii] as int,
                                p@[jj] as int,
                            )) || (exists|ii: int|
                            0 <= ii < i + 1 && a@[ii] >= 0 && y == sat_sub(
                                a@[ii] as int,
                                p@[j as int] as int,
                            ))) by {
                        if y == x as int {
                            assert(0 <= i < i + 1 && a@[i as int] >= 0 && y == sat_sub(
                                a@[i as int] as int,
                                p@[j as int] as int,
                            ));
                        }
                        if exists|ii: int|
                            0 <= ii < i + 1 && a@[ii] >= 0 && y == sat_sub(
                                a@[ii] as int,
                                p@[j as int] as int,
                            ) {
                            let ii = choose|ii: int|
                                0 <= ii < i + 1 && a@[ii] >= 0 && y == sat_sub(
                                    a@[ii] as int,
                                    p@[j as int] as int,
                                );
                            if ii < i {
                                assert(exists|ii: int|
                                    0 <= ii < i && a@[ii] >= 0 && y == sat_sub(
                                        a@[ii] as int,
                                        p@[j as int] as int,
                                    ));
                            }
                        }
                    }
                }
            } else {
                proof {
                    assert forall|y: int|
                        ints_i128(r@).contains(y) <==> ((exists|jj: int, ii: int|
                            0 <= jj < j && 0 <= ii < a@.len() && a@[ii] >= 0 && y == sat_sub(
                                a@[ii] as int,
                                p@[jj] as int,
                            )) || (exists|ii: int|
                            0 <= ii < i + 1 && a@[ii] >= 0 && y == sat_sub(
                                a@[ii] as int,
                                p@[j as int] as int,
                            ))) by {
                        if exists|ii: int|
                            0 <= ii < i + 1 && a@[ii] >= 0 && y == sat_sub(
                                a@[ii] as int,
                                p@[j as int] as int,
                            ) {
                            let ii = choose|ii: int|
                                0 <= ii < i + 1 && a@[ii] >= 0 && y == sat_sub(
                                    a@[ii] as int,
                                    p@[j as int] as int,
                                );
                            assert(ii < i);
                        }
                    }
                }
            }
            i += 1;
        }
        proof {
            assert forall|y: int|
                ints_i128(r@).contains(y) <==> (exists|jj: int, ii: int|
                    0 <= jj < j + 1 && 0 <= ii < a@.len() && a@[ii] >= 0 && y == sat_sub(
                        a@[ii] as int,
                        p@[jj] as int,
                    )) by {
                if exists|ii: int|
                    0 <= ii < a@.len() && a@[ii] >= 0 && y == sat_sub(
                        a@[ii] as int,
                        p@[j as int] as int,
                    ) {
                    let ii = choose|ii: int|
                        0 <= ii < a@.len() && a@[ii] >= 0 && y == sat_sub(
                            a@[ii] as int,
                            p@[j as int] as int,
                        );
                    assert(0 <= j < j + 1 && 0 <= ii < a@.len() && a@[ii] >= 0 && y == sat_sub(
                        a@[ii] as int,
                        p@[j as int] as int,
                    ));
                }
                if exists|jj: int, ii: int|
                    0 <= jj < j + 1 && 0 <= ii < a@.len() && a@[ii] >= 0 && y == sat_sub(
                        a@[ii] as int,
                        p@[jj] as int,
                    ) {
                    let (jj, ii) = choose|jj: int, ii: int|
                        0 <= jj < j + 1 && 0 <= ii < a@.len() && a@[ii] >= 0 && y == sat_sub(
                            a@[ii] as int,
                            p@[jj] as int,
                        );
                    if jj < j {
                        assert(exists|jj: int, ii: int|
                            0 <= jj < j && 0 <= ii < a@.len() && a@[ii] >= 0 && y == sat_sub(
                                a@[ii] as int,
                                p@[jj] as int,
                            ));
                    } else {
                        assert(exists|ii: int|
                            0 <= ii < a@.len() && a@[ii] >= 0 && y == sat_sub(
                                a@[ii] as int,
                                p@[j as int] as int,
                            ));
                    }
                }
            }
        }
        j += 1;
    }
    proof {
        let m = reduce(ints_i128(a@), ints_u8(p@));
        assert forall|y: int| ints_i128(r@).contains(y) <==> m.contains(y) by {
            if ints_i128(r@).contains(y) {
                let (jj, ii) = choose|jj: int, ii: int|
                    0 <= jj < p@.len() && 0 <= ii < a@.len() && a@[ii] >= 0 && y == sat_sub(
                        a@[ii] as int,
                        p@[jj] as int,
                    );
                assert(ints_i128(a@).contains(a@[ii] as int));
                assert(ints_u8(p@).contains(p@[jj] as int));
            }
            if m.contains(y) {
                let (c, e) = choose|c: int, e: int|
                    ints_i128(a@).contains(c) && c >= 0 && ints_u8(p@).contains(e) && y == sat_sub(
                        c,
                        e,
                    );
                let ii = choose|ii: int| 0 <= ii < a@.len() && a@[ii] as int == c;
                let jj = choose|jj: int| 0 <= jj < p@.len() && p@[jj] as int == e;
                assert(0 <= jj < p@.len() && 0 <= ii < a@.len() && a@[ii] >= 0 && y == sat_sub(
                    a@[ii] as int,
                    p@[jj] as int,
                ));
            }
        }
        assert(ints_i128(r@) =~= m);
    }
    r
}

// ---------------------------------------------------------------------------
// Starting counts and rules
// ---------------------------------------------------------------------------

/// The starting allowed counts of each category; `None` leaves a category unset.
#[derive(Debug, Clone, PartialEq, Eq)]
pub struct TypeCounts {
    pub townsfolk: Option<Vec<i16>>,
    pub outsider: Option<Vec<i16>>,
    pub minion: Option<Vec<i16>>,
    pub demon: Option<Vec<i16>>,
    pub fabled: Option<Vec<i16>>,
    pub traveller: Option<Vec<i16>>,
}

impl View for TypeCounts {
    type V = Map<Type, Set<int>>;

    open spec fn view(&self) -> Map<Type, Set<int>> {
        Map::new(|t: Type| self.base(t) is Some, |t: Type| self.base(t)->0)
    }
}

impl TypeCounts {
    /// The starting counts of category `t`, as stored.
    pub open spec fn slot(&self, t: Type) -> Option<Vec<i16>> {
        match t {
            Type::Townsfolk => self.townsfolk,
            Type::Outsider => self.outsider,
            Type::Minion => self.minion,
            Type::Demon => self.demon,
            Type::Fabled => self.fabled,
            Type::Traveller => self.traveller,
        }
    }

    /// The starting allowed set of a category.
    pub open spec fn base(&self, t: Type) -> Option<Set<int>> {
        match self.slot(t) {
            Some(v) => Some(ints_i16(v@)),
            None => None,
        }
    }

    pub proof fn lemma_base_of_view(&self, t: Type)
        ensures
            base_of(self@, t) == self.base(t),
    {
    }

    /// The starting counts of one category.
    pub fn get(&self, t: Type) -> (r: &Option<Vec<i16>>)
        ensures
            *r == self.slot(t),
    {
        match t {
            Type::Townsfolk => &self.townsfolk,
            Type::Outsider => &self.outsider,
            Type::Minion => &self.minion,
            Type::Demon => &self.demon,
            Type::Fabled => &self.fabled,
            Type::Traveller => &self.traveller,
        }
    }
}

/// The characters behind a sequence of references.
pub open spec fn chars_of(s: Seq<&Character>) -> Seq<Character> {
    s.map_values(|c: &Character| *c)
}

/// The starting allowed set of `t` in a map of starting counts.
pub open spec fn base_of(base: Map<Type, Set<int>>, t: Type) -> Option<Set<int>> {
    if base.contains_key(t) {
        Some(base[t])
    } else {
        None
    }
}

/// Pushing a reference pushes the character it points to.
pub proof fn lemma_chars_push(s: Seq<&Character>, x: &Character)
    ensures
        chars_of(s.push(x)) == chars_of(s).push(*x),
{
    assert(chars_of(s.push(x)) =~= chars_of(s).push(*x));
}

/// The rules that one character carries.
pub open spec fn rules_of(c: Character) -> Seq<Condition> {
    match c.conditions {
        Some(v) => v@,
        None => Seq::empty(),
    }
}

/// The rules of all candidates, in candidate order.
pub open spec fn all_rules(cs: Seq<Character>) -> Seq<Condition>
    decreases cs.len(),
{
    if cs.len() == 0 {
        Seq::empty()
    } else {
        all_rules(cs.drop_last()) + rules_of(cs.last())
    }
}

/// How many candidates belong to category `t`.
pub open spec fn count_of(cs: Seq<Character>, t: Type) -> nat
    decreases cs.len(),
{
    if cs.len() == 0 {
        0
    } else {
        count_of(cs.drop_last(), t) + if cs.last().category == t {
            1nat
        } else {
            0nat
        }
    }
}

/// Some candidate has identifier `id`.
pub open spec fn has_id(cs: Seq<Character>, id: Seq<char>) -> bool {
    exists|i: int| 0 <= i < cs.len() && cs[i].spec_id() == id
}

/// The identifier that a `Character` rule requires.
pub open spec fn required_id(r: Condition) -> Option<Seq<char>> {
    match r {
        Condition::Character { character } => Some(character@),
        _ => None,
    }
}

/// A `Forbidden` rule on `t`.
pub open spec fn is_forbidding(r: Condition, t: Type) -> bool {
    match r {
        Condition::Type { category, amount: TypeCond::Forbidden } => category == t,
        _ => false,
    }
}

/// A `Forbidden` or `Any` rule on `t`: the count of `t` is not checked.
pub open spec fn is_exempting(r: Condition, t: Type) -> bool {
    match r {
        Condition::Type { category, amount: TypeCond::Forbidden } => category == t,
        Condition::Type { category, amount: TypeCond::Any } => category == t,
        _ => false,
    }
}

/// The deltas of an offset rule on `t`.
pub open spec fn offset_of(r: Condition, t: Type) -> Option<Set<int>> {
    match r {
        Condition::Type { category, amount: TypeCond::Add(d) } => if category == t {
            Some(ints_i8(d@))
        } else {
            None
        },
        _ => None,
    }
}

/// The amounts of a saturating-reduction rule on `t`.
pub open spec fn reduction_of(r: Condition, t: Type) -> Option<Set<int>> {
    match r {
        Condition::Type { category, amount: TypeCond::SaturatingSub(p) } => if category == t {
            Some(ints_u8(p@))
        } else {
            None
        },
        _ => None,
    }
}

/// The extra slots that a constant rule contributes.
pub open spec fn constant_extra(r: Condition) -> nat {
    match r {
        Condition::ExtraCharacters { extra_characters: ExtraCharacters::Const(n) } => n as nat,
        _ => 0,
    }
}

/// The subtrahend of a relative extra-slot rule on `t`.
pub open spec fn relative_sub(r: Condition, t: Type) -> Option<int> {
    match r {
        Condition::ExtraCharacters { extra_characters: ExtraCharacters::Type(c, s) } => if c
            == t {
            Some(s as int)
        } else {
            None
        },
        _ => None,
    }
}

/// Folds every offset rule on `t`, in order, into the allowed set.
pub open spec fn fold_offsets(init: Option<Set<int>>, rules: Seq<Condition>, t: Type) -> Option<
    Set<int>,
>
    decreases rules.len(),
{
    if rules.len() == 0 {
        init
    } else {
        let prev = fold_offsets(init, rules.drop_last(), t);
        match offset_of(rules.last(), t) {
            Some(d) => apply_offset(prev, d),
            None => prev,
        }
    }
}

/// Some saturating-reduction rule targets `t`.
pub open spec fn has_reduction(rules: Seq<Condition>, t: Type) -> bool {
    exists|i: int| 0 <= i < rules.len() && reduction_of(rules[i], t) is Some
}

/// The union of the amounts of every reduction rule on `t`.
pub open spec fn pooled(rules: Seq<Condition>, t: Type) -> Set<int> {
    Set::new(
        |m: int|
            exists|i: int|
                0 <= i < rules.len() && reduction_of(rules[i], t) is Some && reduction_of(
                    rules[i],
                    t,
                )->0.contains(m),
    )
}

/// The allowed set of `t` after all offsets and then the pooled reduction.
pub open spec fn allowed(init: Option<Set<int>>, rules: Seq<Condition>, t: Type) -> Option<Set<int>> {
    let o = fold_offsets(init, rules, t);
    if has_reduction(rules, t) {
        Some(
            reduce(
                match o {
                    Some(a) => a,
                    None => Set::empty(),
                },
                pooled(rules, t),
            ),
        )
    } else {
        o
    }
}

/// Some rule exempts `t` from the count check.
pub open spec fn exempt(rules: Seq<Condition>, t: Type) -> bool {
    exists|i: int| 0 <= i < rules.len() && is_exempting(rules[i], t)
}

/// Some rule forbids members of `t`.
pub open spec fn forbidden(rules: Seq<Condition>, t: Type) -> bool {
    exists|i: int| 0 <= i < rules.len() && is_forbidding(rules[i], t)
}

/// The allowed set held by an optional vector.
pub open spec fn ints_opt(v: Option<Vec<i128>>) -> Option<Set<int>> {
    match v {
        Some(v) => Some(ints_i128(v@)),
        None => None,
    }
}

/// The largest magnitude an allowed count reaches after `n` offset rules.
pub open spec fn offset_bound(n: int) -> int {
    0x8000 + 128 * n
}

fn widen(v: &Vec<i16>) -> (r: Vec<i128>)
    ensures
        ints_i128(r@) == ints_i16(v@),
        bounded(r@, offset_bound(0)),
{
    let mut r: Vec<i128> = Vec::new();
    let mut i: usize = 0;
    while i < v.len()
        invariant
            i <= v.len(),
            r@.len() == i,
            forall|k: int| 0 <= k < i ==> r@[k] == v@[k] as i128,
        decreases v.len() - i,
    {
        r.push(v[i] as i128);
        i += 1;
    }
    proof {
        assert forall|y: int| ints_i128(r@).contains(y) <==> ints_i16(v@).contains(y) by {
            if ints_i128(r@).contains(y) {
                let k = choose|k: int| 0 <= k < r@.len() && r@[k] as int == y;
                assert(v@[k] as int == y);
            }
            if ints_i16(v@).contains(y) {
                let k = choose|k: int| 0 <= k < v@.len() && v@[k] as int == y;
                assert(r@[k] as int == y);
            }
        }
        assert(ints_i128(r@) =~= ints_i16(v@));
    }
    r
}

fn append_amounts(pool: &mut Vec<u8>, p: &Vec<u8>)
    ensures
        final(pool)@ == old(pool)@ + p@,
{
    let mut i: usize = 0;
    while i < p.len()
        invariant
            i <= p.len(),
            pool@ == old(pool)@ + p@.subrange(0, i as int),
        decreases p.len() - i,
    {
        pool.push(p[i]);
        proof {
            assert(p@.subrange(0, i + 1) =~= p@.subrange(0, i as int).push(p@[i as int]));
        }
        i += 1;
    }
    proof {
        assert(p@.subrange(0, p@.len() as int) =~= p@);
    }
}

proof fn lemma_ints_u8_concat(a: Seq<u8>, b: Seq<u8>)
    ensures
        ints_u8(a + b) == ints_u8(a).union(ints_u8(b)),
{
    assert forall|y: int| ints_u8(a + b).contains(y) <==> ints_u8(a).union(ints_u8(b)).contains(y) by {
        if ints_u8(a + b).contains(y) {
            let k = choose|k: int| 0 <= k < (a + b).len() && (a + b)[k] as int == y;
            if k < a.len() {
                assert(a[k] as int == y);
            } else {
                assert(b[k - a.len()] as int == y);
            }
        }
        if ints_u8(a).contains(y) {
            let k = choose|k: int| 0 <= k < a.len() && a[k] as int == y;
            assert((a + b)[k] as int == y);
        }
        if ints_u8(b).contains(y) {
            let k = choose|k: int| 0 <= k < b.len() && b[k] as int == y;
            assert((a + b)[k + a.len()] as int == y);
        }
    }
    assert(ints_u8(a + b) =~= ints_u8(a).union(ints_u8(b)));
}

proof fn lemma_ints_empty(v: Seq<i128>)
    ensures
        (ints_i128(v) == Set::<int>::empty()) == (v.len() == 0),
{
    if v.len() == 0 {
        assert(ints_i128(v) =~= Set::<int>::empty());
    } else {
        assert(ints_i128(v).contains(v[0] as int));
    }
}

/// The rules behind a sequence of references.
pub open spec fn deref_seq(s: Seq<&Condition>) -> Seq<Condition> {
    s.map_values(|r: &Condition| *r)
}

/// The allowed set of category `t` once every rule has been folded in.
fn allowed_counts(base: &TypeCounts, rules: &Vec<&Condition>, t: Type) -> (r: Option<Vec<i128>>)
    ensures
        ints_opt(r) == allowed(base_of(base@, t), deref_seq(rules@), t),
        r matches Some(v) ==> bounded(v@, offset_bound(rules@.len() as int)),
{
    let ghost rs = deref_seq(rules@);
    proof {
        base.lemma_base_of_view(t);
    }
    let mut cur: Option<Vec<i128>> = match base.get(t) {
        Some(v) => Some(widen(v)),
        None => None,
    };
    let mut i: usize = 0;
    proof {
        assert(rs.subrange(0, 0) =~= Seq::<Condition>::empty());
    }
    while i < rules.len()
        invariant
            rs == deref_seq(rules@),
            i <= rs.len(),
            ints_opt(cur) == fold_offsets(base_of(base@, t), rs.subrange(0, i as int), t),
            cur matches Some(v) ==> bounded(v@, offset_bound(i as int)),
        decreases rules.len() - i,
    {
        proof {
            assert(rs.subrange(0, i + 1).drop_last() =~= rs.subrange(0, i as int));
        }
        if let Condition::Type { category, amount: TypeCond::Add(d) } = rules[i] {
            if *category == t {
                let start: Vec<i128> = match cur {
                    Some(v) => if v.len() > 0 {
                        v
                    } else {
                        vec![0]
                    },
                    None => vec![0],
                };
                proof {
                    if cur is Some {
                        lemma_ints_empty(cur->0@);
                    }
                    assert(ints_i128(seq![0i128]) =~= set![0int]) by {
                        assert(seq![0i128][0] == 0);
                    }
                    assert(ints_i128(start@) == offset_base(ints_opt(cur)));
                }
                cur = Some(minkowski_sum(&start, d, Ghost(offset_bound(i as int))));
            }
        }
        i += 1;
        proof {
            if cur is Some {
                let v = cur->0@;
                assert forall|k: int| 0 <= k < v.len() implies -offset_bound(i as int) <= #[trigger] v[k]
                    <= offset_bound(i as int) by {}
            }
        }
    }
    proof {
        assert(rs.subrange(0, rs.len() as int) =~= rs);
    }
    let mut pool: Vec<u8> = Vec::new();
    let mut any: bool = false;
    let mut i: usize = 0;
    while i < rules.len()
        invariant
            rs == deref_seq(rules@),
            i <= rs.len(),
            any == has_reduction(rs.subrange(0, i as int), t),
            ints_u8(pool@) == pooled(rs.subrange(0, i as int), t),
        decreases rules.len() - i,
    {
        let ghost prefix = rs.subrange(0, i as int);
        let ghost next = rs.subrange(0, i + 1);
        let ghost before = pool@;
        proof {
            assert(next =~= prefix.push(rs[i as int]));
        }
        if let Condition::Type { category, amount: TypeCond::SaturatingSub(p) } = rules[i] {
            if *category == t {
                any = true;
                append_amounts(&mut pool, p);
                proof {
                    lemma_ints_u8_concat(before, p@);
                    assert(reduction_of(next[i as int], t) is Some);
                }
            }
        }
        proof {
            let added = reduction_of(rs[i as int], t);
            assert forall|m: int| pooled(next, t).contains(m) <==> ints_u8(pool@).contains(m) by {
                if pooled(next, t).contains(m) {
                    let k = choose|k: int|
                        0 <= k < next.len() && reduction_of(next[k], t) is Some && reduction_of(
                            next[k],
                            t,
                        )->0.contains(m);
                    if k < i {
                        assert(prefix[k] == next[k]);
                        assert(pooled(prefix, t).contains(m));
                    }
                }
                if ints_u8(pool@).contains(m) {
                    if pooled(prefix, t).contains(m) {
                        let k = choose|k: int|
                            0 <= k < prefix.len() && reduction_of(prefix[k], t) is Some
                                && reduction_of(prefix[k], t)->0.contains(m);
                        assert(prefix[k] == next[k]);
                    } else {
                        assert(added is Some && added->0.contains(m));
                        assert(next[i as int] == rs[i as int]);
                    }
                }
            }
            assert(pooled(next, t) =~= ints_u8(pool@));
            if has_reduction(next, t) {
                let k = choose|k: int| 0 <= k < next.len() && reduction_of(next[k], t) is Some;
                if k < i {
                    assert(prefix[k] == next[k]);
                }
            }
            if has_reduction(prefix, t) {
                let k = choose|k: int| 0 <= k < prefix.len() && reduction_of(prefix[k], t) is Some;
                assert(prefix[k] == next[k]);
            }
        }
        i += 1;
    }
    proof {
        assert(rs.subrange(0, rs.len() as int) =~= rs);
    }
    if any {
        let a: Vec<i128> = match cur {
            Some(v) => v,
            None => Vec::new(),
        };
        proof {
            assert(ints_i128(Seq::<i128>::empty()) =~= Set::<int>::empty());
        }
        Some(saturating_reduce(&a, &pool, Ghost(offset_bound(rs.len() as int))))
    } else {
        cur
    }
}

// ---------------------------------------------------------------------------
// Verdict and extra slots
// ---------------------------------------------------------------------------

/// Every `Character` rule names a selected character.
pub open spec fn requirements_met(cs: Seq<Character>) -> bool {
    let rules = all_rules(cs);
    forall|i: int|
        0 <= i < rules.len() && #[trigger] required_id(rules[i]) is Some ==> has_id(
            cs,
            required_id(rules[i])->0,
        )
}

/// The count of `t` lies in its allowed set, unless `t` is exempt or unconstrained.
pub open spec fn count_allowed(cs: Seq<Character>, base: Map<Type, Set<int>>, t: Type) -> bool {
    let rules = all_rules(cs);
    exempt(rules, t) || match allowed(base_of(base, t), rules, t) {
        Some(s) => s.contains(count_of(cs, t) as int),
        None => true,
    }
}

/// Category `t` passes: no member if forbidden, and an allowed count.
pub open spec fn type_ok(cs: Seq<Character>, base: Map<Type, Set<int>>, t: Type) -> bool {
    &&& forbidden(all_rules(cs), t) ==> count_of(cs, t) == 0
    &&& count_allowed(cs, base, t)
}

/// The verdict of the rule evaluator on a candidate set.
pub open spec fn is_valid_composition(cs: Seq<Character>, base: Map<Type, Set<int>>) -> bool {
    &&& requirements_met(cs)
    &&& forall|t: Type| #[trigger] type_ok(cs, base, t)
}

/// The sum of the constant extra-slot rules.
pub open spec fn constant_extras(rules: Seq<Condition>) -> nat
    decreases rules.len(),
{
    if rules.len() == 0 {
        0
    } else {
        constant_extras(rules.drop_last()) + constant_extra(rules.last())
    }
}

/// `x`, floored at zero.
pub open spec fn clamp0(x: int) -> nat {
    if x > 0 {
        x as nat
    } else {
        0
    }
}

/// The largest `max(0, count - s)` over the relative extra-slot rules on `t`.
pub open spec fn relative_extra(count: int, rules: Seq<Condition>, t: Type) -> nat
    decreases rules.len(),
{
    if rules.len() == 0 {
        0
    } else {
        let prev = relative_extra(count, rules.drop_last(), t);
        match relative_sub(rules.last(), t) {
            Some(s) => if clamp0(count - s) > prev {
                clamp0(count - s)
            } else {
                prev
            },
            None => prev,
        }
    }
}

/// The relative extra slots, summed over the categories.
pub open spec fn relative_extras(cs: Seq<Character>) -> nat {
    let r = all_rules(cs);
    relative_extra(count_of(cs, Type::Townsfolk) as int, r, Type::Townsfolk) + relative_extra(
        count_of(cs, Type::Outsider) as int,
        r,
        Type::Outsider,
    ) + relative_extra(count_of(cs, Type::Minion) as int, r, Type::Minion) + relative_extra(
        count_of(cs, Type::Demon) as int,
        r,
        Type::Demon,
    ) + relative_extra(count_of(cs, Type::Fabled) as int, r, Type::Fabled) + relative_extra(
        count_of(cs, Type::Traveller) as int,
        r,
        Type::Traveller,
    )
}

/// The number of slots past the player count that a candidate set asks for.
pub open spec fn extra_slots(cs: Seq<Character>) -> nat {
    constant_extras(all_rules(cs)) + relative_extras(cs)
}

proof fn lemma_count_le(cs: Seq<Character>, t: Type)
    ensures
        count_of(cs, t) <= cs.len(),
    decreases cs.len(),
{
    if cs.len() > 0 {
        lemma_count_le(cs.drop_last(), t);
    }
}

fn collect_rules<'a>(cs: &[&'a Character]) -> (r: Vec<&'a Condition>)
    ensures
        deref_seq(r@) == all_rules(chars_of(cs@)),
{
    let mut r: Vec<&'a Condition> = Vec::new();
    let mut i: usize = 0;
    proof {
        assert(deref_seq(r@) =~= all_rules(chars_of(cs@).subrange(0, 0)));
    }
    while i < cs.len()
        invariant
            i <= chars_of(cs@).len(),
            deref_seq(r@) == all_rules(chars_of(cs@).subrange(0, i as int)),
        decreases cs.len() - i,
    {
        let ghost prefix = all_rules(chars_of(cs@).subrange(0, i as int));
        proof {
            assert(chars_of(cs@).subrange(0, i + 1).drop_last() =~= chars_of(cs@).subrange(0, i as int));
        }
        match &cs[i].conditions {
            Some(v) => {
                let mut j: usize = 0;
                proof {
                    assert(deref_seq(r@) =~= prefix + v@.subrange(0, 0));
                }
                while j < v.len()
                    invariant
                        j <= v@.len(),
                        deref_seq(r@) == prefix + v@.subrange(0, j as int),
                    decreases v.len() - j,
                {
                    let ghost before = r@;
                    r.push(&v[j]);
                    proof {
                        assert(deref_seq(r@) =~= deref_seq(before).push(v@[j as int]));
                        assert(prefix + v@.subrange(0, j + 1) =~= (prefix + v@.subrange(
                            0,
                            j as int,
                        )).push(v@[j as int]));
                    }
                    j += 1;
                }
                proof {
                    assert(v@.subrange(0, v@.len() as int) =~= v@);
                }
            },
            None => {
                proof {
                    assert(prefix + Seq::<Condition>::empty() =~= prefix);
                }
            },
        }
        i += 1;
    }
    proof {
        assert(chars_of(cs@).subrange(0, chars_of(cs@).len() as int) =~= chars_of(cs@));
    }
    r
}

fn count_type(cs: &[&Character], t: Type) -> (r: usize)
    ensures
        r == count_of(chars_of(cs@), t),
{
    let mut n: usize = 0;
    let mut i: usize = 0;
    while i < cs.len()
        invariant
            i <= chars_of(cs@).len(),
            n == count_of(chars_of(cs@).subrange(0, i as int), t),
            n <= i,
        decreases cs.len() - i,
    {
        proof {
            assert(chars_of(cs@).subrange(0, i + 1).drop_last() =~= chars_of(cs@).subrange(0, i as int));
        }
        if cs[i].category == t {
            n += 1;
        }
        i += 1;
    }
    proof {
        assert(chars_of(cs@).subrange(0, chars_of(cs@).len() as int) =~= chars_of(cs@));
    }
    n
}

fn contains_id(cs: &[&Character], id: &String) -> (r: bool)
    ensures
        r == has_id(chars_of(cs@), id@),
{
    let mut i: usize = 0;
    while i < cs.len()
        invariant
            i <= chars_of(cs@).len(),
            forall|k: int| 0 <= k < i ==> chars_of(cs@)[k].spec_id() != id@,
        decreases cs.len() - i,
    {
        if cs[i].id() == *id {
            proof {
                assert(chars_of(cs@)[i as int].spec_id() == id@);
            }
            return true;
        }
        i += 1;
    }
    false
}

fn contains_int(v: &Vec<i128>, x: i128) -> (r: bool)
    ensures
        r == ints_i128(v@).contains(x as int),
{
    let mut i: usize = 0;
    while i < v.len()
        invariant
            i <= v@.len(),
            forall|k: int| 0 <= k < i ==> v@[k] != x,
        decreases v.len() - i,
    {
        if v[i] == x {
            return true;
        }
        i += 1;
    }
    false
}

fn check_type(cs: &[&Character], rules: &Vec<&Condition>, base: &TypeCounts, t: Type) -> (r: bool)
    requires
        deref_seq(rules@) == all_rules(chars_of(cs@)),
    ensures
        r == type_ok(chars_of(cs@), base@, t),
{
    let ghost rs = deref_seq(rules@);
    proof {
        base.lemma_base_of_view(t);
    }
    let count = count_type(cs, t);
    proof {
        lemma_count_le(chars_of(cs@), t);
    }
    let mut is_exempt = false;
    let mut is_forbidden = false;
    let mut i: usize = 0;
    while i < rules.len()
        invariant
            rs == deref_seq(rules@),
            i <= rules@.len(),
            is_exempt == exists|k: int| 0 <= k < i && is_exempting(rs[k], t),
            is_forbidden == exists|k: int| 0 <= k < i && is_forbidding(rs[k], t),
        decreases rules.len() - i,
    {
        match rules[i] {
            Condition::Type { category, amount: TypeCond::Forbidden } => {
                if *category == t {
                    is_exempt = true;
                    is_forbidden = true;
                }
            },
            Condition::Type { category, amount: TypeCond::Any } => {
                if *category == t {
                    is_exempt = true;
                }
            },
            _ => {},
        }
        proof {
            let next = i + 1;
            assert(rs[i as int] == *rules@[i as int]);
            if is_exempting(rs[i as int], t) {
                assert(0 <= i < next && is_exempting(rs[i as int], t));
            }
            if is_forbidding(rs[i as int], t) {
                assert(0 <= i < next && is_forbidding(rs[i as int], t));
            }
        }
        i += 1;
    }
    let counted = if is_exempt {
        true
    } else {
        match allowed_counts(base, rules, t) {
            Some(v) => contains_int(&v, count as i128),
            None => true,
        }
    };
    (!is_forbidden || count == 0) && counted
}

fn constant_total(rules: &Vec<&Condition>) -> (r: u128)
    ensures
        r == constant_extras(deref_seq(rules@)),
        r <= 255 * rules@.len(),
{
    let ghost rs = deref_seq(rules@);
    let mut n: u128 = 0;
    let mut i: usize = 0;
    while i < rules.len()
        invariant
            rs == deref_seq(rules@),
            i <= rules@.len(),
            n == constant_extras(rs.subrange(0, i as int)),
            n <= 255 * i,
        decreases rules.len() - i,
    {
        proof {
            assert(rs.subrange(0, i + 1).drop_last() =~= rs.subrange(0, i as int));
        }
        if let Condition::ExtraCharacters { extra_characters: ExtraCharacters::Const(k) } = rules[i] {
            n = n + *k as u128;
        }
        i += 1;
    }
    proof {
        assert(rs.subrange(0, rules@.len() as int) =~= rs);
    }
    n
}

fn relative_total(rules: &Vec<&Condition>, count: usize, t: Type) -> (r: u128)
    ensures
        r == relative_extra(count as int, deref_seq(rules@), t),
        r <= count + 128,
{
    let ghost rs = deref_seq(rules@);
    let mut n: u128 = 0;
    let mut i: usize = 0;
    while i < rules.len()
        invariant
            rs == deref_seq(rules@),
            i <= rules@.len(),
            n == relative_extra(count as int, rs.subrange(0, i as int), t),
            n <= count + 128,
        decreases rules.len() - i,
    {
        proof {
            assert(rs.subrange(0, i + 1).drop_last() =~= rs.subrange(0, i as int));
        }
        if let Condition::ExtraCharacters { extra_characters: ExtraCharacters::Type(c, sub) } = rules[i] {
            if *c == t {
                let k: i128 = count as i128 - *sub as i128;
                let k: u128 = if k > 0 {
                    k as u128
                } else {
                    0
                };
                if k > n {
                    n = k;
                }
            }
        }
        i += 1;
    }
    proof {
        assert(rs.subrange(0, rules@.len() as int) =~= rs);
    }
    n
}

/// An upper bound on the extra slots that any candidate set in memory asks for.
pub const EXTRA_LIMIT: u128 = 0x1_0000_0000_0000_0000_0000;

/// Evaluates a candidate set: whether every rule of every member holds, and how
/// many slots past the player count the set asks for.
pub fn validate_list(characters: &[&Character], type_counts: &TypeCounts) -> (r: (bool, u128))
    ensures
        r.0 == is_valid_composition(chars_of(characters@), type_counts@),
        r.1 == extra_slots(chars_of(characters@)),
        r.1 < EXTRA_LIMIT,
{
    let rules = collect_rules(characters);
    let ghost rs = deref_seq(rules@);
    let mut met = true;
    let mut i: usize = 0;
    while i < rules.len()
        invariant
            rs == deref_seq(rules@),
            rs == all_rules(chars_of(characters@)),
            i <= rules@.len(),
            met == forall|k: int|
                0 <= k < i && #[trigger] required_id(rs[k]) is Some ==> has_id(
                    chars_of(characters@),
                    required_id(rs[k])->0,
                ),
        decreases rules.len() - i,
    {
        let ghost was = met;
        if let Condition::Character { character } = rules[i] {
            if !contains_id(characters, character) {
                met = false;
            }
        }
        proof {
            let next = i + 1;
            assert(rs[i as int] == *rules@[i as int]);
            if met {
                assert forall|k: int|
                    0 <= k < next && #[trigger] required_id(rs[k]) is Some implies has_id(
                    chars_of(characters@),
                    required_id(rs[k])->0,
                ) by {
                    if k < i {
                        assert(was);
                    }
                }
            } else if was {
                assert(required_id(rs[i as int]) is Some && !has_id(
                    chars_of(characters@),
                    required_id(rs[i as int])->0,
                ));
            } else {
                let k = choose|k: int|
                    !(0 <= k < i && #[trigger] required_id(rs[k]) is Some ==> has_id(
                        chars_of(characters@),
                        required_id(rs[k])->0,
                    ));
                assert(!(0 <= k < next && required_id(rs[k]) is Some ==> has_id(
                    chars_of(characters@),
                    required_id(rs[k])->0,
                )));
            }
        }
        i += 1;
    }
    let townsfolk = check_type(characters, &rules, type_counts, Type::Townsfolk);
    let outsider = check_type(characters, &rules, type_counts, Type::Outsider);
    let minion = check_type(characters, &rules, type_counts, Type::Minion);
    let demon = check_type(characters, &rules, type_counts, Type::Demon);
    let fabled = check_type(characters, &rules, type_counts, Type::Fabled);
    let traveller = check_type(characters, &rules, type_counts, Type::Traveller);
    let valid = met && townsfolk && outsider && minion && demon && fabled && traveller;
    proof {
        if valid {
            assert forall|t: Type| #[trigger] type_ok(chars_of(characters@), type_counts@, t) by {
                match t {
                    Type::Townsfolk => {},
                    Type::Outsider => {},
                    Type::Minion => {},
                    Type::Demon => {},
                    Type::Fabled => {},
                    Type::Traveller => {},
                }
            }
        }
        if is_valid_composition(chars_of(characters@), type_counts@) {
            assert(type_ok(chars_of(characters@), type_counts@, Type::Townsfolk));
            assert(type_ok(chars_of(characters@), type_counts@, Type::Outsider));
            assert(type_ok(chars_of(characters@), type_counts@, Type::Minion));
            assert(type_ok(chars_of(characters@), type_counts@, Type::Demon));
            assert(type_ok(chars_of(characters@), type_counts@, Type::Fabled));
            assert(type_ok(chars_of(characters@), type_counts@, Type::Traveller));
        }
    }
    let mut extras = constant_total(&rules);
    assert(rules@.len() <= usize::MAX);
    let c = count_type(characters, Type::Townsfolk);
    extras = extras + relative_total(&rules, c, Type::Townsfolk);
    let c = count_type(characters, Type::Outsider);
    extras = extras + relative_total(&rules, c, Type::Outsider);
    let c = count_type(characters, Type::Minion);
    extras = extras + relative_total(&rules, c, Type::Minion);
    let c = count_type(characters, Type::Demon);
    extras = extras + relative_total(&rules, c, Type::Demon);
    let c = count_type(characters, Type::Fabled);
    extras = extras + relative_total(&rules, c, Type::Fabled);
    let c = count_type(characters, Type::Traveller);
    extras = extras + relative_total(&rules, c, Type::Traveller);
    (valid, extras)
}

} // verus!
