//! Properties of the rule evaluator, stated over its specification.
use vstd::prelude::*;

use crate::character::{Character, Type};
use crate::condition::{Condition, ExtraCharacters, TypeCond};
use crate::state::State;
use crate::validate::{
    all_rules, allowed, apply_offset, base_of, constant_extra, constant_extras, count_allowed,
    count_of, exempt, extra_slots, fold_offsets, forbidden, has_id, has_reduction, is_exempting,
    is_forbidding, is_valid_composition, minkowski, offset_base, offset_of, pooled, reduce,
    reduction_of, relative_extra, relative_extras, relative_sub, required_id, requirements_met,
    rules_of, sat_sub, type_ok,
};

verus! {

/// The count of `t` lies in its starting allowed set, if it has one.
pub open spec fn base_respected(cs: Seq<Character>, base: Map<Type, Set<int>>, t: Type) -> bool {
    base_of(base, t) matches Some(s) ==> s.contains(count_of(cs, t) as int)
}

/// With no rules among the candidates, a set is valid exactly when the count of
/// every category lies in its starting allowed set.
pub proof fn law_no_rules_checks_base_counts(cs: Seq<Character>, base: Map<Type, Set<int>>)
    requires
        all_rules(cs).len() == 0,
    ensures
        is_valid_composition(cs, base) <==> forall|t: Type| #[trigger]
            base_respected(cs, base, t),
{
    let rules = all_rules(cs);
    assert forall|t: Type| #[trigger] type_ok(cs, base, t) == base_respected(cs, base, t) by {
        assert(!exempt(rules, t));
        assert(!forbidden(rules, t));
        assert(!has_reduction(rules, t));
        assert(fold_offsets(base_of(base, t), rules, t) == base_of(base, t));
    }
    if forall|t: Type| #[trigger] base_respected(cs, base, t) {
        assert forall|t: Type| #[trigger] type_ok(cs, base, t) by {
            assert(base_respected(cs, base, t));
        }
    }
    if is_valid_composition(cs, base) {
        assert forall|t: Type| #[trigger] base_respected(cs, base, t) by {
            assert(type_ok(cs, base, t));
        }
    }
}

/// A `Forbidden` or `Any` rule on a category removes the check of its count.
pub proof fn law_exempt_skips_count_check(cs: Seq<Character>, base: Map<Type, Set<int>>, t: Type)
    requires
        exempt(all_rules(cs), t),
    ensures
        count_allowed(cs, base, t),
{
}

/// A valid set with a `Forbidden` rule on a category holds no member of it.
pub proof fn law_forbidden_requires_zero(cs: Seq<Character>, base: Map<Type, Set<int>>, t: Type)
    requires
        forbidden(all_rules(cs), t),
        is_valid_composition(cs, base),
    ensures
        count_of(cs, t) == 0,
{
    assert(type_ok(cs, base, t));
}

/// An `Any` rule without a `Forbidden` one passes its category whatever its count.
pub proof fn law_any_passes_every_count(cs: Seq<Character>, base: Map<Type, Set<int>>, t: Type)
    requires
        exempt(all_rules(cs), t),
        !forbidden(all_rules(cs), t),
    ensures
        type_ok(cs, base, t),
{
}

proof fn lemma_nonempty_witness(a: Set<int>) -> (x: int)
    requires
        a != Set::<int>::empty(),
    ensures
        a.contains(x),
{
    if !(exists|x: int| a.contains(x)) {
        assert(a =~= Set::<int>::empty());
    }
    choose|x: int| a.contains(x)
}

proof fn lemma_minkowski_nonempty(a: Set<int>, d: Set<int>)
    requires
        a != Set::<int>::empty(),
        d != Set::<int>::empty(),
    ensures
        minkowski(a, d) != Set::<int>::empty(),
{
    let c = lemma_nonempty_witness(a);
    let e = lemma_nonempty_witness(d);
    assert(minkowski(a, d).contains(c + e));
}

proof fn lemma_offset_base_nonempty(cur: Option<Set<int>>)
    ensures
        offset_base(cur) != Set::<int>::empty(),
{
    assert(set![0int].contains(0));
}

/// The Minkowski sum is associative.
pub proof fn law_minkowski_associative(a: Set<int>, b: Set<int>, c: Set<int>)
    ensures
        minkowski(minkowski(a, b), c) == minkowski(a, minkowski(b, c)),
{
    let l = minkowski(minkowski(a, b), c);
    let r = minkowski(a, minkowski(b, c));
    assert forall|x: int| l.contains(x) <==> r.contains(x) by {
        if l.contains(x) {
            let (ab, z) = choose|ab: int, z: int|
                minkowski(a, b).contains(ab) && c.contains(z) && x == ab + z;
            let (p, q) = choose|p: int, q: int| a.contains(p) && b.contains(q) && ab == p + q;
            assert(minkowski(b, c).contains(q + z));
        }
        if r.contains(x) {
            let (p, bc) = choose|p: int, bc: int|
                a.contains(p) && minkowski(b, c).contains(bc) && x == p + bc;
            let (q, z) = choose|q: int, z: int| b.contains(q) && c.contains(z) && bc == q + z;
            assert(minkowski(a, b).contains(p + q));
        }
    }
    assert(l =~= r);
}

/// The Minkowski sum is commutative.
pub proof fn law_minkowski_commutative(a: Set<int>, b: Set<int>)
    ensures
        minkowski(a, b) == minkowski(b, a),
{
    assert forall|x: int| minkowski(a, b).contains(x) <==> minkowski(b, a).contains(x) by {
        if minkowski(a, b).contains(x) {
            let (p, q) = choose|p: int, q: int| a.contains(p) && b.contains(q) && x == p + q;
            assert(b.contains(q) && a.contains(p) && x == q + p);
        }
        if minkowski(b, a).contains(x) {
            let (p, q) = choose|p: int, q: int| b.contains(p) && a.contains(q) && x == p + q;
            assert(a.contains(q) && b.contains(p) && x == q + p);
        }
    }
    assert(minkowski(a, b) =~= minkowski(b, a));
}

/// Two offsets with non-empty delta sets, applied in turn, equal one offset by
/// the Minkowski sum of their deltas.
pub proof fn law_offsets_associate(cur: Option<Set<int>>, d1: Set<int>, d2: Set<int>)
    requires
        d1 != Set::<int>::empty(),
        d2 != Set::<int>::empty(),
    ensures
        apply_offset(apply_offset(cur, d1), d2) == apply_offset(cur, minkowski(d1, d2)),
{
    lemma_offset_base_nonempty(cur);
    lemma_minkowski_nonempty(offset_base(cur), d1);
    law_minkowski_associative(offset_base(cur), d1, d2);
}

/// Two offsets with non-empty delta sets give the same allowed set in either order.
pub proof fn law_offsets_commute(cur: Option<Set<int>>, d1: Set<int>, d2: Set<int>)
    requires
        d1 != Set::<int>::empty(),
        d2 != Set::<int>::empty(),
    ensures
        apply_offset(apply_offset(cur, d1), d2) == apply_offset(apply_offset(cur, d2), d1),
{
    law_offsets_associate(cur, d1, d2);
    law_offsets_associate(cur, d2, d1);
    law_minkowski_commutative(d1, d2);
}

proof fn lemma_fold_offsets_append(
    init: Option<Set<int>>,
    r1: Seq<Condition>,
    r2: Seq<Condition>,
    t: Type,
)
    ensures
        fold_offsets(init, r1 + r2, t) == fold_offsets(fold_offsets(init, r1, t), r2, t),
    decreases r2.len(),
{
    if r2.len() == 0 {
        assert(r1 + r2 =~= r1);
    } else {
        assert((r1 + r2).drop_last() =~= r1 + r2.drop_last());
        lemma_fold_offsets_append(init, r1, r2.drop_last(), t);
    }
}

/// Swapping two neighbouring rules leaves the folded allowed set unchanged,
/// provided every offset among them has a non-empty delta set: the order in
/// which offsets are folded does not matter.
pub proof fn law_fold_offsets_swap(
    init: Option<Set<int>>,
    before: Seq<Condition>,
    a: Condition,
    b: Condition,
    after: Seq<Condition>,
    t: Type,
)
    requires
        offset_of(a, t) matches Some(d) ==> d != Set::<int>::empty(),
        offset_of(b, t) matches Some(d) ==> d != Set::<int>::empty(),
    ensures
        fold_offsets(init, before + seq![a, b] + after, t) == fold_offsets(
            init,
            before + seq![b, a] + after,
            t,
        ),
{
    lemma_fold_offsets_append(init, before + seq![a, b], after, t);
    lemma_fold_offsets_append(init, before + seq![b, a], after, t);
    lemma_fold_offsets_append(init, before, seq![a, b], t);
    lemma_fold_offsets_append(init, before, seq![b, a], t);
    let cur = fold_offsets(init, before, t);
    assert(seq![a, b].drop_last() =~= seq![a]);
    assert(seq![b, a].drop_last() =~= seq![b]);
    assert(seq![a].drop_last() =~= Seq::<Condition>::empty());
    assert(seq![b].drop_last() =~= Seq::<Condition>::empty());
    let step = |x: Option<Set<int>>, r: Condition|
        match offset_of(r, t) {
            Some(d) => apply_offset(x, d),
            None => x,
        };
    assert(fold_offsets(cur, Seq::<Condition>::empty(), t) == cur);
    assert(fold_offsets(cur, seq![a], t) == step(cur, a));
    assert(fold_offsets(cur, seq![b], t) == step(cur, b));
    assert(fold_offsets(cur, seq![a, b], t) == step(step(cur, a), b));
    assert(fold_offsets(cur, seq![b, a], t) == step(step(cur, b), a));
    if offset_of(a, t) is Some && offset_of(b, t) is Some {
        law_offsets_commute(cur, offset_of(a, t)->0, offset_of(b, t)->0);
    }
}

/// Every offset rule on `t` in `rules` has a non-empty delta set.
pub open spec fn offsets_nonempty(rules: Seq<Condition>, t: Type) -> bool {
    forall|i: int|
        0 <= i < rules.len() && #[trigger] offset_of(rules[i], t) is Some ==> offset_of(
            rules[i],
            t,
        )->0 != Set::<int>::empty()
}

/// Every offset rule of every candidate has a non-empty delta set.
pub open spec fn candidate_offsets_nonempty(cs: Seq<Character>) -> bool {
    forall|t: Type| #[trigger] offsets_nonempty(all_rules(cs), t)
}

/// Some offset rule in `rules` targets `t`.
pub open spec fn has_offset(rules: Seq<Condition>, t: Type) -> bool {
    exists|i: int| 0 <= i < rules.len() && #[trigger] offset_of(rules[i], t) is Some
}

/// The Minkowski sum of the delta sets of every offset rule on `t`.
pub open spec fn offset_total(rules: Seq<Condition>, t: Type) -> Set<int>
    decreases rules.len(),
{
    if rules.len() == 0 {
        set![0int]
    } else {
        let prev = offset_total(rules.drop_last(), t);
        match offset_of(rules.last(), t) {
            Some(d) => minkowski(prev, d),
            None => prev,
        }
    }
}

proof fn lemma_minkowski_zero(a: Set<int>)
    ensures
        minkowski(a, set![0int]) == a,
        minkowski(set![0int], a) == a,
{
    assert forall|x: int| minkowski(a, set![0int]).contains(x) <==> a.contains(x) by {
        if a.contains(x) {
            assert(a.contains(x) && set![0int].contains(0) && x == x + 0);
        }
    }
    assert(minkowski(a, set![0int]) =~= a);
    law_minkowski_commutative(a, set![0int]);
}

proof fn lemma_offset_total_nonempty(rules: Seq<Condition>, t: Type)
    requires
        offsets_nonempty(rules, t),
    ensures
        offset_total(rules, t) != Set::<int>::empty(),
    decreases rules.len(),
{
    if rules.len() == 0 {
        assert(set![0int].contains(0));
    } else {
        let r = rules.drop_last();
        assert forall|i: int| 0 <= i < r.len() && #[trigger] offset_of(r[i], t) is Some implies offset_of(
            r[i],
            t,
        )->0 != Set::<int>::empty() by {
            assert(r[i] == rules[i]);
        }
        lemma_offset_total_nonempty(r, t);
        if offset_of(rules.last(), t) is Some {
            assert(offset_of(rules[rules.len() - 1], t) is Some);
            lemma_minkowski_nonempty(offset_total(r, t), offset_of(rules.last(), t)->0);
        }
    }
}

/// With non-empty delta sets, folding the offsets equals one offset by their
/// Minkowski total.
proof fn lemma_fold_offsets_total(init: Option<Set<int>>, rules: Seq<Condition>, t: Type)
    requires
        offsets_nonempty(rules, t),
    ensures
        fold_offsets(init, rules, t) == if has_offset(rules, t) {
            Some(minkowski(offset_base(init), offset_total(rules, t)))
        } else {
            init
        },
    decreases rules.len(),
{
    if rules.len() > 0 {
        let r = rules.drop_last();
        assert forall|i: int| 0 <= i < r.len() && #[trigger] offset_of(r[i], t) is Some implies offset_of(
            r[i],
            t,
        )->0 != Set::<int>::empty() by {
            assert(r[i] == rules[i]);
        }
        lemma_fold_offsets_total(init, r, t);
        lemma_offset_total_nonempty(r, t);
        lemma_offset_base_nonempty(init);
        if has_offset(r, t) {
            let i = choose|i: int| 0 <= i < r.len() && #[trigger] offset_of(r[i], t) is Some;
            assert(rules[i] == r[i]);
        }
        if has_offset(rules, t) && !has_offset(r, t) {
            let i = choose|i: int| 0 <= i < rules.len() && #[trigger] offset_of(rules[i], t) is Some;
            if i < r.len() {
                assert(r[i] == rules[i]);
            }
        }
        match offset_of(rules.last(), t) {
            Some(d) => {
                assert(offset_of(rules[rules.len() - 1], t) is Some);
                let base = offset_base(init);
                if has_offset(r, t) {
                    lemma_minkowski_nonempty(base, offset_total(r, t));
                    law_minkowski_associative(base, offset_total(r, t), d);
                } else {
                    assert forall|i: int| 0 <= i < r.len() implies offset_of(#[trigger] r[i], t) is None by {}
                    lemma_offset_total_no_offsets(r, t);
                    lemma_minkowski_zero(d);
                }
            },
            None => {},
        }
    }
}

proof fn lemma_offset_total_no_offsets(rules: Seq<Condition>, t: Type)
    requires
        forall|i: int| 0 <= i < rules.len() ==> offset_of(#[trigger] rules[i], t) is None,
    ensures
        offset_total(rules, t) == set![0int],
    decreases rules.len(),
{
    if rules.len() > 0 {
        let r = rules.drop_last();
        assert forall|i: int| 0 <= i < r.len() implies offset_of(#[trigger] r[i], t) is None by {
            assert(r[i] == rules[i]);
        }
        lemma_offset_total_no_offsets(r, t);
        assert(offset_of(rules[rules.len() - 1], t) is None);
    }
}

proof fn lemma_offset_total_append(a: Seq<Condition>, b: Seq<Condition>, t: Type)
    ensures
        offset_total(a + b, t) == minkowski(offset_total(a, t), offset_total(b, t)),
    decreases b.len(),
{
    if b.len() == 0 {
        assert(a + b =~= a);
        lemma_minkowski_zero(offset_total(a, t));
    } else {
        assert((a + b).drop_last() =~= a + b.drop_last());
        lemma_offset_total_append(a, b.drop_last(), t);
        match offset_of(b.last(), t) {
            Some(d) => {
                law_minkowski_associative(offset_total(a, t), offset_total(b.drop_last(), t), d);
            },
            None => {},
        }
    }
}

proof fn lemma_all_rules_append(a: Seq<Character>, b: Seq<Character>)
    ensures
        all_rules(a + b) == all_rules(a) + all_rules(b),
    decreases b.len(),
{
    if b.len() == 0 {
        assert(a + b =~= a);
        assert(all_rules(a) + all_rules(b) =~= all_rules(a));
    } else {
        assert((a + b).drop_last() =~= a + b.drop_last());
        lemma_all_rules_append(a, b.drop_last());
        assert(all_rules(a + b) =~= all_rules(a) + all_rules(b));
    }
}

proof fn lemma_count_append(a: Seq<Character>, b: Seq<Character>, t: Type)
    ensures
        count_of(a + b, t) == count_of(a, t) + count_of(b, t),
    decreases b.len(),
{
    if b.len() == 0 {
        assert(a + b =~= a);
    } else {
        assert((a + b).drop_last() =~= a + b.drop_last());
        lemma_count_append(a, b.drop_last(), t);
    }
}

proof fn lemma_pair_rules(x: Character, y: Character)
    ensures
        all_rules(seq![x, y]) == rules_of(x) + rules_of(y),
{
    let e = Seq::<Character>::empty();
    assert(seq![x, y].drop_last() =~= seq![x]);
    assert(seq![x].drop_last() =~= e);
    assert(seq![x, y].last() == y);
    assert(seq![x].last() == x);
    assert(all_rules(e) == Seq::<Condition>::empty());
    assert(all_rules(seq![x]) == all_rules(e) + rules_of(x));
    assert(all_rules(seq![x]) =~= rules_of(x));
    assert(all_rules(seq![x, y]) == all_rules(seq![x]) + rules_of(y));
}

proof fn lemma_pair_count(x: Character, y: Character, t: Type)
    ensures
        count_of(seq![x, y], t) == count_of(seq![y, x], t),
{
    let e = Seq::<Character>::empty();
    assert(seq![x, y].drop_last() =~= seq![x]);
    assert(seq![x].drop_last() =~= e);
    assert(seq![y, x].drop_last() =~= seq![y]);
    assert(seq![y].drop_last() =~= e);
    assert(seq![x, y].last() == y);
    assert(seq![y, x].last() == x);
    assert(seq![x].last() == x);
    assert(seq![y].last() == y);
    assert(count_of(seq![x], t) == count_of(e, t) + if x.category == t {
        1nat
    } else {
        0nat
    });
    assert(count_of(seq![y], t) == count_of(e, t) + if y.category == t {
        1nat
    } else {
        0nat
    });
}

/// Swapping two middle blocks keeps which values a sequence holds.
proof fn lemma_exists_swap<A>(p: Seq<A>, x: Seq<A>, y: Seq<A>, s: Seq<A>, f: spec_fn(A) -> bool)
    ensures
        (exists|i: int| 0 <= i < (p + x + y + s).len() && f(#[trigger] (p + x + y + s)[i])) == (exists|
            i: int,
        |
            0 <= i < (p + y + x + s).len() && f(#[trigger] (p + y + x + s)[i])),
{
    let l = p + x + y + s;
    let r = p + y + x + s;
    let (np, nx, ny) = (p.len() as int, x.len() as int, y.len() as int);
    assert forall|i: int| 0 <= i < l.len() && f(#[trigger] l[i]) implies exists|j: int|
        0 <= j < r.len() && f(#[trigger] r[j]) by {
        if i < np {
            assert(r[i] == l[i]);
        } else if i < np + nx {
            assert(r[i + ny] == l[i]);
        } else if i < np + nx + ny {
            assert(r[i - nx] == l[i]);
        } else {
            assert(r[i] == l[i]);
        }
    }
    assert forall|i: int| 0 <= i < r.len() && f(#[trigger] r[i]) implies exists|j: int|
        0 <= j < l.len() && f(#[trigger] l[j]) by {
        if i < np {
            assert(l[i] == r[i]);
        } else if i < np + ny {
            assert(l[i + nx] == r[i]);
        } else if i < np + ny + nx {
            assert(l[i - ny] == r[i]);
        } else {
            assert(l[i] == r[i]);
        }
    }
}

proof fn lemma_offset_total_swap(
    p: Seq<Condition>,
    x: Seq<Condition>,
    y: Seq<Condition>,
    s: Seq<Condition>,
    t: Type,
)
    ensures
        offset_total(p + x + y + s, t) == offset_total(p + y + x + s, t),
{
    let (tp, tx, ty, ts) = (offset_total(p, t), offset_total(x, t), offset_total(y, t), offset_total(s, t));
    lemma_offset_total_append(p + x + y, s, t);
    lemma_offset_total_append(p + x, y, t);
    lemma_offset_total_append(p, x, t);
    lemma_offset_total_append(p + y + x, s, t);
    lemma_offset_total_append(p + y, x, t);
    lemma_offset_total_append(p, y, t);
    law_minkowski_associative(tp, tx, ty);
    law_minkowski_associative(tp, ty, tx);
    law_minkowski_commutative(tx, ty);
}

/// The verdict and the extra slots do not depend on the order in which the
/// candidates are listed: swapping two neighbours changes neither, provided
/// every offset rule among the candidates has a non-empty delta set.
pub proof fn law_candidate_order_irrelevant(
    pre: Seq<Character>,
    x: Character,
    y: Character,
    suf: Seq<Character>,
    base: Map<Type, Set<int>>,
)
    requires
        candidate_offsets_nonempty(pre + seq![x, y] + suf),
    ensures
        is_valid_composition(pre + seq![x, y] + suf, base) == is_valid_composition(
            pre + seq![y, x] + suf,
            base,
        ),
        extra_slots(pre + seq![x, y] + suf) == extra_slots(pre + seq![y, x] + suf),
{
    let c1 = pre + seq![x, y] + suf;
    let c2 = pre + seq![y, x] + suf;
    let rp = all_rules(pre);
    let rx = rules_of(x);
    let ry = rules_of(y);
    let rs = all_rules(suf);
    lemma_all_rules_append(pre + seq![x, y], suf);
    lemma_all_rules_append(pre, seq![x, y]);
    lemma_all_rules_append(pre + seq![y, x], suf);
    lemma_all_rules_append(pre, seq![y, x]);
    lemma_pair_rules(x, y);
    lemma_pair_rules(y, x);
    let r1 = all_rules(c1);
    let r2 = all_rules(c2);
    assert(r1 =~= rp + rx + ry + rs);
    assert(r2 =~= rp + ry + rx + rs);
    assert forall|t: Type| #[trigger] count_of(c1, t) == count_of(c2, t) by {
        lemma_count_append(pre + seq![x, y], suf, t);
        lemma_count_append(pre, seq![x, y], t);
        lemma_count_append(pre + seq![y, x], suf, t);
        lemma_count_append(pre, seq![y, x], t);
        lemma_pair_count(x, y, t);
    }
    assert(c1 =~= pre + seq![x] + seq![y] + suf);
    assert(c2 =~= pre + seq![y] + seq![x] + suf);
    assert forall|id: Seq<char>| #[trigger] has_id(c1, id) == has_id(c2, id) by {
        lemma_exists_swap(pre, seq![x], seq![y], suf, |c: Character| c.spec_id() == id);
    }
    // Which rules are present does not depend on their order.
    lemma_exists_swap(
        rp,
        rx,
        ry,
        rs,
        |r: Condition| required_id(r) is Some && !has_id(c1, required_id(r)->0),
    );
    assert(requirements_met(c1) == requirements_met(c2));
    assert forall|t: Type| #[trigger] type_ok(c1, base, t) == type_ok(c2, base, t) by {
        lemma_exists_swap(rp, rx, ry, rs, |r: Condition| is_forbidding(r, t));
        lemma_exists_swap(rp, rx, ry, rs, |r: Condition| is_exempting(r, t));
        lemma_exists_swap(rp, rx, ry, rs, |r: Condition| reduction_of(r, t) is Some);
        lemma_exists_swap(rp, rx, ry, rs, |r: Condition| offset_of(r, t) is Some);
        lemma_exists_swap(
            rp,
            rx,
            ry,
            rs,
            |r: Condition| offset_of(r, t) is Some && offset_of(r, t)->0 == Set::<int>::empty(),
        );
        assert(forbidden(r1, t) == forbidden(r2, t));
        assert(exempt(r1, t) == exempt(r2, t));
        assert(has_reduction(r1, t) == has_reduction(r2, t));
        assert(has_offset(r1, t) == has_offset(r2, t));
        assert(offsets_nonempty(all_rules(c1), t));
        assert(offsets_nonempty(r1, t));
        assert(offsets_nonempty(r2, t));
        assert forall|m: int| #[trigger] pooled(r1, t).contains(m) == pooled(r2, t).contains(m) by {
            lemma_exists_swap(
                rp,
                rx,
                ry,
                rs,
                |r: Condition| reduction_of(r, t) is Some && reduction_of(r, t)->0.contains(m),
            );
        }
        assert(pooled(r1, t) =~= pooled(r2, t));
        lemma_fold_offsets_total(base_of(base, t), r1, t);
        lemma_fold_offsets_total(base_of(base, t), r2, t);
        lemma_offset_total_swap(rp, rx, ry, rs, t);
        assert(fold_offsets(base_of(base, t), r1, t) == fold_offsets(base_of(base, t), r2, t));
        assert(allowed(base_of(base, t), r1, t) == allowed(base_of(base, t), r2, t));
    }
    if is_valid_composition(c1, base) {
        assert forall|t: Type| #[trigger] type_ok(c2, base, t) by {
            assert(type_ok(c1, base, t));
        }
    }
    if is_valid_composition(c2, base) {
        assert forall|t: Type| #[trigger] type_ok(c1, base, t) by {
            assert(type_ok(c2, base, t));
        }
    }
    law_constant_extras_add(rp + rx + ry, rs);
    law_constant_extras_add(rp + rx, ry);
    law_constant_extras_add(rp, rx);
    law_constant_extras_add(rp + ry + rx, rs);
    law_constant_extras_add(rp + ry, rx);
    law_constant_extras_add(rp, ry);
    assert forall|t: Type| #[trigger] relative_extra(count_of(c1, t) as int, r1, t) == relative_extra(
        count_of(c2, t) as int,
        r2,
        t,
    ) by {
        let n = count_of(c1, t) as int;
        law_relative_extra_is_max(n, rp + rx + ry, rs, t);
        law_relative_extra_is_max(n, rp + rx, ry, t);
        law_relative_extra_is_max(n, rp, rx, t);
        law_relative_extra_is_max(n, rp + ry + rx, rs, t);
        law_relative_extra_is_max(n, rp + ry, rx, t);
        law_relative_extra_is_max(n, rp, ry, t);
    }
    assert(relative_extras(c1) == relative_extras(c2));
}

proof fn lemma_no_extra_rules(rules: Seq<Condition>, count: int, t: Type)
    requires
        forall|j: int| 0 <= j < rules.len() ==> !(#[trigger] rules[j] is ExtraCharacters),
    ensures
        constant_extras(rules) == 0,
        relative_extra(count, rules, t) == 0,
    decreases rules.len(),
{
    if rules.len() > 0 {
        let r = rules.drop_last();
        assert forall|j: int| 0 <= j < r.len() implies !(#[trigger] r[j] is ExtraCharacters) by {
            assert(r[j] == rules[j]);
        }
        lemma_no_extra_rules(r, count, t);
        assert(!(rules[rules.len() - 1] is ExtraCharacters));
    }
}

/// The only extra-slot rule among the candidates is a single `Const(1)`.
pub open spec fn one_constant_extra(cs: Seq<Character>) -> bool {
    let rules = all_rules(cs);
    exists|i: int|
        0 <= i < rules.len() && rules[i] == (Condition::ExtraCharacters {
            extra_characters: ExtraCharacters::Const(1),
        }) && forall|j: int| 0 <= j < rules.len() && j != i ==> !(#[trigger] rules[j] is ExtraCharacters)
}

/// A candidate set whose only extra-slot rule is one `Const(1)` asks for
/// exactly one extra slot.
pub proof fn law_one_constant_extra_slot(cs: Seq<Character>)
    requires
        one_constant_extra(cs),
    ensures
        extra_slots(cs) == 1,
{
    let rules = all_rules(cs);
    let i = choose|i: int|
        0 <= i < rules.len() && rules[i] == (Condition::ExtraCharacters {
            extra_characters: ExtraCharacters::Const(1),
        }) && forall|j: int| 0 <= j < rules.len() && j != i ==> !(#[trigger] rules[j] is ExtraCharacters);
    let before = rules.subrange(0, i);
    let one = seq![rules[i]];
    let after = rules.subrange(i + 1, rules.len() as int);
    assert(rules =~= before + one + after);
    assert forall|j: int| 0 <= j < before.len() implies !(#[trigger] before[j] is ExtraCharacters) by {
        assert(before[j] == rules[j]);
    }
    assert forall|j: int| 0 <= j < after.len() implies !(#[trigger] after[j] is ExtraCharacters) by {
        assert(after[j] == rules[j + i + 1]);
    }
    assert(one.drop_last() =~= Seq::<Condition>::empty());
    assert(one.last() == rules[i]);
    assert(constant_extras(one) == constant_extras(Seq::<Condition>::empty()) + 1);
    law_constant_extras_add(before + one, after);
    law_constant_extras_add(before, one);
    assert forall|t: Type| #[trigger] relative_extra(count_of(cs, t) as int, rules, t) == 0 by {
        let n = count_of(cs, t) as int;
        lemma_no_extra_rules(before, n, t);
        lemma_no_extra_rules(after, n, t);
        law_relative_extra_is_max(n, before + one, after, t);
        law_relative_extra_is_max(n, before, one, t);
        assert(relative_extra(n, one, t) == relative_extra(n, Seq::<Condition>::empty(), t));
    }
    lemma_no_extra_rules(before, 0, Type::Townsfolk);
    lemma_no_extra_rules(after, 0, Type::Townsfolk);
    assert(relative_extra(count_of(cs, Type::Townsfolk) as int, rules, Type::Townsfolk) == 0);
    assert(relative_extra(count_of(cs, Type::Outsider) as int, rules, Type::Outsider) == 0);
    assert(relative_extra(count_of(cs, Type::Minion) as int, rules, Type::Minion) == 0);
    assert(relative_extra(count_of(cs, Type::Demon) as int, rules, Type::Demon) == 0);
    assert(relative_extra(count_of(cs, Type::Fabled) as int, rules, Type::Fabled) == 0);
    assert(relative_extra(count_of(cs, Type::Traveller) as int, rules, Type::Traveller) == 0);
}

/// With ten players and a single `Const(1)` as the only extra-slot rule of the
/// selection, a legal play set holds eleven selected entries.
pub proof fn law_one_constant_extra_needs_eleven(s: State)
    requires
        s.player_count == 10,
        one_constant_extra(s.selection()),
        s.valid_list(),
    ensures
        s.selected@.len() == 11,
{
    law_one_constant_extra_slot(s.selection());
}

proof fn lemma_count_total(cs: Seq<Character>)
    ensures
        cs.len() == count_of(cs, Type::Townsfolk) + count_of(cs, Type::Outsider) + count_of(
            cs,
            Type::Minion,
        ) + count_of(cs, Type::Demon) + count_of(cs, Type::Fabled) + count_of(cs, Type::Traveller),
    decreases cs.len(),
{
    if cs.len() > 0 {
        lemma_count_total(cs.drop_last());
    }
}

proof fn lemma_count_absent(cs: Seq<Character>, t: Type)
    requires
        forall|i: int| 0 <= i < cs.len() ==> (#[trigger] cs[i]).category != t,
    ensures
        count_of(cs, t) == 0,
    decreases cs.len(),
{
    if cs.len() > 0 {
        let r = cs.drop_last();
        assert forall|i: int| 0 <= i < r.len() implies (#[trigger] r[i]).category != t by {
            assert(r[i] == cs[i]);
        }
        lemma_count_absent(r, t);
        assert(cs[cs.len() - 1].category != t);
    }
}

/// Every character is a Townsfolk, Outsider, Minion or Demon.
pub open spec fn player_categories(cs: Seq<Character>) -> bool {
    forall|i: int|
        0 <= i < cs.len() ==> (#[trigger] cs[i]).category != Type::Fabled && cs[i].category
            != Type::Traveller
}

/// Ten players with the counts Outsider 0, Minion 2, Demon 1, and a selection
/// that resolves entirely to player characters without rules: the selection is
/// a legal play set exactly when it holds 7 Townsfolk, 0 Outsiders, 2 Minions
/// and 1 Demon.
pub proof fn law_ten_player_default_counts(s: State)
    requires
        s.player_count == 10,
        s.outsider_count == 0,
        s.minion_count == 2,
        s.demon_count == 1,
        s.selection().len() == s.selected@.len(),
        all_rules(s.selection()).len() == 0,
        player_categories(s.selection()),
    ensures
        s.valid_list() <==> (count_of(s.selection(), Type::Townsfolk) == 7 && count_of(
            s.selection(),
            Type::Outsider,
        ) == 0 && count_of(s.selection(), Type::Minion) == 2 && count_of(s.selection(), Type::Demon)
            == 1),
{
    let sel = s.selection();
    let base = s.base_view();
    law_no_rules_checks_base_counts(sel, base);
    let rules = all_rules(sel);
    assert(rules =~= Seq::<Condition>::empty());
    assert(constant_extras(rules) == 0);
    assert(extra_slots(sel) == 0);
    lemma_count_total(sel);
    assert forall|i: int| 0 <= i < sel.len() implies (#[trigger] sel[i]).category != Type::Fabled by {}
    assert forall|i: int| 0 <= i < sel.len() implies (#[trigger] sel[i]).category != Type::Traveller by {}
    lemma_count_absent(sel, Type::Fabled);
    lemma_count_absent(sel, Type::Traveller);
    assert(base_respected(sel, base, Type::Outsider) == (count_of(sel, Type::Outsider) == 0));
    assert(base_respected(sel, base, Type::Minion) == (count_of(sel, Type::Minion) == 2));
    assert(base_respected(sel, base, Type::Demon) == (count_of(sel, Type::Demon) == 1));
    assert forall|t: Type|
        t != Type::Outsider && t != Type::Minion && t != Type::Demon implies #[trigger] base_respected(
        sel,
        base,
        t,
    ) by {
        assert(!base.contains_key(t));
    }
    if count_of(sel, Type::Outsider) == 0 && count_of(sel, Type::Minion) == 2 && count_of(sel, Type::Demon) == 1 {
        assert forall|t: Type| #[trigger] base_respected(sel, base, t) by {
            match t {
                Type::Outsider => {},
                Type::Minion => {},
                Type::Demon => {},
                _ => {},
            }
        }
    }
    if is_valid_composition(sel, base) {
        assert(base_respected(sel, base, Type::Outsider));
        assert(base_respected(sel, base, Type::Minion));
        assert(base_respected(sel, base, Type::Demon));
    }
}

proof fn lemma_exists_insert<A>(p: Seq<A>, z: A, s: Seq<A>, f: spec_fn(A) -> bool)
    ensures
        (exists|i: int| 0 <= i < (p + seq![z] + s).len() && f(#[trigger] (p + seq![z] + s)[i])) == (
        (exists|i: int| 0 <= i < (p + s).len() && f(#[trigger] (p + s)[i])) || f(z)),
{
    let l = p + seq![z] + s;
    let r = p + s;
    let np = p.len() as int;
    assert(l[np] == z);
    assert forall|i: int| 0 <= i < l.len() && f(#[trigger] l[i]) && i != np implies exists|j: int|
        0 <= j < r.len() && f(#[trigger] r[j]) by {
        if i < np {
            assert(r[i] == l[i]);
        } else {
            assert(r[i - 1] == l[i]);
        }
    }
    assert forall|i: int| 0 <= i < r.len() && f(#[trigger] r[i]) implies exists|j: int|
        0 <= j < l.len() && f(#[trigger] l[j]) by {
        if i < np {
            assert(l[i] == r[i]);
        } else {
            assert(l[i + 1] == r[i]);
        }
    }
}

proof fn lemma_fold_offsets_some(init: Option<Set<int>>, rules: Seq<Condition>, t: Type)
    requires
        init is Some || has_offset(rules, t),
    ensures
        fold_offsets(init, rules, t) is Some,
    decreases rules.len(),
{
    if rules.len() > 0 && offset_of(rules.last(), t) is None {
        let r = rules.drop_last();
        if has_offset(rules, t) {
            let i = choose|i: int| 0 <= i < rules.len() && #[trigger] offset_of(rules[i], t) is Some;
            assert(i < r.len() && r[i] == rules[i]);
        }
        lemma_fold_offsets_some(init, r, t);
    } else if rules.len() == 0 {
        if has_offset(rules, t) {
            let i = choose|i: int| 0 <= i < rules.len() && #[trigger] offset_of(rules[i], t) is Some;
        }
    }
}

proof fn lemma_reduce_by_zero_contains(a: Set<int>, x: int)
    requires
        x >= 0,
    ensures
        reduce(a, set![0int]).contains(x) == a.contains(x),
{
    if a.contains(x) {
        assert(a.contains(x) && x >= 0 && set![0int].contains(0) && x == sat_sub(x, 0));
    }
}

/// Adding a reduction by `{0}` on category `t` to one candidate's rules leaves
/// the verdict and the extra slots unchanged, where no other reduction targets
/// `t` and `t` has a starting allowed set or an offset: the reduction only
/// drops negative allowed counts, which no count matches.
pub proof fn law_zero_reduction_keeps_verdict(
    cs: Seq<Character>,
    base: Map<Type, Set<int>>,
    k: int,
    c: Character,
    z: Condition,
    t: Type,
)
    requires
        0 <= k < cs.len(),
        c.name == cs[k].name,
        c.category == cs[k].category,
        z matches Condition::Type { category, amount: TypeCond::SaturatingSub(_) },
        reduction_of(z, t) == Some(set![0int]),
        rules_of(c) == rules_of(cs[k]).push(z),
        !has_reduction(all_rules(cs), t),
        base_of(base, t) is Some || has_offset(all_rules(cs), t),
    ensures
        is_valid_composition(cs.update(k, c), base) == is_valid_composition(cs, base),
        extra_slots(cs.update(k, c)) == extra_slots(cs),
{
    let cs2 = cs.update(k, c);
    let pre = cs.subrange(0, k);
    let post = cs.subrange(k + 1, cs.len() as int);
    assert(cs =~= pre + seq![cs[k]] + post);
    assert(cs2 =~= pre + seq![c] + post);
    assert forall|x: Character| #[trigger] all_rules(seq![x]) == rules_of(x) by {
        assert(seq![x].drop_last() =~= Seq::<Character>::empty());
        assert(seq![x].last() == x);
        assert(all_rules(Seq::<Character>::empty()) == Seq::<Condition>::empty());
        assert(Seq::<Condition>::empty() + rules_of(x) =~= rules_of(x));
        assert(all_rules(seq![x]) == all_rules(Seq::<Character>::empty()) + rules_of(x));
    }
    lemma_all_rules_append(pre + seq![cs[k]], post);
    lemma_all_rules_append(pre, seq![cs[k]]);
    lemma_all_rules_append(pre + seq![c], post);
    lemma_all_rules_append(pre, seq![c]);
    let p = all_rules(pre) + rules_of(cs[k]);
    let q = all_rules(post);
    let r1 = all_rules(cs);
    let r2 = all_rules(cs2);
    assert(r1 =~= p + q);
    assert(r2 =~= p + seq![z] + q);
    assert forall|u: Type| #[trigger] count_of(cs2, u) == count_of(cs, u) by {
        lemma_count_append(pre + seq![cs[k]], post, u);
        lemma_count_append(pre, seq![cs[k]], u);
        lemma_count_append(pre + seq![c], post, u);
        lemma_count_append(pre, seq![c], u);
        assert(seq![c].drop_last() =~= Seq::<Character>::empty());
        assert(seq![cs[k]].drop_last() =~= Seq::<Character>::empty());
    }
    assert forall|id: Seq<char>| #[trigger] has_id(cs2, id) == has_id(cs, id) by {
        if has_id(cs, id) {
            let i = choose|i: int| 0 <= i < cs.len() && cs[i].spec_id() == id;
            assert(cs2[i].spec_id() == id);
        }
        if has_id(cs2, id) {
            let i = choose|i: int| 0 <= i < cs2.len() && cs2[i].spec_id() == id;
            assert(cs[i].spec_id() == id);
        }
    }
    lemma_exists_insert(p, z, q, |r: Condition| required_id(r) is Some && !has_id(cs, required_id(r)->0));
    assert(requirements_met(cs2) == requirements_met(cs));
    assert forall|u: Type| #[trigger] type_ok(cs2, base, u) == type_ok(cs, base, u) by {
        lemma_exists_insert(p, z, q, |r: Condition| is_forbidding(r, u));
        lemma_exists_insert(p, z, q, |r: Condition| is_exempting(r, u));
        lemma_exists_insert(p, z, q, |r: Condition| reduction_of(r, u) is Some);
        assert(forbidden(r2, u) == forbidden(r1, u));
        assert(exempt(r2, u) == exempt(r1, u));
        lemma_fold_offsets_append(base_of(base, u), p + seq![z], q, u);
        lemma_fold_offsets_append(base_of(base, u), p, seq![z], u);
        lemma_fold_offsets_append(base_of(base, u), p, q, u);
        assert(seq![z].drop_last() =~= Seq::<Condition>::empty());
        assert(seq![z].last() == z);
        assert(offset_of(z, u) is None);
        let mid = fold_offsets(base_of(base, u), p, u);
        assert(fold_offsets(mid, Seq::<Condition>::empty(), u) == mid);
        assert(fold_offsets(mid, seq![z], u) == mid);
        assert(fold_offsets(base_of(base, u), r2, u) == fold_offsets(base_of(base, u), r1, u));
        assert forall|m: int| #[trigger] pooled(r2, u).contains(m) == (pooled(r1, u).contains(m) || (
        reduction_of(z, u) is Some && reduction_of(z, u)->0.contains(m))) by {
            lemma_exists_insert(
                p,
                z,
                q,
                |r: Condition| reduction_of(r, u) is Some && reduction_of(r, u)->0.contains(m),
            );
        }
        if u == t {
            assert(has_reduction(r2, u));
            assert(pooled(r2, u) =~= set![0int]);
            lemma_fold_offsets_some(base_of(base, u), r1, u);
            let a = fold_offsets(base_of(base, u), r1, u)->0;
            lemma_reduce_by_zero_contains(a, count_of(cs, u) as int);
        } else {
            assert(has_reduction(r2, u) == has_reduction(r1, u));
            assert(pooled(r2, u) =~= pooled(r1, u));
        }
        assert(count_allowed(cs2, base, u) == count_allowed(cs, base, u));
    }
    if is_valid_composition(cs, base) {
        assert forall|u: Type| #[trigger] type_ok(cs2, base, u) by {
            assert(type_ok(cs, base, u));
        }
    }
    if is_valid_composition(cs2, base) {
        assert forall|u: Type| #[trigger] type_ok(cs, base, u) by {
            assert(type_ok(cs2, base, u));
        }
    }
    law_constant_extras_add(p + seq![z], q);
    law_constant_extras_add(p, seq![z]);
    law_constant_extras_add(p, q);
    assert(seq![z].drop_last() =~= Seq::<Condition>::empty());
    assert(seq![z].last() == z);
    assert(constant_extra(z) == 0);
    assert(constant_extras(seq![z]) == constant_extras(Seq::<Condition>::empty()) + 0);
    assert forall|u: Type| #[trigger] relative_extra(count_of(cs2, u) as int, r2, u) == relative_extra(
        count_of(cs, u) as int,
        r1,
        u,
    ) by {
        let n = count_of(cs, u) as int;
        law_relative_extra_is_max(n, p + seq![z], q, u);
        law_relative_extra_is_max(n, p, seq![z], u);
        law_relative_extra_is_max(n, p, q, u);
        assert(seq![z].drop_last() =~= Seq::<Condition>::empty());
        assert(seq![z].last() == z);
        assert(relative_sub(z, u) is None);
        assert(relative_extra(n, seq![z], u) == relative_extra(n, Seq::<Condition>::empty(), u));
    }
    assert(relative_extras(cs2) == relative_extras(cs));
}

/// A saturating reduction never yields a negative count.
pub proof fn law_reduce_non_negative(a: Set<int>, p: Set<int>, x: int)
    requires
        reduce(a, p).contains(x),
    ensures
        x >= 0,
{
}

/// Reducing by the amounts `{0}` leaves a set of non-negative counts unchanged.
pub proof fn law_reduce_by_zero(a: Set<int>)
    requires
        forall|x: int| a.contains(x) ==> x >= 0,
    ensures
        reduce(a, set![0int]) == a,
{
    assert forall|x: int| reduce(a, set![0int]).contains(x) <==> a.contains(x) by {
        if a.contains(x) {
            assert(a.contains(x) && x >= 0 && set![0int].contains(0) && x == sat_sub(x, 0));
        }
    }
    assert(reduce(a, set![0int]) =~= a);
}

/// Constant extra slots of two rule lists add up.
pub proof fn law_constant_extras_add(r1: Seq<Condition>, r2: Seq<Condition>)
    ensures
        constant_extras(r1 + r2) == constant_extras(r1) + constant_extras(r2),
    decreases r2.len(),
{
    if r2.len() == 0 {
        assert(r1 + r2 =~= r1);
    } else {
        assert((r1 + r2).drop_last() =~= r1 + r2.drop_last());
        law_constant_extras_add(r1, r2.drop_last());
    }
}

/// Relative extra slots of two rule lists on the same category take the larger
/// contribution, not the sum.
pub proof fn law_relative_extra_is_max(count: int, r1: Seq<Condition>, r2: Seq<Condition>, t: Type)
    ensures
        relative_extra(count, r1 + r2, t) == if relative_extra(count, r1, t) > relative_extra(
            count,
            r2,
            t,
        ) {
            relative_extra(count, r1, t)
        } else {
            relative_extra(count, r2, t)
        },
    decreases r2.len(),
{
    if r2.len() == 0 {
        assert(r1 + r2 =~= r1);
    } else {
        assert((r1 + r2).drop_last() =~= r1 + r2.drop_last());
        law_relative_extra_is_max(count, r1, r2.drop_last(), t);
    }
}

/// Evaluation depends on the candidate set and the starting counts alone: two
/// evaluations of the same inputs agree on the verdict and the extra slots.
pub proof fn law_evaluation_deterministic(
    cs1: Seq<Character>,
    cs2: Seq<Character>,
    base1: Map<Type, Set<int>>,
    base2: Map<Type, Set<int>>,
)
    requires
        cs1 == cs2,
        base1 == base2,
    ensures
        is_valid_composition(cs1, base1) == is_valid_composition(cs2, base2),
        extra_slots(cs1) == extra_slots(cs2),
{
}

} // verus!
