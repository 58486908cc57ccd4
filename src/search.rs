//! Randomized search for a valid play set around a locked subset.
use vstd::prelude::*;

use rand::rngs::StdRng;

use crate::character::{Character, Type};
use crate::data::string_views;
use crate::validate::{chars_of, lemma_chars_push, EXTRA_LIMIT, extra_slots, is_valid_composition, validate_list, TypeCounts};

verus! {

#[verifier::external_type_specification]
#[verifier::external_body]
pub struct ExStdRng(StdRng);

/// Relies on rand::seq::index::sample: exactly `amount` distinct indices below
/// `length`, in random order. It panics when `amount > length`, and its
/// rejection sampler asserts `amount < length` in debug builds.
#[verifier::external_body]
fn sample_indices(rng: &mut StdRng, length: usize, amount: usize) -> (r: Vec<usize>)
    requires
        amount < length,
    ensures
        r@.len() == amount,
        r@.no_duplicates(),
        forall|k: int| 0 <= k < r@.len() ==> r@[k] < length,
{
    rand::seq::index::sample(rng, length, amount).into_vec()
}

/// Every index below `n`, in order.
fn all_indices(n: usize) -> (r: Vec<usize>)
    ensures
        r@.len() == n,
        r@.no_duplicates(),
        forall|k: int| 0 <= k < r@.len() ==> r@[k] == k,
{
    let mut r: Vec<usize> = Vec::new();
    let mut i: usize = 0;
    while i < n
        invariant
            i <= n,
            r@.len() == i,
            forall|k: int| 0 <= k < i ==> r@[k] == k,
        decreases n - i,
    {
        r.push(i);
        i += 1;
    }
    r
}

/// The pool members at the positions `picks`.
pub open spec fn picked(pool: Seq<Character>, picks: Seq<usize>) -> Seq<Character> {
    picks.map_values(|k: usize| pool[k as int])
}

pub open spec fn ids_of(cs: Seq<Character>) -> Seq<Seq<char>> {
    cs.map_values(|c: Character| c.spec_id())
}

/// Positions into a pool of `n` members, none repeated.
pub open spec fn distinct_picks(picks: Seq<usize>, n: nat) -> bool {
    &&& picks.no_duplicates()
    &&& forall|k: int| 0 <= k < picks.len() ==> picks[k] < n
}

/// How many members a draw takes for the guess `e` of extra slots.
pub open spec fn draw_size(pool_len: nat, locked_len: nat, want_total: nat, e: nat) -> nat {
    let wanted = (if want_total >= locked_len {
        (want_total - locked_len) as nat
    } else {
        0nat
    }) + e;
    if wanted < pool_len {
        wanted
    } else {
        pool_len
    }
}

/// A draw that the search may return: a valid set whose extra slots match the
/// guess it was drawn for, and whose identifiers differ from `previous`.
pub open spec fn accepted_draw(
    pool: Seq<Character>,
    locked: Seq<Character>,
    want_total: nat,
    base: Map<Type, Set<int>>,
    previous: Seq<Seq<char>>,
    picks: Seq<usize>,
    e: nat,
    ids: Seq<Seq<char>>,
) -> bool {
    let set = locked + picked(pool, picks);
    &&& distinct_picks(picks, pool.len())
    &&& picks.len() == draw_size(pool.len(), locked.len(), want_total, e)
    &&& is_valid_composition(set, base)
    &&& extra_slots(set) == e
    &&& ids == ids_of(picked(pool, picks))
    &&& ids.to_set() != previous.to_set()
}

proof fn lemma_picked_push(pool: Seq<Character>, picks: Seq<usize>, k: usize)
    ensures
        picked(pool, picks.push(k)) == picked(pool, picks).push(pool[k as int]),
{
    assert(picked(pool, picks.push(k)) =~= picked(pool, picks).push(pool[k as int]));
}

/// Taking the whole pool for the first guess (no extra slots) is a draw the
/// search accepts: it is the size wanted, valid, asks for no extra slots, and
/// its identifiers differ from `previous`. No random choice is made there.
pub open spec fn whole_pool_accepted(
    pool: Seq<Character>,
    locked: Seq<Character>,
    want_total: nat,
    base: Map<Type, Set<int>>,
    previous: Seq<Seq<char>>,
) -> bool {
    &&& draw_size(pool.len(), locked.len(), want_total, 0) == pool.len()
    &&& is_valid_composition(locked + pool, base)
    &&& extra_slots(locked + pool) == 0
    &&& ids_of(pool).to_set() != previous.to_set()
}

proof fn lemma_picked_all(pool: Seq<Character>, picks: Seq<usize>)
    requires
        picks.len() == pool.len(),
        forall|k: int| 0 <= k < picks.len() ==> picks[k] == k,
    ensures
        picked(pool, picks) == pool,
{
    assert(picked(pool, picks) =~= pool);
}

/// Evaluates the locked characters together with the pool members at `picks`.
pub fn evaluate_draw(
    pool: &[&Character],
    locked: &[&Character],
    picks: &Vec<usize>,
    base: &TypeCounts,
) -> (r: (bool, u128))
    requires
        forall|k: int| 0 <= k < picks@.len() ==> picks@[k] < pool@.len(),
    ensures
        r.0 == is_valid_composition(chars_of(locked@) + picked(chars_of(pool@), picks@), base@),
        r.1 == extra_slots(chars_of(locked@) + picked(chars_of(pool@), picks@)),
        r.1 < EXTRA_LIMIT,
{
    let mut set: Vec<&Character> = Vec::new();
    let mut i: usize = 0;
    while i < locked.len()
        invariant
            i <= locked@.len(),
            chars_of(set@) == chars_of(locked@).subrange(0, i as int),
        decreases locked.len() - i,
    {
        let ghost before = set@;
        set.push(locked[i]);
        proof {
            lemma_chars_push(before, locked@[i as int]);
            assert(chars_of(locked@).subrange(0, i + 1) =~= chars_of(locked@).subrange(
                0,
                i as int,
            ).push(chars_of(locked@)[i as int]));
        }
        i += 1;
    }
    proof {
        assert(chars_of(locked@).subrange(0, locked@.len() as int) =~= chars_of(locked@));
    }
    let mut j: usize = 0;
    while j < picks.len()
        invariant
            j <= picks@.len(),
            forall|k: int| 0 <= k < picks@.len() ==> picks@[k] < pool@.len(),
            chars_of(set@) == chars_of(locked@) + picked(chars_of(pool@), picks@.subrange(0, j as int)),
        decreases picks.len() - j,
    {
        let ghost before = set@;
        set.push(pool[picks[j]]);
        proof {
            lemma_chars_push(before, pool@[picks@[j as int] as int]);
            assert(picks@.subrange(0, j + 1) =~= picks@.subrange(0, j as int).push(picks@[j as int]));
            lemma_picked_push(chars_of(pool@), picks@.subrange(0, j as int), picks@[j as int]);
            assert(chars_of(set@) =~= chars_of(locked@) + picked(
                chars_of(pool@),
                picks@.subrange(0, j + 1),
            ));
        }
        j += 1;
    }
    proof {
        assert(picks@.subrange(0, picks@.len() as int) =~= picks@);
    }
    validate_list(set.as_slice(), base)
}

/// The identifiers of the pool members at `picks`.
pub fn picked_ids(pool: &[&Character], picks: &Vec<usize>) -> (r: Vec<String>)
    requires
        forall|k: int| 0 <= k < picks@.len() ==> picks@[k] < pool@.len(),
    ensures
        string_views(r@) == ids_of(picked(chars_of(pool@), picks@)),
{
    let mut r: Vec<String> = Vec::new();
    let mut j: usize = 0;
    while j < picks.len()
        invariant
            j <= picks@.len(),
            forall|k: int| 0 <= k < picks@.len() ==> picks@[k] < pool@.len(),
            string_views(r@) == ids_of(picked(chars_of(pool@), picks@.subrange(0, j as int))),
        decreases picks.len() - j,
    {
        let id = pool[picks[j]].id();
        let ghost before = r@;
        r.push(id);
        proof {
            assert(picks@.subrange(0, j + 1) =~= picks@.subrange(0, j as int).push(picks@[j as int]));
            lemma_picked_push(chars_of(pool@), picks@.subrange(0, j as int), picks@[j as int]);
            assert(string_views(r@) =~= string_views(before).push(id@));
            assert(string_views(r@) =~= ids_of(picked(chars_of(pool@), picks@.subrange(0, j + 1))));
        }
        j += 1;
    }
    proof {
        assert(picks@.subrange(0, picks@.len() as int) =~= picks@);
    }
    r
}

fn contains_str(v: &Vec<String>, s: &String) -> (r: bool)
    ensures
        r == string_views(v@).contains(s@),
{
    let mut i: usize = 0;
    while i < v.len()
        invariant
            i <= v@.len(),
            forall|k: int| 0 <= k < i ==> v@[k]@ != s@,
        decreases v.len() - i,
    {
        if v[i] == *s {
            proof {
                assert(string_views(v@)[i as int] == s@);
            }
            return true;
        }
        i += 1;
    }
    false
}

fn includes_all(a: &Vec<String>, b: &Vec<String>) -> (r: bool)
    ensures
        r == string_views(a@).to_set().subset_of(string_views(b@).to_set()),
{
    let mut i: usize = 0;
    while i < a.len()
        invariant
            i <= a@.len(),
            forall|k: int| 0 <= k < i ==> string_views(b@).contains(#[trigger] a@[k]@),
        decreases a.len() - i,
    {
        if !contains_str(b, &a[i]) {
            proof {
                assert(string_views(a@)[i as int] == a@[i as int]@);
                assert(string_views(a@).to_set().contains(a@[i as int]@));
            }
            return false;
        }
        i += 1;
    }
    proof {
        assert forall|x: Seq<char>| string_views(a@).to_set().contains(x) implies string_views(
            b@,
        ).to_set().contains(x) by {
            let k = choose|k: int| 0 <= k < string_views(a@).len() && string_views(a@)[k] == x;
            assert(string_views(b@).contains(a@[k]@));
        }
    }
    true
}

/// Whether two lists hold the same identifiers, in any order.
pub fn same_ids(a: &Vec<String>, b: &Vec<String>) -> (r: bool)
    ensures
        r == (string_views(a@).to_set() == string_views(b@).to_set()),
{
    let ab = includes_all(a, b);
    let ba = includes_all(b, a);
    proof {
        if ab && ba {
            assert(string_views(a@).to_set() =~= string_views(b@).to_set());
        }
    }
    ab && ba
}

/// Judges one draw for the guess `guess` of extra slots: returns the extra
/// slots that the locked characters and the picks ask for, and their
/// identifiers when the set is valid, asks for exactly `guess` extra slots, and
/// holds identifiers other than `previous`.
pub fn try_draw(
    pool: &[&Character],
    locked: &[&Character],
    picks: &Vec<usize>,
    guess: u128,
    base: &TypeCounts,
    previous: &Vec<String>,
) -> (r: (Option<Vec<String>>, u128))
    requires
        forall|k: int| 0 <= k < picks@.len() ==> picks@[k] < pool@.len(),
    ensures
        ({
            let set = chars_of(locked@) + picked(chars_of(pool@), picks@);
            let ids = ids_of(picked(chars_of(pool@), picks@));
            &&& r.1 == extra_slots(set)
            &&& r.1 < EXTRA_LIMIT
            &&& r.0 is Some <==> (is_valid_composition(set, base@) && extra_slots(set) == guess
                && ids.to_set() != string_views(previous@).to_set())
            &&& r.0 matches Some(found) ==> string_views(found@) == ids
        }),
{
    let (valid, extras) = evaluate_draw(pool, locked, picks, base);
    if valid && extras == guess {
        let ids = picked_ids(pool, picks);
        if !same_ids(&ids, previous) {
            return (Some(ids), extras);
        }
    }
    (None, extras)
}

fn insert_guess(v: &mut Vec<u128>, x: u128)
    ensures
        final(v)@ == old(v)@ || final(v)@ == old(v)@.push(x),
        final(v)@.contains(x),
{
    let mut i: usize = 0;
    while i < v.len()
        invariant
            v@ == old(v)@,
            i <= v.len(),
        decreases v.len() - i,
    {
        if v[i] == x {
            return;
        }
        i += 1;
    }
    v.push(x);
    proof {
        assert(v@[v@.len() - 1] == x);
    }
}

/// Searches for a valid play set that holds `locked` and `want_total` players,
/// drawing the rest from `pool` at random. Each sweep tries every guess of the
/// extra slots found so far; a draw is accepted when it is valid, asks for
/// exactly the guessed extra slots, and differs from `previous`. A draw of the
/// whole pool takes its members in pool order. Returns the
/// number of sweeps used and the identifiers drawn, or `None` once `budget`
/// sweeps have failed.
pub fn search(
    pool: &[&Character],
    locked: &[&Character],
    want_total: usize,
    base: &TypeCounts,
    previous: &Vec<String>,
    budget: usize,
    rng: &mut StdRng,
) -> (r: Option<(usize, Vec<String>)>)
    ensures
        budget == 0 ==> r is None,
        budget > 0 && whole_pool_accepted(
            chars_of(pool@),
            chars_of(locked@),
            want_total as nat,
            base@,
            string_views(previous@),
        ) ==> (r matches Some((sweeps, ids)) && sweeps == 1 && string_views(ids@) == ids_of(
            chars_of(pool@),
        )),
        r matches Some((sweeps, ids)) ==> {
            &&& 1 <= sweeps <= budget
            &&& exists|picks: Seq<usize>, e: nat|
                accepted_draw(
                    chars_of(pool@),
                    chars_of(locked@),
                    want_total as nat,
                    base@,
                    string_views(previous@),
                    picks,
                    e,
                    string_views(ids@),
                )
        },
{
    let missing: usize = if want_total >= locked.len() {
        want_total - locked.len()
    } else {
        0
    };
    let ghost whole = whole_pool_accepted(
        chars_of(pool@),
        chars_of(locked@),
        want_total as nat,
        base@,
        string_views(previous@),
    );
    let mut guesses: Vec<u128> = vec![0];
    let mut i: usize = 0;
    while i < budget
        invariant
            missing as int == (if want_total >= locked@.len() {
                want_total - locked@.len()
            } else {
                0
            }),
            i <= budget,
            forall|k: int| 0 <= k < guesses@.len() ==> guesses@[k] < EXTRA_LIMIT,
            guesses@.len() >= 1,
            guesses@[0] == 0,
            whole == whole_pool_accepted(
                chars_of(pool@),
                chars_of(locked@),
                want_total as nat,
                base@,
                string_views(previous@),
            ),
            whole ==> i == 0,
        decreases budget - i,
    {
        let n = guesses.len();
        let mut j: usize = 0;
        while j < n
            invariant
                missing as int == (if want_total >= locked@.len() {
                    want_total - locked@.len()
                } else {
                    0
                }),
                i < budget,
                j <= n,
                n <= guesses@.len(),
                forall|k: int| 0 <= k < guesses@.len() ==> guesses@[k] < EXTRA_LIMIT,
                1 <= n,
                guesses@.len() >= 1,
                guesses@[0] == 0,
                whole == whole_pool_accepted(
                    chars_of(pool@),
                    chars_of(locked@),
                    want_total as nat,
                    base@,
                    string_views(previous@),
                ),
                whole ==> i == 0 && j == 0,
            decreases n - j,
        {
            let e = guesses[j];
            let wanted: u128 = missing as u128 + e;
            let amount: usize = if wanted < pool.len() as u128 {
                wanted as usize
            } else {
                pool.len()
            };
            proof {
                let wanted_spec = (if want_total >= locked@.len() {
                    (want_total - locked@.len()) as nat
                } else {
                    0nat
                }) + e as nat;
                assert(wanted as nat == wanted_spec);
                assert(amount as nat == draw_size(
                    pool@.len(),
                    locked@.len(),
                    want_total as nat,
                    e as nat,
                ));
            }
            let picks = if amount < pool.len() {
                sample_indices(rng, pool.len(), amount)
            } else {
                all_indices(pool.len())
            };
            let (found, extras) = try_draw(pool, locked, &picks, e, base, previous);
            let ghost before = guesses@;
            insert_guess(&mut guesses, extras);
            proof {
                assert forall|k: int| 0 <= k < guesses@.len() implies guesses@[k] < EXTRA_LIMIT by {
                    if k < before.len() {
                        assert(guesses@[k] == before[k]);
                    }
                }
                assert(guesses@[0] == before[0]);
                if whole {
                    assert(e == 0);
                    assert(amount == pool@.len());
                    lemma_picked_all(chars_of(pool@), picks@);
                    assert(found is Some);
                }
            }
            if let Some(ids) = found {
                proof {
                    assert(chars_of(pool@).len() == pool@.len());
                    assert(chars_of(locked@).len() == locked@.len());
                    assert(accepted_draw(
                        chars_of(pool@),
                        chars_of(locked@),
                        want_total as nat,
                        base@,
                        string_views(previous@),
                        picks@,
                        e as nat,
                        string_views(ids@),
                    ));
                }
                let r = Some((i + 1, ids));
                proof {
                    assert(r matches Some((sweeps, found)) && found == ids);
                    if whole {
                        lemma_picked_all(chars_of(pool@), picks@);
                    }
                }
                return r;
            }
            j += 1;
        }
        i += 1;
    }
    None
}

} // verus!
