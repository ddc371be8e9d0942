//! What a stage that ran elsewhere may have made of a candidate set, taken
//! entry by entry: the shapes that the kinds of stages settle, and the
//! examination of a set against each.

use crate::rank::{distinct_ids, holds};
use crate::scalar::{Scalar, INFINITY_CODE, MIN_NORMAL_CODE, ONE_CODE};
use crate::token::data::LlamaTokenData;
use crate::token::LlamaToken;
use std::collections::HashMap;
use std::collections::HashSet;
use vstd::prelude::*;

verus! {

/// Every entry stands for the token it stood for.
pub open spec fn in_place(before: Seq<LlamaTokenData>, after: Seq<LlamaTokenData>) -> bool {
    &&& after.len() == before.len()
    &&& forall|i: int| 0 <= i < before.len() ==> (#[trigger] after[i]).id == before[i].id
}

/// What dividing by `t`, a number above zero, makes of a score: the score
/// stays on its side of zero, and zero stays zero; with `t` at or above one
/// it comes no farther from zero, with `t` at or below one no nearer.
pub open spec fn divided(t: Scalar, before: int, after: int) -> bool {
    &&& before >= 0 ==> after >= 0
    &&& before <= 0 ==> after <= 0
    &&& t.code() >= ONE_CODE ==> -before <= after <= before || before <= after <= -before
    &&& t.code() <= ONE_CODE ==> -after <= before <= after || after <= before <= -after
}

/// Every score is what dividing by `t` makes of the score at its place.
pub open spec fn all_divided(t: Scalar, before: Seq<LlamaTokenData>, after: Seq<LlamaTokenData>) -> bool {
    &&& after.len() == before.len()
    &&& forall|i: int|
        0 <= i < before.len() ==> divided(t, before[i].rank(), (#[trigger] after[i]).rank())
}

/// `after` stands for the token of `before` and carries its score; where
/// `may_floor`, it may carry negative infinity in its place.
pub open spec fn carried(before: LlamaTokenData, after: LlamaTokenData, may_floor: bool) -> bool {
    &&& after.id == before.id
    &&& after.logit == before.logit || (may_floor && after.logit == Scalar::neg_infinity())
}

/// `after` is carried over from an entry of `before`.
pub open spec fn carried_from(before: Seq<LlamaTokenData>, after: LlamaTokenData, may_floor: bool) -> bool {
    exists|j: int| 0 <= j < before.len() && carried(#[trigger] before[j], after, may_floor)
}

/// Every entry of `after` is carried over from an entry of `before`.
pub open spec fn all_carried(
    before: Seq<LlamaTokenData>,
    after: Seq<LlamaTokenData>,
    may_floor: bool,
) -> bool {
    forall|i: int| 0 <= i < after.len() ==> carried_from(before, #[trigger] after[i], may_floor)
}

/// `gone` is ordered at or above `kept` where `greatest`, else at or below it.
pub open spec fn beyond(gone: LlamaTokenData, kept: LlamaTokenData, greatest: bool) -> bool {
    if greatest {
        gone.rank() >= kept.rank()
    } else {
        gone.rank() <= kept.rank()
    }
}

/// The entries that went were the extreme ones: where `greatest`, each is
/// ordered at or above every entry that stayed, else at or below every one.
pub open spec fn extremes_went(
    before: Seq<LlamaTokenData>,
    after: Seq<LlamaTokenData>,
    greatest: bool,
) -> bool {
    forall|i: int, j: int|
        0 <= i < before.len() && 0 <= j < after.len() && !holds(after, (#[trigger] before[i]).id)
            ==> beyond(before[i], #[trigger] after[j], greatest)
}

/// No entry is ordered above what it was.
pub open spec fn none_raised(before: Seq<LlamaTokenData>, after: Seq<LlamaTokenData>) -> bool {
    &&& after.len() == before.len()
    &&& forall|i: int| 0 <= i < before.len() ==> (#[trigger] after[i]).rank() <= before[i].rank()
}

/// Every token stays: each token of `before` has an entry in `after`.
pub open spec fn all_stay(before: Seq<LlamaTokenData>, after: Seq<LlamaTokenData>) -> bool {
    forall|i: int| 0 <= i < before.len() ==> holds(after, (#[trigger] before[i]).id)
}

/// Whether the code is that of a normal number other than zero: one that
/// carries its full precision and is not infinite.
pub open spec fn normal(code: int) -> bool {
    MIN_NORMAL_CODE <= code < INFINITY_CODE || -INFINITY_CODE < code <= -MIN_NORMAL_CODE
}

/// Each entry whose token is among `remembered` and whose score is a normal
/// number other than zero is ordered strictly below what it was.
pub open spec fn remembered_lowered(
    remembered: Seq<LlamaToken>,
    before: Seq<LlamaTokenData>,
    after: Seq<LlamaTokenData>,
) -> bool
    recommends
        after.len() == before.len(),
{
    forall|i: int|
        0 <= i < before.len() && remembered.contains(before[i].id) && normal(before[i].rank()) ==> (
        #[trigger] after[i]).rank() < before[i].rank()
}

/// A score lies above negative infinity.
pub open spec fn above_floor(entry: LlamaTokenData) -> bool {
    entry.rank() > -INFINITY_CODE
}

/// An entry is chosen, and its score lies above negative infinity.
pub open spec fn chosen_above_floor(after: Seq<LlamaTokenData>, selected: Option<int>) -> bool {
    match selected {
        Some(i) => 0 <= i < after.len() && above_floor(after[i]),
        None => false,
    }
}

/// Where any score lies above negative infinity, an entry is chosen and its
/// score does: what has no chance is not drawn.
pub open spec fn choice_has_a_chance(after: Seq<LlamaTokenData>, selected: Option<int>) -> bool {
    forall|j: int|
        0 <= j < after.len() && above_floor(#[trigger] after[j]) ==> chosen_above_floor(after, selected)
}

/// The first place at which `token` stands in `data`.
pub open spec fn is_first_place(data: Seq<LlamaTokenData>, token: LlamaToken, place: int) -> bool {
    &&& 0 <= place < data.len()
    &&& data[place].id == token
    &&& forall|i: int| 0 <= i < place ==> (#[trigger] data[i]).id != token
}

/// The place of `token` in `data`: the first at which it stands, and none where
/// no entry stands for it.
pub open spec fn place_of(data: Seq<LlamaTokenData>, token: LlamaToken) -> Option<int> {
    if holds(data, token) {
        Some(choose|place: int| is_first_place(data, token, place))
    } else {
        None
    }
}

/// The entry that an index names, as the native convention has it: the entry at
/// `index` where there is one, none for any other number (-1 by custom).
pub open spec fn named(len: nat, index: int) -> Option<int> {
    if 0 <= index < len {
        Some(index)
    } else {
        None
    }
}

/// Each entry whose token is not among `remembered` stands unchanged at its
/// place.
pub open spec fn left_alone(
    remembered: Seq<LlamaToken>,
    before: Seq<LlamaTokenData>,
    after: Seq<LlamaTokenData>,
) -> bool
    recommends
        after.len() == before.len(),
{
    forall|i: int|
        0 <= i < before.len() && !remembered.contains(before[i].id) ==> (#[trigger] after[i]) == before[i]
}

/// Whether every entry of `after` stands for the token that the entry of
/// `before` at its place stands for.
pub(crate) fn stands_in_place(before: &Vec<LlamaTokenData>, after: &Vec<LlamaTokenData>) -> (yes: bool)
    ensures
        yes == in_place(before@, after@),
{
    if after.len() != before.len() {
        return false;
    }
    let mut i: usize = 0;
    while i < before.len()
        invariant
            after@.len() == before@.len(),
            i <= before@.len(),
            forall|j: int| 0 <= j < i ==> (#[trigger] after@[j]).id == before@[j].id,
        decreases before@.len() - i,
    {
        if after[i].id != before[i].id {
            return false;
        }
        i += 1;
    }
    true
}

/// The token numbered `x` stands at `place` in `data`.
spec fn stands_at(data: Seq<LlamaTokenData>, x: i32, place: usize) -> bool {
    place < data.len() && data[place as int].id.0 == x
}

/// `map` gives a place for each token of `data` and for no other, and the token
/// stands at the place given.
spec fn places_of(map: Map<i32, usize>, data: Seq<LlamaTokenData>) -> bool {
    &&& forall|x: i32| map.contains_key(x) <==> holds(data, LlamaToken(x))
    &&& forall|x: i32| #[trigger] map.contains_key(x) ==> stands_at(data, x, map[x])
}

/// The place of each token in `data`.
fn places(data: &Vec<LlamaTokenData>) -> (map: HashMap<i32, usize>)
    ensures
        places_of(map@, data@),
{
    broadcast use vstd::std_specs::hash::group_hash_axioms;

    let mut map: HashMap<i32, usize> = HashMap::new();
    let mut i: usize = 0;
    while i < data.len()
        invariant
            i <= data@.len(),
            places_of(map@, data@.subrange(0, i as int)),
        decreases data@.len() - i,
    {
        let id: i32 = data[i].id.0;
        let ghost upto = data@.subrange(0, i as int);
        let ghost next = data@.subrange(0, i + 1);
        let ghost before = map@;
        map.insert(id, i);
        proof {
            assert(next[i as int].id.0 == id);
            assert forall|x: i32| map@.contains_key(x) implies holds(next, LlamaToken(x)) by {
                if x != id {
                    assert(before.contains_key(x));
                    let j = choose|j: int| 0 <= j < upto.len() && (#[trigger] upto[j]).id == LlamaToken(x);
                    assert(next[j].id == LlamaToken(x));
                }
            }
            assert forall|x: i32| holds(next, LlamaToken(x)) implies map@.contains_key(x) by {
                let j = choose|j: int| 0 <= j < next.len() && (#[trigger] next[j]).id == LlamaToken(x);
                if j < i {
                    assert(upto[j].id == LlamaToken(x));
                }
            }
            assert forall|x: i32| #[trigger] map@.contains_key(x) implies stands_at(next, x, map@[x]) by {
                if x != id {
                    assert(before.contains_key(x));
                    assert(upto[before[x] as int].id.0 == x);
                }
            }
        }
        i += 1;
    }
    assert(data@.subrange(0, i as int) =~= data@);
    map
}

/// Whether every entry of `after` stands for a token of `before` and carries
/// the score that the token had there, or, where `may_floor`, negative
/// infinity.
pub(crate) fn carries_all(
    before: &Vec<LlamaTokenData>,
    after: &Vec<LlamaTokenData>,
    may_floor: bool,
) -> (yes: bool)
    requires
        distinct_ids(before@),
    ensures
        yes == all_carried(before@, after@, may_floor),
{
    broadcast use vstd::std_specs::hash::group_hash_axioms;

    let map = places(before);
    let floor = Scalar::neg_infinity();
    let mut i: usize = 0;
    while i < after.len()
        invariant
            i <= after@.len(),
            distinct_ids(before@),
            floor == Scalar::neg_infinity(),
            places_of(map@, before@),
            forall|a: int| 0 <= a < i ==> carried_from(before@, #[trigger] after@[a], may_floor),
        decreases after@.len() - i,
    {
        let entry = after[i];
        let id: i32 = entry.id.0;
        let found = match map.get(&id) {
            Some(place) => {
                let was = before[*place];
                assert(was.id == entry.id);
                let same = entry.logit == was.logit || (may_floor && entry.logit == floor);
                proof {
                    if same {
                        assert(carried(before@[*place as int], after@[i as int], may_floor));
                    } else {
                        assert forall|j: int| 0 <= j < before@.len() implies !carried(
                            #[trigger] before@[j],
                            after@[i as int],
                            may_floor,
                        ) by {
                            if before@[j].id == entry.id && j != *place {
                                assert(before@[j].id != before@[*place as int].id);
                            }
                        }
                    }
                }
                same
            },
            None => {
                proof {
                    assert forall|j: int| 0 <= j < before@.len() implies !carried(
                        #[trigger] before@[j],
                        after@[i as int],
                        may_floor,
                    ) by {
                        if before@[j].id == entry.id {
                            assert(holds(before@, LlamaToken(id)));
                        }
                    }
                }
                false
            },
        };
        if !found {
            return false;
        }
        i += 1;
    }
    true
}

/// Whether the entries of `before` whose tokens `after` lacks were the extreme
/// ones: the greatest where `greatest`, else the least.
pub(crate) fn only_extremes_went(
    before: &Vec<LlamaTokenData>,
    after: &Vec<LlamaTokenData>,
    greatest: bool,
) -> (yes: bool)
    ensures
        yes == extremes_went(before@, after@, greatest),
{
    broadcast use vstd::std_specs::hash::group_hash_axioms;

    if after.len() == 0 {
        return true;
    }
    let mut stayed: HashSet<i32> = HashSet::new();
    let mut low: i64 = after[0].logit.order_key();
    let mut high: i64 = low;
    let ghost mut lowest: int = 0;
    let ghost mut highest: int = 0;
    let mut k: usize = 0;
    while k < after.len()
        invariant
            0 < after@.len(),
            k <= after@.len(),
            forall|x: i32|
                stayed@.contains(x) <==> exists|j: int| 0 <= j < k && (#[trigger] after@[j]).id.0 == x,
            0 <= lowest < after@.len(),
            0 <= highest < after@.len(),
            low == after@[lowest].rank(),
            high == after@[highest].rank(),
            forall|j: int| 0 <= j < k ==> low <= (#[trigger] after@[j]).rank() <= high,
        decreases after@.len() - k,
    {
        let id: i32 = after[k].id.0;
        let rank = after[k].logit.order_key();
        stayed.insert(id);
        if rank < low {
            low = rank;
            proof {
                lowest = k as int;
            }
        }
        if rank > high {
            high = rank;
            proof {
                highest = k as int;
            }
        }
        k += 1;
    }
    assert forall|t: LlamaToken| stayed@.contains(t.0) == holds(after@, t) by {
        if stayed@.contains(t.0) {
            let j = choose|j: int| 0 <= j < after@.len() && (#[trigger] after@[j]).id.0 == t.0;
            assert(after@[j].id == t);
        }
        if holds(after@, t) {
            let j = choose|j: int| 0 <= j < after@.len() && (#[trigger] after@[j]).id == t;
            assert(after@[j].id.0 == t.0);
        }
    }
    let mut i: usize = 0;
    while i < before.len()
        invariant
            i <= before@.len(),
            0 <= lowest < after@.len(),
            0 <= highest < after@.len(),
            low == after@[lowest].rank(),
            high == after@[highest].rank(),
            forall|j: int| 0 <= j < after@.len() ==> low <= (#[trigger] after@[j]).rank() <= high,
            forall|t: LlamaToken| stayed@.contains(t.0) == holds(after@, t),
            forall|a: int, j: int|
                0 <= a < i && 0 <= j < after@.len() && !holds(after@, (#[trigger] before@[a]).id)
                    ==> beyond(before@[a], #[trigger] after@[j], greatest),
        decreases before@.len() - i,
    {
        let id: i32 = before[i].id.0;
        if !stayed.contains(&id) {
            let rank = before[i].logit.order_key();
            let out_of_place = if greatest {
                rank < high
            } else {
                rank > low
            };
            if out_of_place {
                proof {
                    let j = if greatest {
                        highest
                    } else {
                        lowest
                    };
                    assert(!holds(after@, before@[i as int].id));
                    assert(!beyond(before@[i as int], after@[j], greatest));
                }
                return false;
            }
        }
        i += 1;
    }
    true
}

/// Whether each token of `before` has an entry in `after`.
pub(crate) fn keeps_all(before: &Vec<LlamaTokenData>, after: &Vec<LlamaTokenData>) -> (yes: bool)
    ensures
        yes == all_stay(before@, after@),
{
    broadcast use vstd::std_specs::hash::group_hash_axioms;

    let mut stayed: HashSet<i32> = HashSet::new();
    let mut k: usize = 0;
    while k < after.len()
        invariant
            k <= after@.len(),
            forall|x: i32|
                stayed@.contains(x) <==> exists|j: int| 0 <= j < k && (#[trigger] after@[j]).id.0 == x,
        decreases after@.len() - k,
    {
        let id: i32 = after[k].id.0;
        stayed.insert(id);
        k += 1;
    }
    assert forall|t: LlamaToken| stayed@.contains(t.0) == holds(after@, t) by {
        if stayed@.contains(t.0) {
            let j = choose|j: int| 0 <= j < after@.len() && (#[trigger] after@[j]).id.0 == t.0;
            assert(after@[j].id == t);
        }
        if holds(after@, t) {
            let j = choose|j: int| 0 <= j < after@.len() && (#[trigger] after@[j]).id == t;
            assert(after@[j].id.0 == t.0);
        }
    }
    let mut i: usize = 0;
    while i < before.len()
        invariant
            i <= before@.len(),
            forall|t: LlamaToken| stayed@.contains(t.0) == holds(after@, t),
            forall|a: int| 0 <= a < i ==> holds(after@, (#[trigger] before@[a]).id),
        decreases before@.len() - i,
    {
        let id: i32 = before[i].id.0;
        if !stayed.contains(&id) {
            assert(!holds(after@, before@[i as int].id));
            return false;
        }
        i += 1;
    }
    true
}

/// Whether the two runs of entries are the same.
pub(crate) fn same_entries(before: &Vec<LlamaTokenData>, after: &Vec<LlamaTokenData>) -> (yes: bool)
    ensures
        yes == (after@ == before@),
{
    if after.len() != before.len() {
        return false;
    }
    let mut i: usize = 0;
    while i < before.len()
        invariant
            after@.len() == before@.len(),
            i <= before@.len(),
            forall|j: int| 0 <= j < i ==> after@[j] == before@[j],
        decreases before@.len() - i,
    {
        if after[i] != before[i] {
            return false;
        }
        i += 1;
    }
    assert(after@ =~= before@);
    true
}

/// Whether each remembered token with a normal score other than zero is ordered
/// strictly below what it was.
pub(crate) fn lowers_remembered(
    remembered: &Vec<LlamaToken>,
    before: &Vec<LlamaTokenData>,
    after: &Vec<LlamaTokenData>,
) -> (yes: bool)
    requires
        after@.len() == before@.len(),
    ensures
        yes == remembered_lowered(remembered@, before@, after@),
{
    broadcast use vstd::std_specs::hash::group_hash_axioms;

    let known = tokens_of(remembered);
    let mut i: usize = 0;
    while i < before.len()
        invariant
            after@.len() == before@.len(),
            i <= before@.len(),
            forall|t: LlamaToken| known@.contains(t.0) == remembered@.contains(t),
            forall|j: int|
                0 <= j < i && remembered@.contains(before@[j].id) && normal(before@[j].rank()) ==> (
                #[trigger] after@[j]).rank() < before@[j].rank(),
        decreases before@.len() - i,
    {
        let id: i32 = before[i].id.0;
        let was = before[i].logit.order_key();
        let is_normal = (MIN_NORMAL_CODE <= was && was < INFINITY_CODE) || (-INFINITY_CODE < was && was
            <= -MIN_NORMAL_CODE);
        if known.contains(&id) && is_normal && after[i].logit.order_key() >= was {
            assert(remembered@.contains(before@[i as int].id));
            return false;
        }
        i += 1;
    }
    true
}

/// Whether an entry is chosen whose score lies above negative infinity, where
/// any score does.
pub(crate) fn chooses_with_a_chance(after: &Vec<LlamaTokenData>, selected: Option<usize>) -> (yes: bool)
    ensures
        yes == choice_has_a_chance(after@, crate::token::data_array::spec_position(selected)),
{
    if let Some(index) = selected {
        if index < after.len() && after[index].logit.order_key() > -INFINITY_CODE {
            return true;
        }
    }
    let mut j: usize = 0;
    while j < after.len()
        invariant
            j <= after@.len(),
            forall|a: int| 0 <= a < j ==> !above_floor(#[trigger] after@[a]),
            !chosen_above_floor(after@, crate::token::data_array::spec_position(selected)),
        decreases after@.len() - j,
    {
        if after[j].logit.order_key() > -INFINITY_CODE {
            assert(above_floor(after@[j as int]));
            return false;
        }
        j += 1;
    }
    true
}

/// The first place at which `token` stands in `data`, if it stands there.
pub(crate) fn find_place(data: &Vec<LlamaTokenData>, token: LlamaToken) -> (place: Option<usize>)
    ensures
        crate::token::data_array::spec_position(place) == place_of(data@, token),
{
    let mut i: usize = 0;
    while i < data.len()
        invariant
            i <= data@.len(),
            forall|j: int| 0 <= j < i ==> (#[trigger] data@[j]).id != token,
        decreases data@.len() - i,
    {
        if data[i].id == token {
            proof {
                assert(is_first_place(data@, token, i as int));
                assert(holds(data@, token));
                let chosen = choose|place: int| is_first_place(data@, token, place);
                assert(chosen == i) by {
                    if chosen < i {
                        assert(data@[chosen].id != token);
                    } else if i < chosen {
                        assert(data@[i as int].id != token);
                    }
                }
            }
            return Some(i);
        }
        i += 1;
    }
    None
}

/// The numbers of the tokens in `tokens`, as a set.
fn tokens_of(tokens: &Vec<LlamaToken>) -> (known: HashSet<i32>)
    ensures
        forall|t: LlamaToken| known@.contains(t.0) == tokens@.contains(t),
{
    broadcast use vstd::std_specs::hash::group_hash_axioms;

    let mut known: HashSet<i32> = HashSet::new();
    let mut h: usize = 0;
    while h < tokens.len()
        invariant
            h <= tokens@.len(),
            forall|x: i32|
                known@.contains(x) <==> exists|j: int| 0 <= j < h && (#[trigger] tokens@[j]).0 == x,
        decreases tokens@.len() - h,
    {
        let id: i32 = tokens[h].0;
        known.insert(id);
        h += 1;
    }
    assert forall|t: LlamaToken| known@.contains(t.0) == tokens@.contains(t) by {
        if known@.contains(t.0) {
            let j = choose|j: int| 0 <= j < tokens@.len() && (#[trigger] tokens@[j]).0 == t.0;
            assert(tokens@[j] == t);
        }
        if tokens@.contains(t) {
            let j = choose|j: int| 0 <= j < tokens@.len() && tokens@[j] == t;
            assert(tokens@[j].0 == t.0);
        }
    }
    known
}

/// Whether every score of `after` is what dividing by `t` makes of the score
/// of `before` at its place.
pub(crate) fn divides_all(
    t: &Scalar,
    before: &Vec<LlamaTokenData>,
    after: &Vec<LlamaTokenData>,
) -> (yes: bool)
    ensures
        yes == all_divided(*t, before@, after@),
{
    if after.len() != before.len() {
        return false;
    }
    let key = t.order_key();
    let mut i: usize = 0;
    while i < before.len()
        invariant
            after@.len() == before@.len(),
            i <= before@.len(),
            key == t.code(),
            forall|j: int| 0 <= j < i ==> divided(*t, before@[j].rank(), (#[trigger] after@[j]).rank()),
        decreases before@.len() - i,
    {
        let b = before[i].logit.order_key();
        let a = after[i].logit.order_key();
        let side = (b < 0 || a >= 0) && (b > 0 || a <= 0);
        let nearer = key < ONE_CODE || (-b <= a && a <= b) || (b <= a && a <= -b);
        let farther = key > ONE_CODE || (-a <= b && b <= a) || (a <= b && b <= -a);
        if !(side && nearer && farther) {
            assert(!divided(*t, before@[i as int].rank(), after@[i as int].rank()));
            return false;
        }
        i += 1;
    }
    true
}

/// Whether no entry of `after` is ordered above the entry of `before` at its
/// place.
pub(crate) fn raises_none(before: &Vec<LlamaTokenData>, after: &Vec<LlamaTokenData>) -> (yes: bool)
    ensures
        yes == none_raised(before@, after@),
{
    if after.len() != before.len() {
        return false;
    }
    let mut i: usize = 0;
    while i < before.len()
        invariant
            after@.len() == before@.len(),
            i <= before@.len(),
            forall|j: int| 0 <= j < i ==> (#[trigger] after@[j]).rank() <= before@[j].rank(),
        decreases before@.len() - i,
    {
        if before[i].logit.lt(&after[i].logit) {
            return false;
        }
        i += 1;
    }
    true
}

/// Whether each entry of `before` whose token is not among `remembered` stands
/// unchanged at its place in `after`.
pub(crate) fn leaves_alone(
    remembered: &Vec<LlamaToken>,
    before: &Vec<LlamaTokenData>,
    after: &Vec<LlamaTokenData>,
) -> (yes: bool)
    requires
        after@.len() == before@.len(),
    ensures
        yes == left_alone(remembered@, before@, after@),
{
    broadcast use vstd::std_specs::hash::group_hash_axioms;

    let known = tokens_of(remembered);
    let mut i: usize = 0;
    while i < before.len()
        invariant
            after@.len() == before@.len(),
            i <= before@.len(),
            forall|t: LlamaToken| known@.contains(t.0) == remembered@.contains(t),
            forall|j: int|
                0 <= j < i && !remembered@.contains(before@[j].id) ==> (#[trigger] after@[j]) == before@[j],
        decreases before@.len() - i,
    {
        let id: i32 = before[i].id.0;
        if !known.contains(&id) && after[i] != before[i] {
            assert(!remembered@.contains(before@[i as int].id));
            return false;
        }
        i += 1;
    }
    true
}

} // verus!
