//! The order of candidates by score: the first maximum, and the leading
//! entries of the descending order.

use crate::token::data::LlamaTokenData;
use crate::token::LlamaToken;
use vstd::prelude::*;

verus! {

/// No two entries carry the same token.
pub open spec fn distinct_ids(s: Seq<LlamaTokenData>) -> bool {
    forall|i: int, j: int| 0 <= i < j < s.len() ==> s[i].id != s[j].id
}

/// Whether an entry of `s` stands for `token`.
pub open spec fn holds(s: Seq<LlamaTokenData>, token: LlamaToken) -> bool {
    exists|j: int| 0 <= j < s.len() && (#[trigger] s[j]).id == token
}

/// Every entry is proper: its token number is not below zero, and its
/// probability lies between zero and one.
pub open spec fn proper_entries(s: Seq<LlamaTokenData>) -> bool {
    forall|i: int| 0 <= i < s.len() ==> (#[trigger] s[i]).proper()
}

/// Every token number lies below `vocab`, the size of the vocabulary.
pub open spec fn in_vocabulary(s: Seq<LlamaTokenData>, vocab: nat) -> bool {
    forall|i: int| 0 <= i < s.len() ==> (#[trigger] s[i]).id.0 < vocab
}

/// No entry is ordered above an earlier one.
pub open spec fn descending(s: Seq<LlamaTokenData>) -> bool {
    forall|i: int, j: int| 0 <= i < j < s.len() ==> s[i].rank() >= s[j].rank()
}

/// Position `m` holds a score that none exceeds and that no earlier entry reaches.
pub open spec fn is_first_max(s: Seq<LlamaTokenData>, m: int) -> bool {
    &&& 0 <= m < s.len()
    &&& forall|j: int| 0 <= j < s.len() ==> (#[trigger] s[j]).rank() <= s[m].rank()
    &&& forall|j: int| 0 <= j < m ==> (#[trigger] s[j]).rank() < s[m].rank()
}

/// The first position of the greatest score.
pub open spec fn first_max(s: Seq<LlamaTokenData>) -> int {
    choose|m: int| is_first_max(s, m)
}

/// The `k` entries of greatest score, greatest first, entries of equal score in
/// the order they had; all of them where there are fewer than `k`.
pub open spec fn sort_prefix(s: Seq<LlamaTokenData>, k: nat) -> Seq<LlamaTokenData>
    decreases k,
{
    if k == 0 || s.len() == 0 {
        Seq::empty()
    } else {
        let m = first_max(s);
        seq![s[m]] + sort_prefix(s.remove(m), (k - 1) as nat)
    }
}

/// `r` holds the best of `s`: it is in descending order, each of its entries is
/// an entry of `s`, and an entry of `s` that it lacks is ordered at or below
/// each of its own.
pub open spec fn leads(r: Seq<LlamaTokenData>, s: Seq<LlamaTokenData>) -> bool {
    &&& descending(r)
    &&& forall|i: int| 0 <= i < r.len() ==> s.contains(#[trigger] r[i])
    &&& forall|j: int, i: int|
        0 <= j < s.len() && 0 <= i < r.len() ==> r.contains(#[trigger] s[j]) || s[j].rank() <= (
        #[trigger] r[i]).rank()
}

/// Two positions that both are the first maximum are one position.
pub proof fn lemma_first_max_unique(s: Seq<LlamaTokenData>, a: int, b: int)
    requires
        is_first_max(s, a),
        is_first_max(s, b),
    ensures
        a == b,
{
    if a < b {
        assert(s[a].rank() < s[b].rank());
        assert(s[b].rank() <= s[a].rank());
    } else if b < a {
        assert(s[b].rank() < s[a].rank());
        assert(s[a].rank() <= s[b].rank());
    }
}

/// Every set with an entry has a first maximum.
pub proof fn lemma_first_max_exists(s: Seq<LlamaTokenData>)
    requires
        s.len() > 0,
    ensures
        is_first_max(s, first_max(s)),
    decreases s.len(),
{
    let t = s.drop_last();
    let last = s.len() - 1;
    if t.len() == 0 {
        assert(is_first_max(s, 0));
    } else {
        lemma_first_max_exists(t);
        let m = first_max(t);
        assert(forall|j: int| 0 <= j < t.len() ==> t[j] == s[j]);
        if s[last].rank() > s[m].rank() {
            assert forall|j: int| 0 <= j < last implies (#[trigger] s[j]).rank() < s[last].rank() by {
                assert(t[j].rank() <= t[m].rank());
            }
            assert(is_first_max(s, last));
        } else {
            assert forall|j: int| 0 <= j < s.len() implies (#[trigger] s[j]).rank() <= s[m].rank() by {
                if j < last {
                    assert(t[j].rank() <= t[m].rank());
                }
            }
            assert forall|j: int| 0 <= j < m implies (#[trigger] s[j]).rank() < s[m].rank() by {
                assert(t[j].rank() < t[m].rank());
            }
            assert(is_first_max(s, m));
        }
    }
}

/// In a descending run the first maximum is the first entry.
pub proof fn lemma_first_max_of_descending(s: Seq<LlamaTokenData>)
    requires
        s.len() > 0,
        descending(s),
    ensures
        first_max(s) == 0,
{
    assert(is_first_max(s, 0));
    lemma_first_max_exists(s);
    lemma_first_max_unique(s, 0, first_max(s));
}

/// The leading entries are `k` in number, or all there are.
pub proof fn lemma_sort_prefix_len(s: Seq<LlamaTokenData>, k: nat)
    ensures
        sort_prefix(s, k).len() == if k <= s.len() { k } else { s.len() },
    decreases k,
{
    if k != 0 && s.len() != 0 {
        lemma_first_max_exists(s);
        lemma_sort_prefix_len(s.remove(first_max(s)), (k - 1) as nat);
    }
}

/// Each leading entry is an entry of the set it was taken from.
pub proof fn lemma_sort_prefix_members(s: Seq<LlamaTokenData>, k: nat)
    ensures
        forall|i: int| 0 <= i < sort_prefix(s, k).len() ==> s.contains(#[trigger] sort_prefix(s, k)[i]),
    decreases k,
{
    if k != 0 && s.len() != 0 {
        lemma_first_max_exists(s);
        let m = first_max(s);
        let rest = s.remove(m);
        let tail = sort_prefix(rest, (k - 1) as nat);
        lemma_sort_prefix_members(rest, (k - 1) as nat);
        assert forall|i: int| 0 <= i < sort_prefix(s, k).len() implies s.contains(
            #[trigger] sort_prefix(s, k)[i],
        ) by {
            if i == 0 {
                assert(s[m] == sort_prefix(s, k)[0]);
            } else {
                assert(sort_prefix(s, k)[i] == tail[i - 1]);
                assert(rest.contains(tail[i - 1]));
                let j = choose|j: int| 0 <= j < rest.len() && rest[j] == tail[i - 1];
                if j < m {
                    assert(s[j] == rest[j]);
                } else {
                    assert(s[j + 1] == rest[j]);
                }
            }
        }
    }
}

/// The leading entries are in descending order.
pub proof fn lemma_sort_prefix_descending(s: Seq<LlamaTokenData>, k: nat)
    ensures
        descending(sort_prefix(s, k)),
    decreases k,
{
    if k != 0 && s.len() != 0 {
        lemma_first_max_exists(s);
        let m = first_max(s);
        let rest = s.remove(m);
        let tail = sort_prefix(rest, (k - 1) as nat);
        let r = sort_prefix(s, k);
        lemma_sort_prefix_descending(rest, (k - 1) as nat);
        lemma_sort_prefix_members(rest, (k - 1) as nat);
        assert forall|i: int, j: int| 0 <= i < j < r.len() implies r[i].rank() >= r[j].rank() by {
            assert(r[j] == tail[j - 1]);
            if i == 0 {
                assert(rest.contains(tail[j - 1]));
                let a = choose|a: int| 0 <= a < rest.len() && rest[a] == tail[j - 1];
                if a < m {
                    assert(s[a] == rest[a]);
                } else {
                    assert(s[a + 1] == rest[a]);
                }
            } else {
                assert(r[i] == tail[i - 1]);
            }
        }
    }
}

/// Where the tokens of a set are distinct, so are those of its leading entries.
pub proof fn lemma_sort_prefix_distinct(s: Seq<LlamaTokenData>, k: nat)
    requires
        distinct_ids(s),
    ensures
        distinct_ids(sort_prefix(s, k)),
    decreases k,
{
    if k != 0 && s.len() != 0 {
        lemma_first_max_exists(s);
        let m = first_max(s);
        let rest = s.remove(m);
        let tail = sort_prefix(rest, (k - 1) as nat);
        let r = sort_prefix(s, k);
        lemma_remove_keeps_distinct(s, m);
        lemma_sort_prefix_distinct(rest, (k - 1) as nat);
        lemma_sort_prefix_members(rest, (k - 1) as nat);
        assert forall|i: int, j: int| 0 <= i < j < r.len() implies r[i].id != r[j].id by {
            assert(r[j] == tail[j - 1]);
            if i == 0 {
                assert(rest.contains(tail[j - 1]));
                let a = choose|a: int| 0 <= a < rest.len() && rest[a] == tail[j - 1];
                if a < m {
                    assert(s[a] == rest[a]);
                } else {
                    assert(s[a + 1] == rest[a]);
                }
            } else {
                assert(r[i] == tail[i - 1]);
            }
        }
    }
}

/// Where the entries of a set are proper, so are its leading entries.
pub proof fn lemma_sort_prefix_proper(s: Seq<LlamaTokenData>, k: nat)
    requires
        proper_entries(s),
    ensures
        proper_entries(sort_prefix(s, k)),
{
    lemma_sort_prefix_members(s, k);
    let r = sort_prefix(s, k);
    assert forall|i: int| 0 <= i < r.len() implies (#[trigger] r[i]).proper() by {
        assert(s.contains(r[i]));
        let j = choose|j: int| 0 <= j < s.len() && s[j] == r[i];
        assert(s[j].proper());
    }
}

/// Where the tokens of a set lie in a vocabulary, so do those of its leading
/// entries.
pub proof fn lemma_sort_prefix_in_vocabulary(s: Seq<LlamaTokenData>, k: nat, vocab: nat)
    requires
        in_vocabulary(s, vocab),
    ensures
        in_vocabulary(sort_prefix(s, k), vocab),
{
    lemma_sort_prefix_members(s, k);
    let r = sort_prefix(s, k);
    assert forall|i: int| 0 <= i < r.len() implies (#[trigger] r[i]).id.0 < vocab by {
        assert(s.contains(r[i]));
        let j = choose|j: int| 0 <= j < s.len() && s[j] == r[i];
        assert(s[j].id.0 < vocab);
    }
}

/// Taking one entry out of a set with distinct tokens leaves the tokens distinct.
pub proof fn lemma_remove_keeps_distinct(s: Seq<LlamaTokenData>, m: int)
    requires
        distinct_ids(s),
        0 <= m < s.len(),
    ensures
        distinct_ids(s.remove(m)),
{
    let rest = s.remove(m);
    assert forall|i: int, j: int| 0 <= i < j < rest.len() implies rest[i].id != rest[j].id by {
        let a = if i < m { i } else { i + 1 };
        let b = if j < m { j } else { j + 1 };
        assert(rest[i] == s[a]);
        assert(rest[j] == s[b]);
    }
}

/// An entry that is not among the leading ones is ordered at or below each of
/// them.
pub proof fn lemma_sort_prefix_dominates(s: Seq<LlamaTokenData>, k: nat)
    ensures
        forall|j: int, i: int|
            0 <= j < s.len() && 0 <= i < sort_prefix(s, k).len() ==> sort_prefix(s, k).contains(
                #[trigger] s[j],
            ) || s[j].rank() <= (#[trigger] sort_prefix(s, k)[i]).rank(),
    decreases k,
{
    if k != 0 && s.len() != 0 {
        lemma_first_max_exists(s);
        let m = first_max(s);
        let rest = s.remove(m);
        let tail = sort_prefix(rest, (k - 1) as nat);
        let r = sort_prefix(s, k);
        lemma_sort_prefix_dominates(rest, (k - 1) as nat);
        assert forall|j: int, i: int| 0 <= j < s.len() && 0 <= i < r.len() implies r.contains(
            #[trigger] s[j],
        ) || s[j].rank() <= (#[trigger] r[i]).rank() by {
            if j == m {
                assert(r[0] == s[m]);
            } else if i == 0 {
                assert(r[0] == s[m]);
            } else {
                let a = if j < m { j } else { j - 1 };
                assert(rest[a] == s[j]);
                assert(r[i] == tail[i - 1]);
                if tail.contains(rest[a]) {
                    let b = choose|b: int| 0 <= b < tail.len() && tail[b] == rest[a];
                    assert(r[b + 1] == s[j]);
                }
            }
        }
    }
}

/// The leading entries of a descending run are its first entries.
pub proof fn lemma_sort_prefix_of_descending(s: Seq<LlamaTokenData>, k: nat)
    requires
        descending(s),
    ensures
        sort_prefix(s, k) == s.subrange(0, if k <= s.len() { k as int } else { s.len() as int }),
    decreases k,
{
    if k != 0 && s.len() != 0 {
        lemma_first_max_of_descending(s);
        let rest = s.remove(0);
        assert forall|i: int, j: int| 0 <= i < j < rest.len() implies rest[i].rank() >= rest[j].rank() by {
            assert(rest[i] == s[i + 1]);
            assert(rest[j] == s[j + 1]);
        }
        lemma_sort_prefix_of_descending(rest, (k - 1) as nat);
        let n = if k <= s.len() { k as int } else { s.len() as int };
        assert(sort_prefix(s, k) =~= s.subrange(0, n));
    } else {
        assert(sort_prefix(s, k) =~= s.subrange(0, 0));
    }
}

} // verus!
