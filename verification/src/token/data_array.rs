//! The candidates of one generation step.

use crate::rank::{
    descending, distinct_ids, first_max, holds, in_vocabulary, is_first_max, leads,
    lemma_first_max_of_descending, lemma_first_max_unique, lemma_sort_prefix_descending,
    lemma_sort_prefix_distinct, lemma_sort_prefix_dominates, lemma_sort_prefix_in_vocabulary,
    lemma_sort_prefix_len, lemma_sort_prefix_members, lemma_sort_prefix_of_descending,
    lemma_sort_prefix_proper, proper_entries, sort_prefix,
};
use crate::sampling::LlamaSampler;
use crate::scalar::{lemma_code_bounds, Scalar};
use crate::token::data::LlamaTokenData;
use crate::token::LlamaToken;
use std::collections::HashSet;
use vstd::prelude::*;

verus! {

/// The size of a vocabulary that holds every token number.
pub const EVERY_TOKEN: usize = 0x8000_0000;

/// A candidate set as a mathematical value.
pub struct Candidates {
    /// The entries, in their current order.
    pub data: Seq<LlamaTokenData>,
    /// The position of the chosen entry, once a selecting stage has run.
    pub selected: Option<int>,
    /// Whether the entries are known to be in descending order of score.
    pub sorted: bool,
    /// The size of the vocabulary that the tokens are taken from.
    pub vocab: nat,
}

impl Candidates {
    /// Tokens are distinct and lie in the vocabulary, every entry is proper, a
    /// selection points at an entry, and the order flag tells the truth.
    pub open spec fn wf(self) -> bool {
        &&& distinct_ids(self.data)
        &&& proper_entries(self.data)
        &&& in_vocabulary(self.data, self.vocab)
        &&& self.selected matches Some(i) ==> 0 <= i < self.data.len()
        &&& self.sorted ==> descending(self.data)
    }

    /// Whether `next` can come after this set: it is well formed, over the same
    /// vocabulary, and it holds no token that this set lacks.
    pub open spec fn admits(self, next: Candidates) -> bool {
        &&& next.wf()
        &&& next.vocab == self.vocab
        &&& forall|i: int| 0 <= i < next.data.len() ==> holds(self.data, (#[trigger] next.data[i]).id)
    }

    /// The chosen token.
    pub open spec fn selected_token(self) -> Option<LlamaToken> {
        match self.selected {
            Some(i) => Some(self.data[i].id),
            None => None,
        }
    }

    /// The entry with its score put down to negative infinity.
    pub open spec fn floored(entry: LlamaTokenData) -> LlamaTokenData {
        LlamaTokenData { logit: Scalar::neg_infinity(), ..entry }
    }

    /// The set after the hard maximum: the first entry of greatest score keeps
    /// its score, every other score becomes negative infinity.
    pub open spec fn keep_max(self) -> Candidates {
        Candidates {
            data: Seq::new(
                self.data.len(),
                |i: int|
                    if i == first_max(self.data) {
                        self.data[i]
                    } else {
                        Self::floored(self.data[i])
                    },
            ),
            ..self
        }
    }

    /// How many entries a cut to `k` leaves of `n`: `k`, but none below zero and
    /// no more than there are.
    pub open spec fn kept(n: nat, k: int) -> nat {
        if k <= 0 {
            0
        } else if k <= n {
            k as nat
        } else {
            n
        }
    }

    /// The set after the cut to the `k` best: the `k` entries of greatest score,
    /// in descending order, with no entry chosen. With `k` below zero there is
    /// no cut, and the set is as it was.
    pub open spec fn top_k(self, k: int) -> Candidates {
        if k < 0 {
            self
        } else {
            Candidates {
                data: sort_prefix(self.data, Self::kept(self.data.len(), k)),
                selected: None,
                sorted: true,
                ..self
            }
        }
    }

    /// A set of the given entries over the vocabulary of every token number,
    /// with no entry chosen.
    pub open spec fn of(data: Seq<LlamaTokenData>, sorted: bool) -> Candidates {
        Candidates { data, selected: None, sorted, vocab: EVERY_TOKEN as nat }
    }

    /// This set with what a stage made of it put in its place.
    pub open spec fn with(
        self,
        data: Seq<LlamaTokenData>,
        sorted: bool,
        selected: Option<int>,
    ) -> Candidates {
        Candidates { data, selected, sorted, ..self }
    }

    /// A fresh set over a score vector: entry `i` stands for token `i`, with
    /// probability zero, and the vocabulary is as large as the vector.
    pub open spec fn from_scores(scores: Seq<Scalar>, sorted: bool) -> Candidates {
        Candidates {
            data: Seq::new(
                scores.len(),
                |i: int|
                    LlamaTokenData {
                        id: LlamaToken(i as i32),
                        logit: scores[i],
                        p: Scalar { bits: 0 },
                    },
            ),
            selected: None,
            sorted,
            vocab: scores.len(),
        }
    }

    /// The set after the greedy selection: the first entry of greatest score is
    /// chosen, or none where there is no entry.
    pub open spec fn greedy(self) -> Candidates {
        Candidates {
            selected: if self.data.len() == 0 {
                None
            } else {
                Some(first_max(self.data))
            },
            ..self
        }
    }
}

/// The candidates of one generation step: an ordered run of entries with
/// distinct tokens, a flag that tells whether they are in descending order of
/// score, and the position of the chosen entry once a selecting stage has run.
#[derive(Debug)]
pub struct LlamaTokenDataArray {
    data: Vec<LlamaTokenData>,
    selected: Option<usize>,
    sorted: bool,
    n_vocab: usize,
}

/// A position as a mathematical value.
pub open spec fn spec_position(index: Option<usize>) -> Option<int> {
    match index {
        Some(i) => Some(i as int),
        None => None,
    }
}

impl View for LlamaTokenDataArray {
    type V = Candidates;

    closed spec fn view(&self) -> Candidates {
        Candidates {
            data: self.data@,
            selected: spec_position(self.selected),
            sorted: self.sorted,
            vocab: self.n_vocab as nat,
        }
    }
}

/// Whether no two entries carry the same token.
pub fn ids_are_distinct(data: &Vec<LlamaTokenData>) -> (distinct: bool)
    ensures
        distinct == distinct_ids(data@),
{
    broadcast use vstd::std_specs::hash::group_hash_axioms;

    let mut seen: HashSet<i32> = HashSet::new();
    let mut i: usize = 0;
    while i < data.len()
        invariant
            i <= data.len(),
            distinct_ids(data@.subrange(0, i as int)),
            forall|x: i32| seen@.contains(x) <==> exists|j: int| 0 <= j < i && data@[j].id.0 == x,
        decreases data.len() - i,
    {
        let id: i32 = data[i].id.0;
        let fresh = seen.insert(id);
        if !fresh {
            proof {
                let j = choose|j: int| 0 <= j < i && data@[j].id.0 == id;
                assert(data@[j].id == data@[i as int].id);
            }
            return false;
        }
        proof {
            let before = data@.subrange(0, i as int);
            let after = data@.subrange(0, i + 1);
            assert forall|a: int, b: int| 0 <= a < b < after.len() implies after[a].id != after[b].id by {
                if b < i {
                    assert(before[a].id != before[b].id);
                } else {
                    assert(data@[a].id.0 != id);
                }
            }
        }
        i += 1;
    }
    assert(data@.subrange(0, i as int) =~= data@);
    true
}

/// Whether every entry is proper: no token number below zero, every
/// probability between zero and one.
pub fn entries_are_proper(data: &Vec<LlamaTokenData>) -> (proper: bool)
    ensures
        proper == proper_entries(data@),
{
    let mut i: usize = 0;
    while i < data.len()
        invariant
            i <= data@.len(),
            forall|j: int| 0 <= j < i ==> (#[trigger] data@[j]).proper(),
        decreases data@.len() - i,
    {
        if !data[i].is_proper() {
            return false;
        }
        i += 1;
    }
    true
}

/// Whether no entry is ordered above an earlier one.
pub fn is_descending(data: &Vec<LlamaTokenData>) -> (sorted: bool)
    ensures
        sorted == descending(data@),
{
    let n = data.len();
    if n == 0 {
        return true;
    }
    let mut i: usize = 1;
    while i < n
        invariant
            n == data.len(),
            1 <= i <= n,
            forall|a: int, b: int| 0 <= a < b < i ==> data@[a].rank() >= data@[b].rank(),
        decreases n - i,
    {
        if data[i - 1].logit.lt(&data[i].logit) {
            return false;
        }
        i += 1;
    }
    true
}

impl LlamaTokenDataArray {
    /// Holds of every value of the type.
    #[verifier::type_invariant]
    pub open spec fn well_formed(self) -> bool {
        self@.wf()
    }

    /// A set of the given entries, over the vocabulary of every token number,
    /// with no entry chosen. `sorted` states that the
    /// entries are in descending order of score. The set is refused where two
    /// entries carry one token, where a token number lies below zero or a
    /// probability outside zero and one, or where `sorted` is stated and is not
    /// so.
    pub fn new(data: Vec<LlamaTokenData>, sorted: bool) -> (array: Option<Self>)
        ensures
            array is Some <==> Candidates::of(data@, sorted).wf(),
            array matches Some(a) ==> a@ == Candidates::of(data@, sorted),
    {
        if !ids_are_distinct(&data) || !entries_are_proper(&data) {
            return None;
        }
        if sorted && !is_descending(&data) {
            return None;
        }
        Some(LlamaTokenDataArray { data, selected: None, sorted, n_vocab: EVERY_TOKEN })
    }

    /// A fresh set over the score vector of one generation step: entry `i` stands
    /// for token `i`. `sorted` is the caller's word that the scores are in
    /// descending order; it is taken and not examined.
    pub fn from_scores(scores: &[Scalar], sorted: bool) -> (array: Self)
        requires
            scores@.len() <= i32::MAX,
            sorted ==> forall|i: int, j: int|
                0 <= i < j < scores@.len() ==> scores@[i].code() >= scores@[j].code(),
        ensures
            array@ == Candidates::from_scores(scores@, sorted),
    {
        let n = scores.len();
        let mut data: Vec<LlamaTokenData> = Vec::new();
        let mut i: usize = 0;
        while i < n
            invariant
                n == scores@.len(),
                n <= i32::MAX,
                i <= n,
                data@ == Candidates::from_scores(scores@, sorted).data.subrange(0, i as int),
            decreases n - i,
        {
            let entry = LlamaTokenData {
                id: LlamaToken(i as i32),
                logit: scores[i],
                p: Scalar { bits: 0 },
            };
            data.push(entry);
            assert(data@ =~= Candidates::from_scores(scores@, sorted).data.subrange(0, i + 1));
            i += 1;
        }
        assert(data@ =~= Candidates::from_scores(scores@, sorted).data);
        LlamaTokenDataArray { data, selected: None, sorted, n_vocab: n }
    }

    /// The entries, in their current order.
    pub fn data(&self) -> (data: &Vec<LlamaTokenData>)
        ensures
            data@ == self@.data,
    {
        &self.data
    }

    /// The size of the vocabulary that the tokens are taken from.
    pub fn n_vocab(&self) -> (n: usize)
        ensures
            n == self@.vocab,
    {
        self.n_vocab
    }

    /// The number of entries.
    pub fn len(&self) -> (n: usize)
        ensures
            n == self@.data.len(),
    {
        self.data.len()
    }

    /// Whether the entries are known to be in descending order of score.
    pub fn is_sorted(&self) -> (sorted: bool)
        ensures
            sorted == self@.sorted,
    {
        self.sorted
    }

    /// The position of the chosen entry: absent until a selecting stage has run.
    pub fn selected(&self) -> (index: Option<usize>)
        ensures
            spec_position(index) == self@.selected,
    {
        self.selected
    }

    /// The token of the chosen entry: absent until a selecting stage has run.
    /// It is a token of the set, and so of the vocabulary.
    pub fn selected_token(&self) -> (token: Option<LlamaToken>)
        ensures
            token == self@.selected_token(),
            token matches Some(t) ==> holds(self@.data, t) && 0 <= t.0 < self@.vocab,
    {
        proof {
            use_type_invariant(self);
        }
        match self.selected {
            Some(i) => Some(self.data[i].id),
            None => None,
        }
    }

    /// Takes in what a stage that ran elsewhere made of the set: its entries,
    /// whether they are in descending order, and the position of the entry it
    /// chose, if it chose. Such a stage may drop, reorder and rescore entries;
    /// what it hands back is refused, and the set left as it was, where two
    /// entries carry one token, where a token was not in the set before, where
    /// a probability lies outside zero and one, where the order is stated and is
    /// not so, or where the choice points at no entry.
    pub fn replace(
        &mut self,
        data: Vec<LlamaTokenData>,
        sorted: bool,
        selected: Option<usize>,
    ) -> (taken: bool)
        ensures
            taken == old(self)@.admits(old(self)@.with(data@, sorted, spec_position(selected))),
            taken ==> final(self)@ == old(self)@.with(data@, sorted, spec_position(selected)),
            !taken ==> final(self)@ == old(self)@,
    {
        broadcast use vstd::std_specs::hash::group_hash_axioms;

        proof {
            use_type_invariant(&*self);
        }
        if !ids_are_distinct(&data) || !entries_are_proper(&data) {
            return false;
        }
        if sorted && !is_descending(&data) {
            return false;
        }
        if let Some(index) = selected {
            if index >= data.len() {
                return false;
            }
        }
        let mut known: HashSet<i32> = HashSet::new();
        let mut i: usize = 0;
        while i < self.data.len()
            invariant
                i <= self.data@.len(),
                self@ == old(self)@,
                forall|x: i32|
                    known@.contains(x) <==> exists|j: int| 0 <= j < i && (#[trigger] self.data@[j]).id.0 == x,
            decreases self.data@.len() - i,
        {
            let id: i32 = self.data[i].id.0;
            known.insert(id);
            i += 1;
        }
        let mut k: usize = 0;
        while k < data.len()
            invariant
                k <= data@.len(),
                self@ == old(self)@,
                forall|x: i32|
                    known@.contains(x) <==> exists|j: int|
                        0 <= j < self.data@.len() && (#[trigger] self.data@[j]).id.0 == x,
                forall|a: int| 0 <= a < k ==> holds(self@.data, (#[trigger] data@[a]).id),
            decreases data@.len() - k,
        {
            let id: i32 = data[k].id.0;
            if !known.contains(&id) {
                proof {
                    if holds(self@.data, data@[k as int].id) {
                        let j = choose|j: int|
                            0 <= j < self.data@.len() && (#[trigger] self.data@[j]).id == data@[k as int].id;
                        assert(self.data@[j].id.0 == id);
                    }
                }
                return false;
            }
            proof {
                let j = choose|j: int| 0 <= j < self.data@.len() && (#[trigger] self.data@[j]).id.0 == id;
                assert(self.data@[j].id == data@[k as int].id);
            }
            k += 1;
        }
        proof {
            assert forall|a: int| 0 <= a < data@.len() implies (#[trigger] data@[a]).id.0 < self@.vocab by {
                assert(holds(self@.data, data@[a].id));
                let j = choose|j: int|
                    0 <= j < self@.data.len() && (#[trigger] self@.data[j]).id == data@[a].id;
                assert(self@.data[j].id.0 < self@.vocab);
            }
        }
        self.selected = None;
        self.sorted = false;
        self.data = data;
        self.sorted = sorted;
        self.selected = selected;
        true
    }

    /// Applies `sampler` to the set: its stages run in order up to the first
    /// that computes on the scores. Returns the position of that stage, or the
    /// number of stages where all have run.
    pub fn apply_sampler(&mut self, sampler: &LlamaSampler) -> (next: usize)
        ensures
            next == sampler@.next_numeric(0),
            final(self)@ == sampler@.run(0, next as int, old(self)@),
    {
        sampler.apply_from(0, self)
    }

    /// The first position of the greatest score.
    fn first_max_index(data: &Vec<LlamaTokenData>) -> (best: usize)
        requires
            data@.len() > 0,
        ensures
            best == first_max(data@),
            is_first_max(data@, best as int),
    {
        let n = data.len();
        let mut best: usize = 0;
        let mut i: usize = 1;
        while i < n
            invariant
                n == data.len(),
                1 <= i <= n,
                best < i,
                forall|j: int| 0 <= j < i ==> data@[j].rank() <= data@[best as int].rank(),
                forall|j: int| 0 <= j < best ==> data@[j].rank() < data@[best as int].rank(),
            decreases n - i,
        {
            if data[best].logit.lt(&data[i].logit) {
                best = i;
            }
            i += 1;
        }
        proof {
            assert(is_first_max(data@, best as int));
            lemma_first_max_unique(data@, best as int, first_max(data@));
        }
        best
    }

    /// Chooses the first entry of greatest score; nothing else changes. An empty
    /// set is left without a choice.
    pub fn select_greedy(&mut self)
        ensures
            final(self)@ == old(self)@.greedy(),
    {
        proof {
            use_type_invariant(&*self);
        }
        if self.data.len() == 0 {
            self.selected = None;
        } else {
            let best = Self::first_max_index(&self.data);
            self.selected = Some(best);
        }
    }

    /// The hard maximum: the first entry of greatest score keeps its score, and
    /// every other score becomes negative infinity. Order, choice and order flag
    /// stay.
    pub fn keep_max(&mut self)
        ensures
            final(self)@ == old(self)@.keep_max(),
    {
        proof {
            use_type_invariant(&*self);
        }
        let n = self.data.len();
        if n == 0 {
            assert(self@.data =~= self@.keep_max().data);
            return;
        }
        let best = Self::first_max_index(&self.data);
        let ghost before = self@;
        let mut data: Vec<LlamaTokenData> = Vec::new();
        let mut i: usize = 0;
        while i < n
            invariant
                n == self.data.len(),
                self@ == before,
                best == first_max(before.data),
                i <= n,
                data@ == before.keep_max().data.subrange(0, i as int),
            decreases n - i,
        {
            let entry = self.data[i];
            if i == best {
                data.push(entry);
            } else {
                data.push(LlamaTokenData { logit: Scalar::neg_infinity(), ..entry });
            }
            assert(data@ =~= before.keep_max().data.subrange(0, i + 1));
            i += 1;
        }
        proof {
            assert(data@ =~= before.keep_max().data);
            lemma_keep_max_wf(before);
        }
        self.data = data;
    }

    /// The cut to the `k` best: the `k` entries of greatest score stay, in
    /// descending order, entries of equal score in the order they had. With `k`
    /// at or above the number of entries all stay and are put in order; with `k`
    /// at zero none stays. No entry is chosen afterwards. With `k` below zero
    /// there is no cut: the set stays as it is.
    pub fn keep_top_k(&mut self, k: i32)
        ensures
            final(self)@ == old(self)@.top_k(k as int),
            k >= 0 ==> final(self)@.data.len() == Candidates::kept(old(self)@.data.len(), k as int),
            k >= 0 ==> leads(final(self)@.data, old(self)@.data),
    {
        proof {
            use_type_invariant(&*self);
        }
        if k < 0 {
            return;
        }
        let n = self.data.len();
        let count: usize = if k <= 0 {
            0
        } else if (k as usize) <= n {
            k as usize
        } else {
            n
        };
        let ghost before = self@;
        proof {
            lemma_sort_prefix_len(before.data, count as nat);
            lemma_sort_prefix_members(before.data, count as nat);
            lemma_sort_prefix_descending(before.data, count as nat);
            lemma_sort_prefix_distinct(before.data, count as nat);
            lemma_sort_prefix_proper(before.data, count as nat);
            lemma_sort_prefix_in_vocabulary(before.data, count as nat, before.vocab);
            lemma_sort_prefix_dominates(before.data, count as nat);
        }
        let mut out: Vec<LlamaTokenData> = Vec::new();
        if self.sorted {
            let mut i: usize = 0;
            while i < count
                invariant
                    count <= n == self.data.len(),
                    self@ == before,
                    i <= count,
                    out@ == before.data.subrange(0, i as int),
                decreases count - i,
            {
                out.push(self.data[i]);
                assert(out@ =~= before.data.subrange(0, i + 1));
                i += 1;
            }
            proof {
                lemma_sort_prefix_of_descending(before.data, count as nat);
            }
        } else {
            let mut rest: Vec<LlamaTokenData> = Vec::new();
            let mut i: usize = 0;
            while i < n
                invariant
                    n == self.data.len(),
                    self@ == before,
                    i <= n,
                    rest@ == before.data.subrange(0, i as int),
                decreases n - i,
            {
                rest.push(self.data[i]);
                assert(rest@ =~= before.data.subrange(0, i + 1));
                i += 1;
            }
            assert(rest@ =~= before.data);
            let mut round: usize = 0;
            while round < count
                invariant
                    count <= n,
                    round <= count,
                    rest@.len() == n - round,
                    out@ + sort_prefix(rest@, (count - round) as nat) == sort_prefix(
                        before.data,
                        count as nat,
                    ),
                decreases count - round,
            {
                let best = Self::first_max_index(&rest);
                let ghost rest_before = rest@;
                let ghost out_before = out@;
                let entry = rest.remove(best);
                out.push(entry);
                proof {
                    let tail = sort_prefix(rest@, (count - round - 1) as nat);
                    assert(sort_prefix(rest_before, (count - round) as nat) == seq![entry] + tail);
                    assert(out@ + tail =~= out_before + (seq![entry] + tail));
                }
                round += 1;
            }
            assert(out@ + Seq::<LlamaTokenData>::empty() =~= out@);
        }
        self.selected = None;
        self.sorted = false;
        self.data = out;
        self.sorted = true;
    }
}

/// The hard maximum keeps a set well formed.
pub proof fn lemma_keep_max_wf(c: Candidates)
    requires
        c.wf(),
    ensures
        c.keep_max().wf(),
{
    let after = c.keep_max();
    assert(distinct_ids(after.data)) by {
        assert forall|i: int, j: int| 0 <= i < j < after.data.len() implies after.data[i].id
            != after.data[j].id by {
            assert(c.data[i].id != c.data[j].id);
        }
    }
    assert(proper_entries(after.data)) by {
        assert forall|i: int| 0 <= i < after.data.len() implies (#[trigger] after.data[i]).proper() by {
            assert(c.data[i].proper());
        }
    }
    assert(in_vocabulary(after.data, after.vocab)) by {
        assert forall|i: int| 0 <= i < after.data.len() implies (#[trigger] after.data[i]).id.0
            < after.vocab by {
            assert(c.data[i].id.0 < c.vocab);
        }
    }
    if c.sorted && c.data.len() > 0 {
        lemma_first_max_of_descending(c.data);
        assert forall|i: int, j: int| 0 <= i < j < after.data.len() implies after.data[i].rank()
            >= after.data[j].rank() by {
            lemma_code_bounds(after.data[i].logit);
        }
    }
}

} // verus!
