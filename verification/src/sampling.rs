//! Samplers: single stages, chains of them, and their run over a candidate set.

use crate::scalar::Scalar;
use crate::stage::{
    find_nul, is_first_nul, nul_free, texts, Kind, SamplerError, Stage, StageKind, StageView,
};
use crate::token::data::LlamaTokenData;
use crate::rank::holds;
use crate::token::data_array::{Candidates, LlamaTokenDataArray};
use crate::token::LlamaToken;
use vstd::prelude::*;
use vstd::slice::slice_to_vec;
use vstd::string::*;

verus! {

/// A sampler as a mathematical value: its stages in the order they run, and
/// whether it tracks performance counters.
pub struct SamplerView {
    pub stages: Seq<StageView>,
    pub track_counters: bool,
}

impl SamplerView {
    /// Every stage is well formed.
    pub open spec fn wf(self) -> bool {
        forall|i: int| 0 <= i < self.stages.len() ==> (#[trigger] self.stages[i]).wf()
    }

    /// The sampler of one fresh stage. It tracks no performance counters.
    pub open spec fn single(kind: Kind) -> SamplerView {
        SamplerView { stages: seq![StageView::fresh(kind)], track_counters: false }
    }

    /// The stages of the given samplers, one sampler after the other.
    pub open spec fn concat(samplers: Seq<SamplerView>) -> Seq<StageView>
        decreases samplers.len(),
    {
        if samplers.len() == 0 {
            Seq::empty()
        } else {
            Self::concat(samplers.drop_last()) + samplers.last().stages
        }
    }

    /// The sampler after it was told of `token`: every stage was.
    pub open spec fn accept(self, token: LlamaToken) -> SamplerView {
        SamplerView {
            stages: Seq::new(self.stages.len(), |i: int| self.stages[i].accept(token)),
            ..self
        }
    }

    /// The sampler after it was told of `tokens`, one after the other.
    pub open spec fn accept_many(self, tokens: Seq<LlamaToken>) -> SamplerView
        decreases tokens.len(),
    {
        if tokens.len() == 0 {
            self
        } else {
            self.accept_many(tokens.drop_last()).accept(tokens.last())
        }
    }

    /// The first stage at or after `from` that computes on the scores; the
    /// number of stages where there is none.
    pub open spec fn next_numeric(self, from: int) -> int
        decreases self.stages.len() - from,
    {
        if from < 0 || from >= self.stages.len() {
            self.stages.len() as int
        } else if !self.stages[from].kind.rank_only() {
            from
        } else {
            self.next_numeric(from + 1)
        }
    }

    /// What the stages from `from` up to `to` make of a candidate set, each
    /// working on what the one before it left. It is stated of stages that go
    /// by order alone; a stage that computes on the scores has no part in it.
    pub open spec fn run(self, from: int, to: int, c: Candidates) -> Candidates
        decreases to - from,
    {
        if from < 0 || from >= to || to > self.stages.len() {
            c
        } else {
            self.run(from + 1, to, self.stages[from].kind.apply(c))
        }
    }

    /// Whether a choice can be begun from the output that `idx` picks: it picks
    /// one, and that has no more scores than there are token numbers.
    pub open spec fn samples(self, outputs: Seq<Vec<Scalar>>, idx: int) -> bool {
        match picked(outputs.len(), idx) {
            Some(row) => outputs[row]@.len() <= i32::MAX,
            None => false,
        }
    }
}

/// The output that `idx` picks of `len`: the one at `idx` where `idx` is zero or
/// above, the one `-idx` before the end where it is below; none where that lies
/// outside the outputs.
pub open spec fn picked(len: nat, idx: int) -> Option<int> {
    if 0 <= idx < len {
        Some(idx)
    } else if -(len as int) <= idx < 0 {
        Some(len + idx)
    } else {
        None
    }
}

/// The stage that stops a run lies at or after its start, and every stage
/// between the two goes by order alone.
pub proof fn lemma_next_numeric(v: SamplerView, from: int)
    requires
        0 <= from <= v.stages.len(),
    ensures
        from <= v.next_numeric(from) <= v.stages.len(),
        v.next_numeric(from) < v.stages.len() ==> !v.stages[v.next_numeric(from)].kind.rank_only(),
        forall|i: int| from <= i < v.next_numeric(from) ==> (#[trigger] v.stages[i]).kind.rank_only(),
    decreases v.stages.len() - from,
{
    if from < v.stages.len() && v.stages[from].kind.rank_only() {
        lemma_next_numeric(v, from + 1);
    }
}

/// The samplers as mathematical values.
pub open spec fn views(samplers: Seq<LlamaSampler>) -> Seq<SamplerView> {
    Seq::new(samplers.len(), |i: int| samplers[i]@)
}

/// A sampler: one stage, or a chain of stages that run one after the other on
/// the same candidate set. It owns its stages; nothing else holds them.
#[derive(Debug)]
pub struct LlamaSampler {
    stages: Vec<Stage>,
    track_counters: bool,
}

impl View for LlamaSampler {
    type V = SamplerView;

    closed spec fn view(&self) -> SamplerView {
        SamplerView {
            stages: Seq::new(self.stages@.len(), |i: int| self.stages@[i]@),
            track_counters: self.track_counters,
        }
    }
}

impl LlamaSampler {
    /// Holds of every value of the type.
    #[verifier::type_invariant]
    pub open spec fn well_formed(self) -> bool {
        self@.wf()
    }

    /// The sampler of one fresh stage.
    fn single(kind: StageKind) -> (sampler: Self)
        requires
            kind@.valid(),
        ensures
            sampler@ == SamplerView::single(kind@),
    {
        let mut stages: Vec<Stage> = Vec::new();
        stages.push(Stage::fresh(kind));
        assert(Seq::new(stages@.len(), |i: int| stages@[i]@) =~= seq![StageView::fresh(kind@)]);
        LlamaSampler { stages, track_counters: false }
    }

    /// The stages, in the order they run.
    pub fn stages(&self) -> (stages: &Vec<Stage>)
        ensures
            stages@.len() == self@.stages.len(),
            forall|i: int| 0 <= i < stages@.len() ==> (#[trigger] stages@[i])@ == self@.stages[i],
    {
        &self.stages
    }

    /// Whether the sampler tracks performance counters.
    pub fn tracks_counters(&self) -> (tracks: bool)
        ensures
            tracks == self@.track_counters,
    {
        self.track_counters
    }

    /// Tells the sampler that `token` was chosen: every stage is told, in the
    /// order they run, and each updates what it remembers.
    pub fn accept(&mut self, token: LlamaToken)
        ensures
            final(self)@ == old(self)@.accept(token),
    {
        proof {
            use_type_invariant(&*self);
        }
        let mut stages: Vec<Stage> = Vec::new();
        core::mem::swap(&mut self.stages, &mut stages);
        let n = stages.len();
        let mut i: usize = 0;
        assert forall|j: int| 0 <= j < n implies (#[trigger] stages@[j])@.wf() by {
            assert(old(self)@.stages[j].wf());
        }
        while i < n
            invariant
                n == stages@.len(),
                n == old(self).stages@.len(),
                i <= n,
                forall|j: int| 0 <= j < i ==> (#[trigger] stages@[j])@ == old(self).stages@[j]@.accept(token),
                forall|j: int| i <= j < n ==> (#[trigger] stages@[j])@ == old(self).stages@[j]@,
                forall|j: int| 0 <= j < n ==> (#[trigger] stages@[j])@.wf(),
            decreases n - i,
        {
            stages[i].accept(token);
            i += 1;
        }
        assert(Seq::new(stages@.len(), |i: int| stages@[i]@) =~= old(self)@.accept(token).stages);
        self.stages = stages;
    }

    /// Tells the sampler of several tokens, one after the other, as when it is
    /// primed with what was generated before.
    pub fn accept_many(&mut self, tokens: &[LlamaToken])
        ensures
            final(self)@ == old(self)@.accept_many(tokens@),
    {
        let mut i: usize = 0;
        while i < tokens.len()
            invariant
                i <= tokens@.len(),
                self@ == old(self)@.accept_many(tokens@.subrange(0, i as int)),
            decreases tokens@.len() - i,
        {
            self.accept(tokens[i]);
            assert(tokens@.subrange(0, i + 1).drop_last() =~= tokens@.subrange(0, i as int));
            i += 1;
        }
        assert(tokens@.subrange(0, i as int) =~= tokens@);
    }

    /// The sampler after it was told of `tokens`, one after the other.
    pub fn with_tokens(self, tokens: &[LlamaToken]) -> (sampler: Self)
        ensures
            sampler@ == self@.accept_many(tokens@),
    {
        let mut sampler = self;
        sampler.accept_many(tokens);
        sampler
    }

    /// Combines samplers into one that runs the stages of each, one sampler
    /// after the other, and that tracks performance counters where
    /// `track_counters` is true. The stages are moved in: the chain alone owns
    /// them from then on, each exactly once and in the order given. A chain
    /// among the samplers gives its stages and loses its own counter setting.
    ///
    /// A chain that is to choose a token ends with a selecting stage: greedy,
    /// dist, or one of the two mirostat stages.
    pub fn chain(samplers: Vec<LlamaSampler>, track_counters: bool) -> (chain: Self)
        ensures
            chain@ == (SamplerView { stages: SamplerView::concat(views(samplers@)), track_counters }),
    {
        let ghost all = views(samplers@);
        let mut stages: Vec<Stage> = Vec::new();
        proof {
            assert(all.subrange(0, 0) =~= Seq::<SamplerView>::empty());
        }
        for sampler in it: samplers.into_iter()
            invariant
                it.seq() == samplers@,
                all == views(samplers@),
                Seq::new(stages@.len(), |j: int| stages@[j]@) == SamplerView::concat(
                    all.subrange(0, it.index() as int),
                ),
                forall|j: int| 0 <= j < stages@.len() ==> (#[trigger] stages@[j])@.wf(),
        {
            let ghost before = Seq::new(stages@.len(), |j: int| stages@[j]@);
            let mut sampler = sampler;
            assert(sampler@ == all[it.index() as int]);
            proof {
                use_type_invariant(&sampler);
            }
            let ghost member = sampler@;
            let mut taken: Vec<Stage> = Vec::new();
            core::mem::swap(&mut sampler.stages, &mut taken);
            assert forall|j: int| 0 <= j < taken@.len() implies (#[trigger] taken@[j])@.wf() by {
                assert(member.stages[j].wf());
            }
            stages.append(&mut taken);
            proof {
                let upto = all.subrange(0, it.index() + 1);
                assert(upto.drop_last() =~= all.subrange(0, it.index() as int));
                assert(Seq::new(stages@.len(), |j: int| stages@[j]@) =~= before + upto.last().stages);
            }
        }
        proof {
            assert(all.subrange(0, all.len() as int) =~= all);
        }
        LlamaSampler { stages, track_counters }
    }

    /// As [`Self::chain`], with performance counters kept.
    pub fn chain_simple(samplers: Vec<LlamaSampler>) -> (chain: Self)
        ensures
            chain@ == (SamplerView {
                stages: SamplerView::concat(views(samplers@)),
                track_counters: true,
            }),
    {
        Self::chain(samplers, true)
    }

    /// Temperature: every score is divided by `t`. With `t` at or below zero the
    /// greatest score is kept as it is and every other becomes negative
    /// infinity.
    pub fn temp(t: Scalar) -> (sampler: Self)
        ensures
            sampler@ == SamplerView::single(Kind::Temp { t }),
    {
        Self::single(StageKind::Temp { t })
    }

    /// Dynamic temperature: a temperature between `t - delta` and `t + delta`,
    /// derived from the entropy of the scores raised to `exponent`.
    pub fn temp_ext(t: Scalar, delta: Scalar, exponent: Scalar) -> (sampler: Self)
        ensures
            sampler@ == SamplerView::single(Kind::TempExt { t, delta, exponent }),
    {
        Self::single(StageKind::TempExt { t, delta, exponent })
    }

    /// Top-k: the `k` entries of greatest score stay, in descending order. With
    /// `k` below zero the stage cuts nothing.
    pub fn top_k(k: i32) -> (sampler: Self)
        ensures
            sampler@ == SamplerView::single(Kind::TopK { k }),
    {
        Self::single(StageKind::TopK { k })
    }

    /// Locally typical sampling: the entries whose surprise is nearest to the
    /// entropy stay, up to a probability mass of `p` and never fewer than
    /// `min_keep`.
    pub fn typical(p: Scalar, min_keep: usize) -> (sampler: Self)
        ensures
            sampler@ == SamplerView::single(Kind::Typical { p, min_keep }),
    {
        Self::single(StageKind::Typical { p, min_keep })
    }

    /// Nucleus sampling: the most probable entries stay, up to a probability
    /// mass of `p` and never fewer than `min_keep`.
    pub fn top_p(p: Scalar, min_keep: usize) -> (sampler: Self)
        ensures
            sampler@ == SamplerView::single(Kind::TopP { p, min_keep }),
    {
        Self::single(StageKind::TopP { p, min_keep })
    }

    /// Minimum-p sampling: the entries at least `p` times as probable as the
    /// most probable stay, never fewer than `min_keep`.
    pub fn min_p(p: Scalar, min_keep: usize) -> (sampler: Self)
        ensures
            sampler@ == SamplerView::single(Kind::MinP { p, min_keep }),
    {
        Self::single(StageKind::MinP { p, min_keep })
    }

    /// Exclusion of the top choices: with chance `p`, drawn from `seed`, the
    /// entries more probable than `t` go, but for the least probable of them;
    /// never fewer than `min_keep` stay.
    pub fn xtc(p: Scalar, t: Scalar, min_keep: usize, seed: u32) -> (sampler: Self)
        ensures
            sampler@ == SamplerView::single(Kind::Xtc { p, t, min_keep, seed }),
    {
        Self::single(StageKind::Xtc { p, t, min_keep, seed })
    }

    /// Grammar: only the tokens that the grammar allows next stay. The grammar is
    /// given as its text and the name of its root rule. Either is refused where
    /// it holds a zero byte, the text before the name.
    pub fn grammar(grammar_str: &str, grammar_root: &str) -> (sampler: Result<Self, SamplerError>)
        ensures
            match sampler {
                Ok(s) => {
                    &&& nul_free(grammar_str.spec_bytes())
                    &&& nul_free(grammar_root.spec_bytes())
                    &&& s@ == SamplerView::single(
                        Kind::Grammar { grammar: grammar_str.spec_bytes(), root: grammar_root.spec_bytes() },
                    )
                },
                Err(SamplerError::NulInGrammar { position }) => is_first_nul(
                    grammar_str.spec_bytes(),
                    position as int,
                ),
                Err(SamplerError::NulInGrammarRoot { position }) => {
                    &&& nul_free(grammar_str.spec_bytes())
                    &&& is_first_nul(grammar_root.spec_bytes(), position as int)
                },
                Err(SamplerError::NulInSequenceBreaker { .. }) => false,
            },
    {
        let grammar_bytes = grammar_str.as_bytes();
        if let Some(position) = find_nul(grammar_bytes) {
            return Err(SamplerError::NulInGrammar { position });
        }
        let root_bytes = grammar_root.as_bytes();
        if let Some(position) = find_nul(root_bytes) {
            return Err(SamplerError::NulInGrammarRoot { position });
        }
        let grammar = slice_to_vec(grammar_bytes);
        let root = slice_to_vec(root_bytes);
        Ok(Self::single(StageKind::Grammar { grammar, root }))
    }

    /// Repetition detector ("DRY"): a token that would prolong a sequence seen
    /// among the last `penalty_last_n` accepted tokens beyond `allowed_length` is
    /// penalised by `multiplier * base^(length - allowed_length)`. A sequence
    /// breaker ends the sequence that is followed. The breakers are refused
    /// where one of them holds a zero byte; the error names the first such one.
    pub fn dry(
        multiplier: Scalar,
        base: Scalar,
        allowed_length: i32,
        penalty_last_n: i32,
        seq_breakers: Vec<Vec<u8>>,
    ) -> (sampler: Result<Self, SamplerError>)
        ensures
            match sampler {
                Ok(s) => {
                    &&& forall|i: int| 0 <= i < seq_breakers@.len() ==> nul_free(#[trigger] seq_breakers@[i]@)
                    &&& s@ == SamplerView::single(
                        Kind::Dry {
                            multiplier,
                            base,
                            allowed_length,
                            penalty_last_n,
                            seq_breakers: texts(seq_breakers@),
                        },
                    )
                },
                Err(SamplerError::NulInSequenceBreaker { index, position }) => {
                    &&& index < seq_breakers@.len()
                    &&& forall|i: int| 0 <= i < index ==> nul_free(#[trigger] seq_breakers@[i]@)
                    &&& is_first_nul(seq_breakers@[index as int]@, position as int)
                },
                Err(_) => false,
            },
    {
        let mut index: usize = 0;
        while index < seq_breakers.len()
            invariant
                index <= seq_breakers@.len(),
                forall|i: int| 0 <= i < index ==> nul_free(#[trigger] seq_breakers@[i]@),
            decreases seq_breakers@.len() - index,
        {
            if let Some(position) = find_nul(seq_breakers[index].as_slice()) {
                return Err(SamplerError::NulInSequenceBreaker { index, position });
            }
            index += 1;
        }
        let kind = StageKind::Dry { multiplier, base, allowed_length, penalty_last_n, seq_breakers };
        assert forall|i: int| 0 <= i < texts(seq_breakers@).len() implies nul_free(
            #[trigger] texts(seq_breakers@)[i],
        ) by {
            assert(nul_free(seq_breakers@[i]@));
        }
        Ok(Self::single(kind))
    }

    /// Penalties on the tokens accepted of late.
    ///
    /// - `penalty_last_n`: how many of the last accepted tokens count (0 turns
    ///   the stage off, a negative number counts all of them)
    /// - `penalty_repeat`: the score of a token that occurs is divided by it, or
    ///   multiplied where the score is not above zero (1 changes nothing)
    /// - `penalty_freq`: taken off the score once for each occurrence (0 changes
    ///   nothing)
    /// - `penalty_present`: taken off the score of a token that occurs at all (0
    ///   changes nothing)
    pub fn penalties(
        penalty_last_n: i32,
        penalty_repeat: Scalar,
        penalty_freq: Scalar,
        penalty_present: Scalar,
    ) -> (sampler: Self)
        ensures
            sampler@ == SamplerView::single(
                Kind::Penalties { penalty_last_n, penalty_repeat, penalty_freq, penalty_present },
            ),
    {
        Self::single(StageKind::Penalties { penalty_last_n, penalty_repeat, penalty_freq, penalty_present })
    }

    /// The same stage as [`Self::penalties`].
    pub fn penalties_simple(
        penalty_last_n: i32,
        penalty_repeat: Scalar,
        penalty_freq: Scalar,
        penalty_present: Scalar,
    ) -> (sampler: Self)
        ensures
            sampler@ == SamplerView::single(
                Kind::Penalties { penalty_last_n, penalty_repeat, penalty_freq, penalty_present },
            ),
    {
        Self::penalties(penalty_last_n, penalty_repeat, penalty_freq, penalty_present)
    }

    /// Mirostat, first version: draws a token, seeded by `seed`, from a cut that
    /// keeps the surprise of what is drawn near `tau`. `eta` is the rate at
    /// which the cut follows the surprise observed, `m` the number of entries
    /// from which the shape of the distribution is estimated, `n_vocab` the size
    /// of the vocabulary.
    pub fn mirostat(n_vocab: i32, seed: u32, tau: Scalar, eta: Scalar, m: i32) -> (sampler: Self)
        ensures
            sampler@ == SamplerView::single(Kind::Mirostat { n_vocab, seed, tau, eta, m }),
    {
        Self::single(StageKind::Mirostat { n_vocab, seed, tau, eta, m })
    }

    /// Mirostat, second version: as the first, with the cut taken from the
    /// probabilities themselves.
    pub fn mirostat_v2(seed: u32, tau: Scalar, eta: Scalar) -> (sampler: Self)
        ensures
            sampler@ == SamplerView::single(Kind::MirostatV2 { seed, tau, eta }),
    {
        Self::single(StageKind::MirostatV2 { seed, tau, eta })
    }

    /// Draws a token at random by the probabilities of the entries, seeded by
    /// `seed`.
    pub fn dist(seed: u32) -> (sampler: Self)
        ensures
            sampler@ == SamplerView::single(Kind::Dist { seed }),
    {
        Self::single(StageKind::Dist { seed })
    }

    /// Chooses the entry of greatest score, the first of them where several
    /// share it.
    pub fn greedy() -> (sampler: Self)
        ensures
            sampler@ == SamplerView::single(Kind::Greedy),
    {
        Self::single(StageKind::Greedy)
    }

    /// Runs the stages from `start` on over `data_array`, in order, up to the
    /// first that computes on the scores. Returns the position of that stage,
    /// which is left to the caller, or the number of stages where all have run.
    pub fn apply_from(&self, start: usize, data_array: &mut LlamaTokenDataArray) -> (next: usize)
        ensures
            next == self@.next_numeric(start as int),
            next <= self@.stages.len(),
            next < self@.stages.len() ==> start <= next && !self@.stages[next as int].kind.rank_only(),
            forall|i: int| start <= i < next ==> (#[trigger] self@.stages[i]).kind.rank_only(),
            final(data_array)@ == self@.run(start as int, next as int, old(data_array)@),
            final(data_array)@.vocab == old(data_array)@.vocab,
    {
        let n = self.stages.len();
        if start >= n {
            return n;
        }
        let ghost target = self@.next_numeric(start as int);
        let ghost begin = data_array@;
        proof {
            lemma_next_numeric(self@, start as int);
        }
        let mut i: usize = start;
        let mut open: bool = true;
        while open && i < n
            invariant
                n == self.stages@.len(),
                start <= i <= n,
                self@.next_numeric(i as int) == target,
                i <= target <= n,
                !open ==> i == target,
                data_array@.vocab == begin.vocab,
                self@.run(i as int, target, data_array@) == self@.run(start as int, target, begin),
            decreases n - i + if open { 1int } else { 0int },
        {
            let stage = &self.stages[i];
            proof {
                assert(stage@ == self@.stages[i as int]);
                lemma_next_numeric(self@, i as int);
                if stage@.kind.rank_only() {
                    lemma_next_numeric(self@, i + 1);
                }
            }
            match stage.kind() {
                StageKind::Greedy => {
                    data_array.select_greedy();
                    i += 1;
                },
                StageKind::TopK { k } => {
                    data_array.keep_top_k(*k);
                    i += 1;
                },
                StageKind::Temp { t } => {
                    if t.is_non_positive() {
                        data_array.keep_max();
                        i += 1;
                    } else {
                        open = false;
                    }
                },
                _ => {
                    open = false;
                },
            }
        }
        i
    }

    /// Takes up the run behind the stage at `at`, which the caller ran. `data`,
    /// `sorted` and `selected` are what that stage hands back: the entries, its
    /// word on their order, and the index of the entry it chose (-1 by custom
    /// where it chose none). What is taken from them is settled here
    /// ([`StageView::made`]): the order only as far as the entries bear it out,
    /// the index only from a stage that chooses, and of any other stage the
    /// choice as it was. Where the stage permits the set so made it becomes the
    /// set, the stages behind `at` run on it as by [`Self::apply_from`], and the
    /// place where the run stops next is returned. Where it does not, or where
    /// there is no stage at `at`, nothing is returned and the set stays as it
    /// was.
    pub fn resume(
        &self,
        at: usize,
        data_array: &mut LlamaTokenDataArray,
        data: Vec<LlamaTokenData>,
        sorted: bool,
        selected: i64,
    ) -> (next: Option<usize>)
        ensures
            ({
                let stage = self@.stages[at as int];
                let made = stage.made(old(data_array)@, data@, sorted, selected as int);
                let taken = at < self@.stages.len() && stage.permits(old(data_array)@, made);
                &&& next is Some <==> taken
                &&& taken ==> next == Some(self@.next_numeric(at + 1) as usize)
                &&& taken ==> final(data_array)@ == self@.run(at + 1, self@.next_numeric(at + 1), made)
                &&& !taken ==> final(data_array)@ == old(data_array)@
                &&& final(data_array)@.vocab == old(data_array)@.vocab
            }),
    {
        if at >= self.stages.len() {
            return None;
        }
        let stage = &self.stages[at];
        assert(stage@ == self@.stages[at as int]);
        if stage.is_rank_only() {
            return None;
        }
        let (order, choice) = stage.settle(data_array, &data, sorted, selected);
        if !stage.has_shape(data_array, &data, choice) {
            return None;
        }
        if !data_array.replace(data, order, choice) {
            return None;
        }
        Some(self.apply_from(at + 1, data_array))
    }

    /// Reads the choice at the end of a run: the token of the chosen entry where
    /// `next`, the place at which the run stopped, lies behind the last stage;
    /// none while a stage is still to run, and none where no stage chose. A
    /// token that is given is a token of the set, and so of its vocabulary.
    pub fn finish(&self, next: usize, data_array: &LlamaTokenDataArray) -> (token: Option<LlamaToken>)
        ensures
            token == if next >= self@.stages.len() {
                data_array@.selected_token()
            } else {
                None
            },
            token matches Some(t) ==> holds(data_array@.data, t) && 0 <= t.0 < data_array@.vocab,
    {
        if next >= self.stages.len() {
            data_array.selected_token()
        } else {
            None
        }
    }

    /// Applies the sampler to `data_array`: runs its stages in order up to the
    /// first that computes on the scores. Returns the position of that stage,
    /// which is left to the caller, or the number of stages where all have run.
    /// The sampler itself does not change.
    pub fn apply(&mut self, data_array: &mut LlamaTokenDataArray) -> (next: usize)
        ensures
            final(self)@ == old(self)@,
            next == old(self)@.next_numeric(0),
            next <= old(self)@.stages.len(),
            next < old(self)@.stages.len() ==> !old(self)@.stages[next as int].kind.rank_only(),
            forall|i: int| 0 <= i < next ==> (#[trigger] old(self)@.stages[i]).kind.rank_only(),
            final(data_array)@ == old(self)@.run(0, next as int, old(data_array)@),
            final(data_array)@.vocab == old(data_array)@.vocab,
    {
        self.apply_from(0, data_array)
    }

    /// Begins the choice of a token from the scores of one output of an
    /// evaluation. `outputs` holds one score vector for each output, in which
    /// entry `i` is the score of token `i`; `idx` picks the output, counted from
    /// the first where it is zero or above and from the last where it is below,
    /// -1 being the last. The candidate set is built from that vector and the
    /// sampler applied to it.
    ///
    /// Given back are the set and the place at which the run stopped, as
    /// [`Self::apply`] gives it. The run is taken up by [`Self::resume`] while a
    /// stage is to be run by the caller, and [`Self::finish`] reads the token
    /// chosen. Nothing is given where `idx` picks no output, or where the vector
    /// has more entries than there are token numbers. No token is accepted.
    pub fn sample(&self, outputs: &[Vec<Scalar>], idx: i32) -> (begun: Option<(LlamaTokenDataArray, usize)>)
        ensures
            begun is Some <==> self@.samples(outputs@, idx as int),
            begun matches Some((set, next)) ==> {
                let scores = outputs@[picked(outputs@.len(), idx as int)->0]@;
                &&& next == self@.next_numeric(0)
                &&& next <= self@.stages.len()
                &&& next < self@.stages.len() ==> !self@.stages[next as int].kind.rank_only()
                &&& set@ == self@.run(0, next as int, Candidates::from_scores(scores, false))
                &&& set@.vocab == scores.len()
            },
    {
        let n = outputs.len();
        let row: usize = if idx >= 0 {
            if (idx as usize) < n {
                idx as usize
            } else {
                return None;
            }
        } else {
            let back = (-(idx as i64)) as usize;
            if back <= n {
                n - back
            } else {
                return None;
            }
        };
        let scores = outputs[row].as_slice();
        if scores.len() > i32::MAX as usize {
            return None;
        }
        let mut data_array = LlamaTokenDataArray::from_scores(scores, false);
        let next = self.apply_from(0, &mut data_array);
        Some((data_array, next))
    }
}

} // verus!
