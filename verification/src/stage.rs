//! The stages a sampler is made of: what each is, and what each remembers of
//! the tokens it was told of.

use crate::outcome::{
    all_carried, all_divided, all_stay, carries_all, choice_has_a_chance, chooses_with_a_chance,
    divides_all, extremes_went, find_place, in_place, keeps_all, leaves_alone, left_alone,
    lowers_remembered, named, none_raised, only_extremes_went, place_of, raises_none,
    remembered_lowered, same_entries, stands_in_place,
};
use crate::rank::descending;
use crate::scalar::{Scalar, INFINITY_CODE, ONE_CODE};
use crate::token::data::LlamaTokenData;
use crate::token::data_array::{is_descending, spec_position, Candidates, LlamaTokenDataArray};
use crate::token::LlamaToken;
use vstd::prelude::*;

verus! {

/// Why a stage was not built: a text with a zero byte in it cannot be handed to
/// the grammar or to the repetition detector.
#[derive(Clone, Copy, Debug, PartialEq, Eq, Structural)]
pub enum SamplerError {
    /// The grammar's text holds a zero byte, first at `position`.
    NulInGrammar { position: usize },
    /// The name of the grammar's root rule holds a zero byte, first at `position`.
    NulInGrammarRoot { position: usize },
    /// The sequence breaker at `index` holds a zero byte, first at `position`.
    NulInSequenceBreaker { index: usize, position: usize },
}

/// No byte of the text is zero.
pub open spec fn nul_free(bytes: Seq<u8>) -> bool {
    forall|i: int| 0 <= i < bytes.len() ==> bytes[i] != 0
}

/// The first zero byte of the text stands at `position`.
pub open spec fn is_first_nul(bytes: Seq<u8>, position: int) -> bool {
    &&& 0 <= position < bytes.len()
    &&& bytes[position] == 0
    &&& forall|i: int| 0 <= i < position ==> bytes[i] != 0
}

/// The texts as mathematical values.
pub open spec fn texts(list: Seq<Vec<u8>>) -> Seq<Seq<u8>> {
    Seq::new(list.len(), |i: int| list[i]@)
}

/// The place of the first zero byte of a text, if it has one.
pub fn find_nul(bytes: &[u8]) -> (found: Option<usize>)
    ensures
        found is None <==> nul_free(bytes@),
        found matches Some(position) ==> is_first_nul(bytes@, position as int),
{
    let mut i: usize = 0;
    while i < bytes.len()
        invariant
            i <= bytes@.len(),
            forall|j: int| 0 <= j < i ==> bytes@[j] != 0,
        decreases bytes@.len() - i,
    {
        if bytes[i] == 0 {
            return Some(i);
        }
        i += 1;
    }
    None
}

/// What a stage is, with its parameters.
#[derive(Debug, PartialEq, Eq)]
pub enum StageKind {
    /// Divides every score by `t`; with `t` at or below zero, the hard maximum.
    Temp { t: Scalar },
    /// A temperature within `delta` of `t`, derived from the entropy of the
    /// scores raised to `exponent`.
    TempExt { t: Scalar, delta: Scalar, exponent: Scalar },
    /// Keeps the `k` entries of greatest score.
    TopK { k: i32 },
    /// Keeps the entries nearest to the expected surprise, up to mass `p`.
    Typical { p: Scalar, min_keep: usize },
    /// Keeps the most probable entries up to mass `p`.
    TopP { p: Scalar, min_keep: usize },
    /// Keeps the entries at least `p` times as probable as the most probable.
    MinP { p: Scalar, min_keep: usize },
    /// With chance `p`, drops the entries more probable than `t` but the least
    /// of them.
    Xtc { p: Scalar, t: Scalar, min_keep: usize, seed: u32 },
    /// Admits only the tokens that a grammar allows next.
    Grammar { grammar: Vec<u8>, root: Vec<u8> },
    /// Penalises a token that would prolong a repetition.
    Dry {
        multiplier: Scalar,
        base: Scalar,
        allowed_length: i32,
        penalty_last_n: i32,
        seq_breakers: Vec<Vec<u8>>,
    },
    /// Penalises the tokens accepted of late.
    Penalties {
        penalty_last_n: i32,
        penalty_repeat: Scalar,
        penalty_freq: Scalar,
        penalty_present: Scalar,
    },
    /// Draws a token while steering the surprise towards `tau`, first version.
    Mirostat { n_vocab: i32, seed: u32, tau: Scalar, eta: Scalar, m: i32 },
    /// Draws a token while steering the surprise towards `tau`, second version.
    MirostatV2 { seed: u32, tau: Scalar, eta: Scalar },
    /// Draws a token at random by the probabilities.
    Dist { seed: u32 },
    /// Chooses the first entry of greatest score.
    Greedy,
}

/// What a stage is, as a mathematical value.
pub enum Kind {
    Temp { t: Scalar },
    TempExt { t: Scalar, delta: Scalar, exponent: Scalar },
    TopK { k: i32 },
    Typical { p: Scalar, min_keep: usize },
    TopP { p: Scalar, min_keep: usize },
    MinP { p: Scalar, min_keep: usize },
    Xtc { p: Scalar, t: Scalar, min_keep: usize, seed: u32 },
    Grammar { grammar: Seq<u8>, root: Seq<u8> },
    Dry {
        multiplier: Scalar,
        base: Scalar,
        allowed_length: i32,
        penalty_last_n: i32,
        seq_breakers: Seq<Seq<u8>>,
    },
    Penalties {
        penalty_last_n: i32,
        penalty_repeat: Scalar,
        penalty_freq: Scalar,
        penalty_present: Scalar,
    },
    Mirostat { n_vocab: i32, seed: u32, tau: Scalar, eta: Scalar, m: i32 },
    MirostatV2 { seed: u32, tau: Scalar, eta: Scalar },
    Dist { seed: u32 },
    Greedy,
}

impl StageKind {
    /// Whether the parameters of a penalising stage make it lower scores and
    /// never raise one.
    pub fn lowers(&self) -> (yes: bool)
        ensures
            yes == self@.lowers(),
    {
        match self {
            StageKind::Penalties { penalty_repeat, penalty_freq, penalty_present, .. } => {
                let repeat = penalty_repeat.order_key();
                let freq = penalty_freq.order_key();
                let present = penalty_present.order_key();
                ONE_CODE <= repeat && repeat < INFINITY_CODE && 0 <= freq && freq < INFINITY_CODE
                    && 0 <= present && present < INFINITY_CODE
            },
            StageKind::Dry { multiplier, base, .. } => {
                let factor = multiplier.order_key();
                let root = base.order_key();
                0 <= factor && factor < INFINITY_CODE && 0 <= root && root < INFINITY_CODE
            },
            _ => false,
        }
    }
}

impl StageKind {
    /// Whether the parameters of a penalising stage make it change nothing.
    pub fn is_neutral(&self) -> (yes: bool)
        ensures
            yes == self@.neutral(),
    {
        match self {
            StageKind::Penalties { penalty_repeat, penalty_freq, penalty_present, .. } => {
                penalty_repeat.order_key() == ONE_CODE && penalty_freq.order_key() == 0
                    && penalty_present.order_key() == 0
            },
            StageKind::Dry { multiplier, .. } => multiplier.order_key() == 0,
            _ => false,
        }
    }

    /// Whether the stage lowers for certain each score that it penalises.
    pub fn lowers_strictly(&self) -> (yes: bool)
        ensures
            yes == self@.lowers_strictly(),
    {
        match self {
            StageKind::Penalties { penalty_repeat, .. } => self.lowers() && penalty_repeat.order_key()
                > ONE_CODE,
            _ => false,
        }
    }

    /// Whether the stage chooses an entry.
    pub fn selects(&self) -> (yes: bool)
        ensures
            yes == self@.selects(),
    {
        match self {
            StageKind::Greedy => true,
            StageKind::Dist { .. } => true,
            StageKind::Mirostat { .. } => true,
            StageKind::MirostatV2 { .. } => true,
            _ => false,
        }
    }
}

impl View for StageKind {
    type V = Kind;

    open spec fn view(&self) -> Kind {
        match *self {
            StageKind::Temp { t } => Kind::Temp { t },
            StageKind::TempExt { t, delta, exponent } => Kind::TempExt { t, delta, exponent },
            StageKind::TopK { k } => Kind::TopK { k },
            StageKind::Typical { p, min_keep } => Kind::Typical { p, min_keep },
            StageKind::TopP { p, min_keep } => Kind::TopP { p, min_keep },
            StageKind::MinP { p, min_keep } => Kind::MinP { p, min_keep },
            StageKind::Xtc { p, t, min_keep, seed } => Kind::Xtc { p, t, min_keep, seed },
            StageKind::Grammar { grammar, root } => Kind::Grammar { grammar: grammar@, root: root@ },
            StageKind::Dry { multiplier, base, allowed_length, penalty_last_n, seq_breakers } => Kind::Dry {
                multiplier,
                base,
                allowed_length,
                penalty_last_n,
                seq_breakers: texts(seq_breakers@),
            },
            StageKind::Penalties {
                penalty_last_n,
                penalty_repeat,
                penalty_freq,
                penalty_present,
            } => Kind::Penalties { penalty_last_n, penalty_repeat, penalty_freq, penalty_present },
            StageKind::Mirostat { n_vocab, seed, tau, eta, m } => Kind::Mirostat {
                n_vocab,
                seed,
                tau,
                eta,
                m,
            },
            StageKind::MirostatV2 { seed, tau, eta } => Kind::MirostatV2 { seed, tau, eta },
            StageKind::Dist { seed } => Kind::Dist { seed },
            StageKind::Greedy => Kind::Greedy,
        }
    }
}

/// How much of what it was told a stage remembers.
pub enum Window {
    /// Nothing.
    Nothing,
    /// The most recent tokens, up to this many.
    Last(nat),
    /// Everything.
    All,
}

impl Window {
    /// The window of a stage that looks back `last_n` tokens: none at zero, all
    /// of them below zero.
    pub open spec fn of_last_n(last_n: i32) -> Window {
        if last_n == 0 {
            Window::Nothing
        } else if last_n > 0 {
            Window::Last(last_n as nat)
        } else {
            Window::All
        }
    }

    /// The part of `tokens` that the window holds: its most recent end.
    pub open spec fn trim(self, tokens: Seq<LlamaToken>) -> Seq<LlamaToken> {
        match self {
            Window::Nothing => Seq::empty(),
            Window::Last(n) => if tokens.len() <= n {
                tokens
            } else {
                tokens.subrange(tokens.len() - n, tokens.len() as int)
            },
            Window::All => tokens,
        }
    }

    /// Whether the window can hold `tokens`.
    pub open spec fn holds(self, tokens: Seq<LlamaToken>) -> bool {
        self.trim(tokens) == tokens
    }
}

impl Kind {
    /// No text of the stage holds a zero byte.
    pub open spec fn valid(self) -> bool {
        match self {
            Kind::Grammar { grammar, root } => nul_free(grammar) && nul_free(root),
            Kind::Dry { seq_breakers, .. } => forall|i: int|
                0 <= i < seq_breakers.len() ==> nul_free(#[trigger] seq_breakers[i]),
            _ => true,
        }
    }

    /// What the stage remembers of the accepted tokens: the penalties and the
    /// repetition detector their last `penalty_last_n`, the grammar all that it
    /// has consumed, every other stage nothing.
    pub open spec fn window(self) -> Window {
        match self {
            Kind::Penalties { penalty_last_n, .. } => Window::of_last_n(penalty_last_n),
            Kind::Dry { penalty_last_n, .. } => Window::of_last_n(penalty_last_n),
            Kind::Grammar { .. } => Window::All,
            _ => Window::Nothing,
        }
    }

    /// Whether the parameters of a penalising stage make it lower scores and
    /// never raise one: for the penalties a repeat penalty of at least one and
    /// frequency and presence penalties of at least zero, for the repetition
    /// detector a multiplier and a base of at least zero; all of them finite.
    pub open spec fn lowers(self) -> bool {
        match self {
            Kind::Penalties { penalty_repeat, penalty_freq, penalty_present, .. } => {
                &&& ONE_CODE <= penalty_repeat.code() < INFINITY_CODE
                &&& 0 <= penalty_freq.code() < INFINITY_CODE
                &&& 0 <= penalty_present.code() < INFINITY_CODE
            },
            Kind::Dry { multiplier, base, .. } => {
                &&& 0 <= multiplier.code() < INFINITY_CODE
                &&& 0 <= base.code() < INFINITY_CODE
            },
            _ => false,
        }
    }

    /// Whether the parameters of a penalising stage make it change nothing: for
    /// the penalties a repeat penalty of one with frequency and presence
    /// penalties of zero, for the repetition detector a multiplier of zero.
    pub open spec fn neutral(self) -> bool {
        match self {
            Kind::Penalties { penalty_repeat, penalty_freq, penalty_present, .. } => {
                &&& penalty_repeat.code() == ONE_CODE
                &&& penalty_freq.code() == 0
                &&& penalty_present.code() == 0
            },
            Kind::Dry { multiplier, .. } => multiplier.code() == 0,
            _ => false,
        }
    }

    /// Whether the stage lowers for certain each score that it penalises: the
    /// penalties with a repeat penalty above one, where they penalise at all.
    pub open spec fn lowers_strictly(self) -> bool {
        match self {
            Kind::Penalties { penalty_repeat, .. } => self.lowers() && penalty_repeat.code() > ONE_CODE,
            _ => false,
        }
    }

    /// Whether the stage chooses an entry: the greedy choice, the random draw
    /// and the two mirostat stages. No other stage does.
    pub open spec fn selects(self) -> bool {
        match self {
            Kind::Greedy => true,
            Kind::Dist { .. } => true,
            Kind::Mirostat { .. } => true,
            Kind::MirostatV2 { .. } => true,
            _ => false,
        }
    }

    /// Whether the stage goes by the order of the scores alone: the greedy
    /// choice, the cut to the `k` best, and the temperature at or below zero.
    /// Every other stage computes on the scores.
    pub open spec fn rank_only(self) -> bool {
        match self {
            Kind::Greedy => true,
            Kind::TopK { .. } => true,
            Kind::Temp { t } => t.code() <= 0,
            _ => false,
        }
    }

    /// What a stage that goes by order alone makes of a candidate set. For any
    /// other stage the set is given back as it is: what such a stage makes of
    /// it is not stated here.
    pub open spec fn apply(self, c: Candidates) -> Candidates {
        match self {
            Kind::Greedy => c.greedy(),
            Kind::TopK { k } => c.top_k(k as int),
            Kind::Temp { t } => if t.code() <= 0 {
                c.keep_max()
            } else {
                c
            },
            _ => c,
        }
    }
}

/// A stage as a mathematical value: what it is, and the accepted tokens that it
/// remembers, oldest first.
pub struct StageView {
    pub kind: Kind,
    pub history: Seq<LlamaToken>,
}

impl StageView {
    /// The stage's texts are free of zero bytes, and it remembers no more than
    /// its window holds.
    pub open spec fn wf(self) -> bool {
        &&& self.kind.valid()
        &&& self.kind.window().holds(self.history)
    }

    /// A stage of the given kind that has been told of nothing.
    pub open spec fn fresh(kind: Kind) -> StageView {
        StageView { kind, history: Seq::empty() }
    }

    /// What a stage that computes on the scores may make of the entries, as far
    /// as the kind of the stage settles it:
    /// - a temperature above zero, the penalties and the repetition detector
    ///   rescore in place, and the latter two leave alone each entry whose token
    ///   they do not remember;
    /// - a temperature above zero leaves each score on its side of zero, no
    ///   farther from it where the temperature is at least one and no nearer
    ///   where it is at most one;
    /// - the penalties and the repetition detector raise no score where their
    ///   parameters make them penalise ([`Kind::lowers`]), and change nothing
    ///   where their parameters are neutral ([`Kind::neutral`]);
    /// - the penalties with a repeat penalty above one lower each token that
    ///   they remember and whose score is a normal number other than zero;
    /// - the dynamic temperature and the random draw keep every entry;
    /// - the cuts by probability leave at least `min_keep` entries, so that none
    ///   of them can be made of a set with fewer;
    /// - what the nucleus cut, the minimum-p cut and the two mirostat stages drop
    ///   is ordered at or below all that they leave, and what the exclusion of
    ///   the top choices drops at or above all that it leaves;
    /// - the cuts by probability, the random draw and the two mirostat stages
    ///   leave each token that stays the score it had, and the grammar that or
    ///   negative infinity;
    /// - the random draw and the two mirostat stages choose an entry, where
    ///   there is one, and one whose score lies above negative infinity, where
    ///   any does.
    pub open spec fn shape(
        self,
        before: Seq<LlamaTokenData>,
        after: Seq<LlamaTokenData>,
        selected: Option<int>,
    ) -> bool {
        match self.kind {
            Kind::Temp { t } => in_place(before, after) && all_divided(t, before, after),
            Kind::Dry { .. } => {
                &&& in_place(before, after)
                &&& left_alone(self.history, before, after)
                &&& self.kind.lowers() ==> none_raised(before, after)
                &&& self.kind.neutral() ==> after == before
            },
            Kind::Penalties { .. } => {
                &&& in_place(before, after)
                &&& left_alone(self.history, before, after)
                &&& self.kind.lowers() ==> none_raised(before, after)
                &&& self.kind.neutral() ==> after == before
                &&& self.kind.lowers_strictly() ==> remembered_lowered(self.history, before, after)
            },
            Kind::TempExt { .. } => after.len() == before.len() && all_stay(before, after),
            Kind::TopP { min_keep, .. } | Kind::MinP { min_keep, .. } => {
                &&& after.len() >= min_keep
                &&& all_carried(before, after, false)
                &&& extremes_went(before, after, false)
            },
            Kind::Typical { min_keep, .. } => after.len() >= min_keep && all_carried(before, after, false),
            Kind::Xtc { min_keep, .. } => {
                &&& after.len() >= min_keep
                &&& all_carried(before, after, false)
                &&& extremes_went(before, after, true)
            },
            Kind::Dist { .. } => {
                &&& after.len() == before.len()
                &&& all_stay(before, after)
                &&& all_carried(before, after, false)
                &&& before.len() > 0 ==> selected is Some
                &&& choice_has_a_chance(after, selected)
            },
            Kind::Mirostat { .. } | Kind::MirostatV2 { .. } => {
                &&& all_carried(before, after, false)
                &&& extremes_went(before, after, false)
                &&& before.len() > 0 ==> selected is Some
                &&& choice_has_a_chance(after, selected)
            },
            Kind::Grammar { .. } => all_carried(before, after, true),
            Kind::TopK { .. } | Kind::Greedy => true,
        }
    }

    /// The choice that is taken from a stage: of a stage that chooses, the entry
    /// that `selected` names; of any other stage the choice as it was, which is
    /// the entry of the token that was chosen, and none where that went or
    /// nothing was chosen.
    pub open spec fn choice(
        self,
        before: Candidates,
        data: Seq<LlamaTokenData>,
        selected: int,
    ) -> Option<int> {
        if self.kind.selects() {
            named(data.len(), selected)
        } else {
            match before.selected_token() {
                Some(token) => place_of(data, token),
                None => None,
            }
        }
    }

    /// The set that is taken for what the stage made of `before`, from what the
    /// stage hands back: its entries, its word on their order, and the index of
    /// its choice. The order is taken as stated only where the entries bear it
    /// out.
    pub open spec fn made(
        self,
        before: Candidates,
        data: Seq<LlamaTokenData>,
        sorted: bool,
        selected: int,
    ) -> Candidates {
        before.with(data, sorted && descending(data), self.choice(before, data, selected))
    }

    /// Whether `after` may be taken for what the stage made of `before`: the
    /// stage computes on the scores, `after` is a well-formed set with no token
    /// that `before` lacks, and it has the shape that the kind of the stage
    /// settles.
    pub open spec fn permits(self, before: Candidates, after: Candidates) -> bool {
        &&& !self.kind.rank_only()
        &&& before.admits(after)
        &&& self.shape(before.data, after.data, after.selected)
    }

    /// The stage after it was told of `token`: the token is the newest that it
    /// remembers, and the oldest is forgotten where the window was full.
    pub open spec fn accept(self, token: LlamaToken) -> StageView {
        StageView { history: self.kind.window().trim(self.history.push(token)), ..self }
    }
}

/// One stage of a sampler.
#[derive(Debug)]
pub struct Stage {
    kind: StageKind,
    history: Vec<LlamaToken>,
}

impl View for Stage {
    type V = StageView;

    closed spec fn view(&self) -> StageView {
        StageView { kind: self.kind@, history: self.history@ }
    }
}

impl Stage {
    /// Holds of every value of the type.
    #[verifier::type_invariant]
    pub open spec fn well_formed(self) -> bool {
        self@.wf()
    }

    /// A stage of the given kind that has been told of nothing.
    pub(crate) fn fresh(kind: StageKind) -> (stage: Self)
        requires
            kind@.valid(),
        ensures
            stage@ == StageView::fresh(kind@),
            stage@.wf(),
    {
        Stage { kind, history: Vec::new() }
    }

    /// What the stage is.
    pub fn kind(&self) -> (kind: &StageKind)
        ensures
            kind@ == self@.kind,
            kind@.valid(),
    {
        proof {
            use_type_invariant(self);
        }
        &self.kind
    }

    /// The accepted tokens that the stage remembers, oldest first.
    pub fn history(&self) -> (history: &Vec<LlamaToken>)
        ensures
            history@ == self@.history,
    {
        &self.history
    }

    /// Whether the stage goes by the order of the scores alone.
    pub fn is_rank_only(&self) -> (yes: bool)
        ensures
            yes == self@.kind.rank_only(),
    {
        match &self.kind {
            StageKind::Greedy => true,
            StageKind::TopK { .. } => true,
            StageKind::Temp { t } => t.is_non_positive(),
            _ => false,
        }
    }

    /// The order and the choice that are taken from what the stage hands back:
    /// the order as stated where the entries bear it out, and the choice that
    /// `selected` names where the stage chooses, else the choice as it was.
    pub fn settle(
        &self,
        before: &LlamaTokenDataArray,
        data: &Vec<LlamaTokenData>,
        sorted: bool,
        selected: i64,
    ) -> (taken: (bool, Option<usize>))
        ensures
            taken.0 == self@.made(before@, data@, sorted, selected as int).sorted,
            spec_position(taken.1) == self@.made(before@, data@, sorted, selected as int).selected,
    {
        let order = sorted && is_descending(data);
        let choice = if self.kind.selects() {
            if 0 <= selected && (selected as u64) < (data.len() as u64) {
                Some(selected as usize)
            } else {
                None
            }
        } else {
            match before.selected_token() {
                Some(token) => find_place(data, token),
                None => None,
            }
        };
        (order, choice)
    }

    /// Whether the entries in `after`, with the choice `selected`, have the
    /// shape that the kind of the stage settles for what it makes of `before`.
    pub fn has_shape(
        &self,
        before: &LlamaTokenDataArray,
        after: &Vec<LlamaTokenData>,
        selected: Option<usize>,
    ) -> (yes: bool)
        ensures
            yes == self@.shape(before@.data, after@, spec_position(selected)),
    {
        proof {
            use_type_invariant(before);
        }
        let before = before.data();
        match &self.kind {
            StageKind::Temp { t } => stands_in_place(before, after) && divides_all(t, before, after),
            StageKind::Dry { .. } => stands_in_place(before, after) && leaves_alone(
                &self.history,
                before,
                after,
            ) && (!self.kind.lowers() || raises_none(before, after)) && (!self.kind.is_neutral()
                || same_entries(before, after)),
            StageKind::Penalties { .. } => stands_in_place(before, after) && leaves_alone(
                &self.history,
                before,
                after,
            ) && (!self.kind.lowers() || raises_none(before, after)) && (!self.kind.is_neutral()
                || same_entries(before, after)) && (!self.kind.lowers_strictly() || lowers_remembered(
                &self.history,
                before,
                after,
            )),
            StageKind::TempExt { .. } => after.len() == before.len() && keeps_all(before, after),
            StageKind::TopP { min_keep, .. } | StageKind::MinP { min_keep, .. } => after.len()
                >= *min_keep && carries_all(before, after, false) && only_extremes_went(
                before,
                after,
                false,
            ),
            StageKind::Typical { min_keep, .. } => after.len() >= *min_keep && carries_all(
                before,
                after,
                false,
            ),
            StageKind::Xtc { min_keep, .. } => after.len() >= *min_keep && carries_all(
                before,
                after,
                false,
            ) && only_extremes_went(before, after, true),
            StageKind::Dist { .. } => after.len() == before.len() && keeps_all(before, after) && carries_all(
                before,
                after,
                false,
            ) && (
            before.len() == 0 || selected.is_some()) && chooses_with_a_chance(after, selected),
            StageKind::Mirostat { .. } | StageKind::MirostatV2 { .. } => carries_all(before, after, false)
                && only_extremes_went(before, after, false) && (before.len() == 0 || selected.is_some())
                && chooses_with_a_chance(after, selected),
            StageKind::Grammar { .. } => carries_all(before, after, true),
            StageKind::TopK { .. } | StageKind::Greedy => true,
        }
    }

    /// Tells the stage that `token` was chosen. A stage with a window takes the
    /// token in as its newest and, where the window was full, forgets its oldest.
    pub fn accept(&mut self, token: LlamaToken)
        ensures
            final(self)@ == old(self)@.accept(token),
            final(self)@.wf(),
    {
        proof {
            use_type_invariant(&*self);
        }
        let ghost window = self@.kind.window();
        let ghost told = self@.history.push(token);
        let mut history: Vec<LlamaToken> = Vec::new();
        core::mem::swap(&mut self.history, &mut history);
        match &self.kind {
            StageKind::Penalties { penalty_last_n, .. } | StageKind::Dry { penalty_last_n, .. } => {
                let last_n: i32 = *penalty_last_n;
                if last_n > 0 {
                    if history.len() >= last_n as usize {
                        let _ = history.remove(0);
                    }
                    history.push(token);
                } else if last_n < 0 {
                    history.push(token);
                }
            },
            StageKind::Grammar { .. } => {
                history.push(token);
            },
            _ => {},
        }
        assert(history@ =~= window.trim(told));
        self.history = history;
    }
}

} // verus!
