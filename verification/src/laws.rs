//! What holds of the stages that run here, of the tokens a sampler remembers,
//! and of the chains built from samplers.

use crate::outcome::{above_floor, carried, carried_from, is_first_place, normal, place_of};
use crate::rank::{
    descending, distinct_ids, first_max, holds, is_first_max, leads, lemma_first_max_exists,
    lemma_first_max_unique, lemma_sort_prefix_descending, lemma_sort_prefix_distinct,
    lemma_sort_prefix_dominates, lemma_sort_prefix_in_vocabulary, lemma_sort_prefix_len,
    lemma_sort_prefix_members, lemma_sort_prefix_proper,
};
use crate::sampling::SamplerView;
use crate::scalar::{lemma_code_bounds, Scalar};
use crate::stage::{Kind, StageView, Window};
use crate::token::data::LlamaTokenData;
use crate::token::data_array::{lemma_keep_max_wf, Candidates};
use crate::token::LlamaToken;
use vstd::prelude::*;

verus! {

/// A temperature at or below zero is a hard maximum. Of a set with an entry it
/// leaves the first entry of greatest score as it was and puts every other
/// score down to negative infinity; tokens, probabilities and order stay. Where
/// the greatest score lies above negative infinity, it is the only score left
/// that does.
pub proof fn lemma_cold_temperature_keeps_the_maximum(c: Candidates, t: Scalar)
    requires
        t.code() <= 0,
        c.data.len() > 0,
    ensures
        ({
            let after = (Kind::Temp { t }).apply(c);
            let m = first_max(c.data);
            &&& is_first_max(c.data, m)
            &&& after.data.len() == c.data.len()
            &&& after.data[m] == c.data[m]
            &&& forall|j: int|
                0 <= j < c.data.len() && j != m ==> {
                    &&& (#[trigger] after.data[j]).logit == Scalar::neg_infinity()
                    &&& after.data[j].id == c.data[j].id
                    &&& after.data[j].p == c.data[j].p
                }
            &&& c.data[m].rank() > Scalar::neg_infinity().code() ==> forall|j: int|
                0 <= j < c.data.len() ==> ((#[trigger] after.data[j]).rank() > Scalar::neg_infinity().code()
                    <==> j == m)
        }),
{
    lemma_first_max_exists(c.data);
    lemma_code_bounds(t);
}

/// The cut to the `k` best of a set of at least `k` entries leaves exactly `k`
/// entries, in descending order of score. Each of them is an entry of the set
/// as it was, no token occurs twice among them, and an entry that was cut is
/// ordered at or below each that stays.
pub proof fn lemma_top_k_keeps_the_k_best(c: Candidates, k: int)
    requires
        c.wf(),
        0 <= k <= c.data.len(),
    ensures
        c.top_k(k).data.len() == k,
        descending(c.top_k(k).data),
        forall|i: int| 0 <= i < k ==> c.data.contains(#[trigger] c.top_k(k).data[i]),
        distinct_ids(c.top_k(k).data),
        leads(c.top_k(k).data, c.data),
        c.top_k(k).wf(),
{
    lemma_top_k_is_well_formed(c, k);
}

/// The cut to the `k` best leaves a well-formed set for every `k`: all entries
/// where `k` exceeds their number, none where `k` is zero, and the set as it
/// was where `k` is below zero.
pub proof fn lemma_top_k_is_well_formed(c: Candidates, k: int)
    requires
        c.wf(),
    ensures
        c.top_k(k).wf(),
        c.top_k(k).vocab == c.vocab,
        k >= 0 ==> c.top_k(k).data.len() == Candidates::kept(c.data.len(), k),
        k >= 0 ==> leads(c.top_k(k).data, c.data),
        k < 0 ==> c.top_k(k) == c,
{
    let n = Candidates::kept(c.data.len(), k);
    lemma_sort_prefix_len(c.data, n);
    lemma_sort_prefix_members(c.data, n);
    lemma_sort_prefix_descending(c.data, n);
    lemma_sort_prefix_distinct(c.data, n);
    lemma_sort_prefix_proper(c.data, n);
    lemma_sort_prefix_in_vocabulary(c.data, n, c.vocab);
    lemma_sort_prefix_dominates(c.data, n);
}

/// The greedy stage chooses, of a set with an entry, an entry whose score none
/// exceeds and no earlier entry reaches, and changes nothing else. There is
/// one such entry only, so the same set gives the same choice.
pub proof fn lemma_greedy_chooses_the_first_maximum(c: Candidates)
    requires
        c.data.len() > 0,
    ensures
        c.greedy().selected == Some(first_max(c.data)),
        is_first_max(c.data, first_max(c.data)),
        forall|m: int| is_first_max(c.data, m) ==> m == first_max(c.data),
        c.greedy().data == c.data,
        c.greedy().sorted == c.sorted,
        c.wf() ==> c.greedy().wf(),
{
    lemma_first_max_exists(c.data);
    assert forall|m: int| is_first_max(c.data, m) implies m == first_max(c.data) by {
        lemma_first_max_unique(c.data, m, first_max(c.data));
    }
}

/// A stage that goes by order alone leaves a well-formed set well formed.
pub proof fn lemma_apply_keeps_well_formed(kind: Kind, c: Candidates)
    requires
        c.wf(),
    ensures
        kind.apply(c).wf(),
{
    match kind {
        Kind::Greedy => {
            if c.data.len() > 0 {
                lemma_greedy_chooses_the_first_maximum(c);
            }
        },
        Kind::TopK { k } => {
            lemma_top_k_is_well_formed(c, k as int);
        },
        Kind::Temp { t } => {
            if t.code() <= 0 {
                lemma_keep_max_wf(c);
            }
        },
        _ => {},
    }
}

/// A run of stages in two parts is the run of the whole: the second part works
/// on what the first left. So the stages take effect in the order in which the
/// sampler holds them.
pub proof fn lemma_run_in_order(v: SamplerView, from: int, mid: int, to: int, c: Candidates)
    requires
        0 <= from <= mid <= to <= v.stages.len(),
    ensures
        v.run(from, to, c) == v.run(mid, to, v.run(from, mid, c)),
    decreases mid - from,
{
    if from < mid {
        lemma_run_in_order(v, from + 1, mid, to, v.stages[from].kind.apply(c));
    }
}

/// A run goes by the stages in its range alone: two samplers that hold the same
/// stages there, the second `shift` places earlier, make the same of a set.
pub proof fn lemma_run_of_the_same_stages(
    v: SamplerView,
    w: SamplerView,
    from: int,
    to: int,
    shift: int,
    c: Candidates,
)
    requires
        0 <= from <= to <= v.stages.len(),
        0 <= from - shift,
        to - shift <= w.stages.len(),
        forall|i: int| from <= i < to ==> (#[trigger] v.stages[i]) == w.stages[i - shift],
    ensures
        v.run(from, to, c) == w.run(from - shift, to - shift, c),
    decreases to - from,
{
    if from < to {
        assert(v.stages[from] == w.stages[from - shift]);
        lemma_run_of_the_same_stages(v, w, from + 1, to, shift, v.stages[from].kind.apply(c));
    }
}

/// A chain of two samplers runs the first, then the second on what the first
/// left.
pub proof fn lemma_chain_runs_one_sampler_after_the_other(
    a: SamplerView,
    b: SamplerView,
    track_counters: bool,
    c: Candidates,
)
    ensures
        ({
            let chain = SamplerView { stages: SamplerView::concat(seq![a, b]), track_counters };
            &&& chain.stages == a.stages + b.stages
            &&& chain.run(0, chain.stages.len() as int, c) == b.run(
                0,
                b.stages.len() as int,
                a.run(0, a.stages.len() as int, c),
            )
        }),
{
    let both = seq![a, b];
    assert(both.drop_last() =~= seq![a]);
    assert(seq![a].drop_last() =~= Seq::<SamplerView>::empty());
    assert(SamplerView::concat(seq![a]) =~= a.stages) by {
        reveal_with_fuel(SamplerView::concat, 2);
    }
    assert(SamplerView::concat(both) =~= a.stages + b.stages) by {
        reveal_with_fuel(SamplerView::concat, 3);
    }
    let chain = SamplerView { stages: a.stages + b.stages, track_counters };
    let mid = a.stages.len() as int;
    let end = chain.stages.len() as int;
    lemma_run_in_order(chain, 0, mid, end, c);
    lemma_run_of_the_same_stages(chain, a, 0, mid, 0, c);
    lemma_run_of_the_same_stages(chain, b, mid, end, mid, chain.run(0, mid, c));
}

/// A run leaves a well-formed set well formed.
pub proof fn lemma_run_keeps_well_formed(v: SamplerView, from: int, to: int, c: Candidates)
    requires
        c.wf(),
    ensures
        v.run(from, to, c).wf(),
    decreases to - from,
{
    if 0 <= from < to <= v.stages.len() {
        lemma_apply_keeps_well_formed(v.stages[from].kind, c);
        lemma_run_keeps_well_formed(v, from + 1, to, v.stages[from].kind.apply(c));
    }
}

/// The place in a chain of the first stage of the sampler at `index`.
pub open spec fn offset(samplers: Seq<SamplerView>, index: int) -> int {
    SamplerView::concat(samplers.subrange(0, index)).len() as int
}

/// A chain holds every stage of every sampler it was built from exactly once:
/// stage `j` of sampler `i` stands at place `offset(i) + j`, the places of one
/// sampler end where those of the next begin, and the chain has no other place.
pub proof fn lemma_chain_holds_every_stage_once(samplers: Seq<SamplerView>, i: int, j: int)
    requires
        0 <= i < samplers.len(),
        0 <= j < samplers[i].stages.len(),
    ensures
        offset(samplers, 0) == 0,
        offset(samplers, i + 1) == offset(samplers, i) + samplers[i].stages.len(),
        offset(samplers, samplers.len() as int) == SamplerView::concat(samplers).len(),
        0 <= offset(samplers, i) + j < SamplerView::concat(samplers).len(),
        SamplerView::concat(samplers)[offset(samplers, i) + j] == samplers[i].stages[j],
    decreases samplers.len(),
{
    assert(samplers.subrange(0, 0) =~= Seq::<SamplerView>::empty());
    assert(samplers.subrange(0, samplers.len() as int) =~= samplers);
    assert(samplers.subrange(0, i + 1).drop_last() =~= samplers.subrange(0, i));
    let front = samplers.drop_last();
    if i == samplers.len() - 1 {
        assert(samplers.subrange(0, i) =~= front);
    } else {
        lemma_chain_holds_every_stage_once(front, i, j);
        assert(front.subrange(0, i) =~= samplers.subrange(0, i));
        assert(front.subrange(0, i + 1) =~= samplers.subrange(0, i + 1));
    }
}

/// Telling a sampler of tokens in two parts is telling it of all of them.
pub proof fn lemma_accept_many_in_parts(v: SamplerView, first: Seq<LlamaToken>, second: Seq<LlamaToken>)
    ensures
        v.accept_many(first + second) == v.accept_many(first).accept_many(second),
    decreases second.len(),
{
    if second.len() == 0 {
        assert(first + second =~= first);
    } else {
        lemma_accept_many_in_parts(v, first, second.drop_last());
        assert((first + second).drop_last() =~= first + second.drop_last());
        assert((first + second).last() == second.last());
    }
}

/// The window keeps the newest tokens: trimming, then taking in a token and
/// trimming again, is trimming once with the token taken in.
pub proof fn lemma_trim_push(window: Window, tokens: Seq<LlamaToken>, token: LlamaToken)
    ensures
        window.trim(window.trim(tokens).push(token)) == window.trim(tokens.push(token)),
{
    assert(window.trim(window.trim(tokens).push(token)) =~= window.trim(tokens.push(token)));
}

/// Telling a sampler of tokens changes what its stages remember and nothing
/// else: each stage is what it was, and remembers of its former memory followed
/// by the tokens as much as its window holds, the newest.
pub proof fn lemma_accept_many_remembers_the_newest(v: SamplerView, tokens: Seq<LlamaToken>, i: int)
    requires
        v.wf(),
        0 <= i < v.stages.len(),
    ensures
        v.accept_many(tokens).track_counters == v.track_counters,
        v.accept_many(tokens).stages.len() == v.stages.len(),
        v.accept_many(tokens).stages[i].kind == v.stages[i].kind,
        v.accept_many(tokens).stages[i].history == v.stages[i].kind.window().trim(
            v.stages[i].history + tokens,
        ),
        v.accept_many(tokens).stages[i].wf(),
    decreases tokens.len(),
{
    let window = v.stages[i].kind.window();
    if tokens.len() == 0 {
        assert(v.stages[i].history + tokens =~= v.stages[i].history);
    } else {
        let front = tokens.drop_last();
        lemma_accept_many_remembers_the_newest(v, front, i);
        lemma_trim_push(window, v.stages[i].history + front, tokens.last());
        assert((v.stages[i].history + front).push(tokens.last()) =~= v.stages[i].history + tokens);
        lemma_trim_push(window, v.stages[i].history + tokens, tokens.last());
        assert(window.trim(window.trim(v.stages[i].history + tokens)) =~= window.trim(
            v.stages[i].history + tokens,
        ));
    }
}

/// A penalties stage that looks back `penalty_last_n` tokens remembers each of
/// the last `penalty_last_n` tokens it was told of: the token at `at` is in its
/// memory when it is among them.
pub proof fn lemma_penalties_remember_a_recent_token(
    v: SamplerView,
    tokens: Seq<LlamaToken>,
    i: int,
    at: int,
)
    requires
        v.wf(),
        0 <= i < v.stages.len(),
        v.stages[i].kind matches Kind::Penalties { penalty_last_n, .. } && penalty_last_n > 0
            && 0 <= at < tokens.len() && tokens.len() - at <= penalty_last_n,
    ensures
        v.accept_many(tokens).stages[i].history.contains(tokens[at]),
{
    lemma_accept_many_remembers_the_newest(v, tokens, i);
    let all = v.stages[i].history + tokens;
    let kept = v.stages[i].kind.window().trim(all);
    let rank = all.len() - (tokens.len() - at);
    assert(all[rank] == tokens[at]);
    if all.len() <= kept.len() {
        assert(kept[rank] == tokens[at]);
    } else {
        assert(kept[kept.len() - (tokens.len() - at)] == tokens[at]);
    }
}

/// Of whatever a penalties stage that penalises is permitted to make of a set:
/// a token that the stage remembers does not come out ordered above a
/// candidate of the same score that it does not remember. The one may be
/// lowered; the other stays as it was.
pub proof fn lemma_penalties_rank_a_remembered_token_no_higher(
    stage: StageView,
    before: Candidates,
    after: Candidates,
    told: int,
    untold: int,
)
    requires
        stage.kind is Penalties,
        stage.kind.lowers(),
        stage.permits(before, after),
        0 <= told < before.data.len(),
        0 <= untold < before.data.len(),
        stage.history.contains(before.data[told].id),
        !stage.history.contains(before.data[untold].id),
        before.data[told].rank() == before.data[untold].rank(),
    ensures
        after.data[untold] == before.data[untold],
        after.data[told].id == before.data[told].id,
        after.data[told].rank() <= after.data[untold].rank(),
{
}

/// Of whatever a penalties stage with a repeat penalty above one is permitted
/// to make of a set: a token that the stage remembers comes out ordered
/// strictly below a candidate of the same score that it does not remember,
/// where that score is a normal number other than zero. The one is lowered;
/// the other stays as it was.
pub proof fn lemma_penalties_rank_a_remembered_token_lower(
    stage: StageView,
    before: Candidates,
    after: Candidates,
    told: int,
    untold: int,
)
    requires
        stage.kind is Penalties,
        stage.kind.lowers_strictly(),
        stage.permits(before, after),
        0 <= told < before.data.len(),
        0 <= untold < before.data.len(),
        stage.history.contains(before.data[told].id),
        !stage.history.contains(before.data[untold].id),
        before.data[told].rank() == before.data[untold].rank(),
        normal(before.data[told].rank()),
    ensures
        after.data[untold] == before.data[untold],
        after.data[told].id == before.data[told].id,
        after.data[told].rank() < after.data[untold].rank(),
{
}

/// Penalties and a repetition detector whose parameters are neutral are
/// permitted to change no entry.
pub proof fn lemma_neutral_penalties_change_nothing(stage: StageView, before: Candidates, after: Candidates)
    requires
        stage.kind is Penalties || stage.kind is Dry,
        stage.kind.neutral(),
        stage.permits(before, after),
    ensures
        after.data == before.data,
{
}

/// A stage that computes on the scores and does not choose leaves the choice
/// as it was: whatever it hands back, the token that was chosen is chosen
/// where it stays, and nothing is chosen where nothing was.
pub proof fn lemma_a_stage_that_does_not_choose_keeps_the_choice(
    stage: StageView,
    before: Candidates,
    data: Seq<LlamaTokenData>,
    sorted: bool,
    selected: int,
)
    requires
        !stage.kind.selects(),
    ensures
        ({
            let made = stage.made(before, data, sorted, selected);
            &&& before.selected_token() is None ==> made.selected is None
            &&& made.selected is Some ==> made.selected_token() == before.selected_token()
            &&& before.selected_token() matches Some(token) ==> (made.selected is Some <==> holds(
                data,
                token,
            ))
        }),
{
    if let Some(token) = before.selected_token() {
        if holds(data, token) {
            lemma_first_place_exists(data, token);
        }
    }
}

/// Where an entry stands for a token, a first one does.
pub proof fn lemma_first_place_exists(data: Seq<LlamaTokenData>, token: LlamaToken)
    requires
        holds(data, token),
    ensures
        is_first_place(data, token, place_of(data, token)->0),
    decreases data.len(),
{
    let front = data.drop_last();
    let last = data.len() - 1;
    if holds(front, token) {
        lemma_first_place_exists(front, token);
        let place = place_of(front, token)->0;
        assert(data[place] == front[place]);
        assert forall|i: int| 0 <= i < place implies (#[trigger] data[i]).id != token by {
            assert(front[i].id != token);
        }
        assert(is_first_place(data, token, place));
    } else {
        let j = choose|j: int| 0 <= j < data.len() && (#[trigger] data[j]).id == token;
        if j < last {
            assert(front[j].id == token);
        }
        assert forall|i: int| 0 <= i < last implies (#[trigger] data[i]).id != token by {
            if data[i].id == token {
                assert(front[i].id == token);
            }
        }
        assert(is_first_place(data, token, last));
    }
}

/// A random draw behind a hard maximum chooses the maximum: of a set of which
/// a temperature at or below zero has left one score above negative infinity,
/// whatever the draw is permitted to make has the token of that score chosen.
pub proof fn lemma_a_draw_behind_a_hard_maximum_chooses_the_maximum(
    stage: StageView,
    c: Candidates,
    after: Candidates,
)
    requires
        stage.kind is Dist,
        c.wf(),
        c.data.len() > 0,
        above_floor(c.data[first_max(c.data)]),
        stage.permits(c.keep_max(), after),
    ensures
        after.selected_token() == Some(c.data[first_max(c.data)].id),
{
    lemma_first_max_exists(c.data);
    lemma_keep_max_wf(c);
    let hard = c.keep_max();
    let m = first_max(c.data);
    assert(hard.data[m] == c.data[m]);
    assert(holds(after.data, hard.data[m].id));
    let j = choose|j: int| 0 <= j < after.data.len() && (#[trigger] after.data[j]).id == hard.data[m].id;
    assert(carried_from(hard.data, after.data[j], false));
    let source = choose|i: int|
        0 <= i < hard.data.len() && carried(#[trigger] hard.data[i], after.data[j], false);
    assert(source == m) by {
        if source < m {
            assert(hard.data[source].id != hard.data[m].id);
        } else if m < source {
            assert(hard.data[m].id != hard.data[source].id);
        }
    }
    assert(above_floor(after.data[j]));
    let chosen = after.selected->0;
    assert(carried_from(hard.data, after.data[chosen], false));
    let from = choose|i: int|
        0 <= i < hard.data.len() && carried(#[trigger] hard.data[i], after.data[chosen], false);
    if from != m {
        assert(hard.data[from].logit == Scalar::neg_infinity());
    }
}

/// Of whatever a nucleus cut, a minimum-p cut or a mirostat stage is permitted
/// to make of a set: where anything stays, a greatest score stays, so that
/// the greedy choice made behind the stage carries the score that it would
/// have carried in front of it.
pub proof fn lemma_a_cut_of_the_least_keeps_a_greatest_score(
    stage: StageView,
    before: Candidates,
    after: Candidates,
)
    requires
        stage.kind is TopP || stage.kind is MinP || stage.kind is Mirostat || stage.kind is MirostatV2,
        before.wf(),
        stage.permits(before, after),
        after.data.len() > 0,
    ensures
        before.data.len() > 0,
        after.data[first_max(after.data)].rank() == before.data[first_max(before.data)].rank(),
{
    assert(carried_from(before.data, after.data[0], false));
    lemma_first_max_exists(before.data);
    lemma_first_max_exists(after.data);
    let m = first_max(before.data);
    let a = first_max(after.data);
    assert(carried_from(before.data, after.data[a], false));
    let source = choose|j: int|
        0 <= j < before.data.len() && carried(#[trigger] before.data[j], after.data[a], false);
    assert(before.data[source].rank() <= before.data[m].rank());
    if holds(after.data, before.data[m].id) {
        let j = choose|j: int|
            0 <= j < after.data.len() && (#[trigger] after.data[j]).id == before.data[m].id;
        assert(carried_from(before.data, after.data[j], false));
        let i = choose|i: int|
            0 <= i < before.data.len() && carried(#[trigger] before.data[i], after.data[j], false);
        assert(i == m) by {
            if i < m {
                assert(before.data[i].id != before.data[m].id);
            } else if m < i {
                assert(before.data[m].id != before.data[i].id);
            }
        }
        assert(after.data[j].rank() <= after.data[a].rank());
    } else {
        assert(before.data[m].rank() <= after.data[a].rank());
    }
}

} // verus!
