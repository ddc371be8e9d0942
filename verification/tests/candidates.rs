use llama_cpp_2::scalar::Scalar;
use llama_cpp_2::token::data::LlamaTokenData;
use llama_cpp_2::token::data_array::{
    entries_are_proper, ids_are_distinct, is_descending, LlamaTokenDataArray,
};
use llama_cpp_2::token::LlamaToken;

fn scalar(x: f32) -> Scalar {
    Scalar::from_bits(x.to_bits())
}

fn number(x: Scalar) -> f32 {
    f32::from_bits(x.to_bits())
}

fn entry(id: i32, logit: f32) -> LlamaTokenData {
    LlamaTokenData::new(LlamaToken(id), scalar(logit), scalar(0.0))
}

fn entries(logits: &[f32]) -> Vec<LlamaTokenData> {
    logits.iter().enumerate().map(|(i, l)| entry(i as i32, *l)).collect()
}

fn array(logits: &[f32]) -> LlamaTokenDataArray {
    LlamaTokenDataArray::new(entries(logits), false).unwrap()
}

fn ids(array: &LlamaTokenDataArray) -> Vec<i32> {
    array.data().iter().map(|d| d.id().0).collect()
}

fn logits(array: &LlamaTokenDataArray) -> Vec<f32> {
    array.data().iter().map(|d| number(d.logit())).collect()
}

#[test]
fn token_wraps_its_identifier() {
    assert_eq!(LlamaToken::new(7), LlamaToken(7));
    assert_eq!(LlamaToken::new(7).0, 7);
    assert_ne!(LlamaToken::new(7), LlamaToken(8));
}

#[test]
fn token_data_keeps_its_parts() {
    let d = LlamaTokenData::new(LlamaToken(5), scalar(1.5), scalar(0.25));
    assert_eq!(d.id(), LlamaToken(5));
    assert_eq!(number(d.logit()), 1.5);
    assert_eq!(number(d.p()), 0.25);
}

#[test]
fn distinct_ids_are_told_from_repeated_ones() {
    assert!(ids_are_distinct(&vec![]));
    assert!(ids_are_distinct(&vec![entry(3, 0.0)]));
    assert!(ids_are_distinct(&vec![entry(3, 0.0), entry(-3, 0.0), entry(0, 0.0)]));
    assert!(!ids_are_distinct(&vec![entry(3, 0.0), entry(4, 1.0), entry(3, 2.0)]));
    assert!(!ids_are_distinct(&vec![entry(1, 0.0), entry(1, 0.0)]));
}

fn with_p(id: i32, p: f32) -> LlamaTokenData {
    LlamaTokenData::new(LlamaToken(id), scalar(0.0), scalar(p))
}

#[test]
fn token_numbers_below_zero_are_not_proper() {
    assert!(entry(0, 0.0).is_proper());
    assert!(entry(i32::MAX, -5.0).is_proper());
    assert!(!entry(-1, 0.0).is_proper());
    assert!(!entry(i32::MIN, 0.0).is_proper());
    assert!(entries_are_proper(&vec![]));
    assert!(entries_are_proper(&vec![entry(0, 0.0), entry(i32::MAX, 0.0)]));
    assert!(!entries_are_proper(&vec![entry(0, 0.0), entry(-1, 0.0)]));
}

#[test]
fn probabilities_lie_between_zero_and_one() {
    for p in [0.0f32, -0.0, 1.0e-30, 0.25, 0.999, 1.0] {
        assert!(with_p(3, p).is_proper());
    }
    for p in [-1.0e-30f32, -0.5, 1.000_000_1, 2.0, f32::INFINITY, f32::NEG_INFINITY, f32::NAN] {
        assert!(!with_p(3, p).is_proper());
    }
    assert!(entries_are_proper(&vec![with_p(0, 0.5), with_p(1, 0.5)]));
    assert!(!entries_are_proper(&vec![with_p(0, 0.5), with_p(1, 1.5)]));
}

#[test]
fn new_refuses_a_probability_outside_zero_and_one() {
    assert!(LlamaTokenDataArray::new(vec![with_p(0, 0.5), with_p(1, 1.5)], false).is_none());
    assert!(LlamaTokenDataArray::new(vec![with_p(0, -0.5)], false).is_none());
    assert!(LlamaTokenDataArray::new(vec![with_p(0, 0.5), with_p(1, 0.5)], false).is_some());
}

#[test]
fn replace_refuses_a_probability_outside_zero_and_one() {
    let mut a = array(&[0.0, 0.0]);
    assert!(!a.replace(vec![with_p(0, 0.5), with_p(1, 1.5)], false, None));
    assert!(a.replace(vec![with_p(0, 0.25), with_p(1, 0.75)], false, None));
    assert_eq!(number(a.data()[1].p()), 0.75);
}

#[test]
fn new_refuses_a_token_number_below_zero() {
    assert!(LlamaTokenDataArray::new(vec![entry(1, 0.0), entry(-1, 1.0)], false).is_none());
    assert!(LlamaTokenDataArray::new(vec![entry(1, 0.0), entry(0, 1.0)], false).is_some());
}

#[test]
fn descending_order_is_recognised() {
    assert!(is_descending(&vec![]));
    assert!(is_descending(&entries(&[1.0])));
    assert!(is_descending(&entries(&[3.0, 2.0, 2.0, -1.0])));
    assert!(is_descending(&entries(&[0.0, -0.0, 0.0])));
    assert!(!is_descending(&entries(&[3.0, 2.0, 2.5])));
    assert!(!is_descending(&entries(&[-1.0, 0.0])));
}

#[test]
fn new_takes_distinct_tokens() {
    let a = LlamaTokenDataArray::new(entries(&[0.0, 1.0, 2.0]), false).unwrap();
    assert_eq!(a.len(), 3);
    assert!(!a.is_sorted());
    assert_eq!(a.selected(), None);
    assert_eq!(a.selected_token(), None);
    assert_eq!(ids(&a), vec![0, 1, 2]);
    assert_eq!(logits(&a), vec![0.0, 1.0, 2.0]);
}

#[test]
fn new_takes_an_empty_set() {
    let a = LlamaTokenDataArray::new(vec![], true).unwrap();
    assert_eq!(a.len(), 0);
    assert!(a.is_sorted());
    assert_eq!(a.selected_token(), None);
}

#[test]
fn new_refuses_a_token_that_occurs_twice() {
    assert!(LlamaTokenDataArray::new(vec![entry(1, 0.0), entry(2, 1.0), entry(1, 2.0)], false).is_none());
}

#[test]
fn new_refuses_a_false_claim_of_order() {
    assert!(LlamaTokenDataArray::new(entries(&[0.0, 1.0]), true).is_none());
    let a = LlamaTokenDataArray::new(entries(&[1.0, 0.0]), true).unwrap();
    assert!(a.is_sorted());
}

#[test]
fn from_scores_numbers_the_tokens() {
    let scores = vec![scalar(0.5), scalar(-1.0), scalar(2.0)];
    let a = LlamaTokenDataArray::from_scores(&scores, false);
    assert_eq!(a.len(), 3);
    assert_eq!(ids(&a), vec![0, 1, 2]);
    assert_eq!(logits(&a), vec![0.5, -1.0, 2.0]);
    assert!(a.data().iter().all(|d| d.p().to_bits() == 0));
    assert!(!a.is_sorted());
    assert_eq!(a.selected_token(), None);
}

#[test]
fn from_scores_takes_the_callers_word_on_order() {
    let scores = vec![scalar(2.0), scalar(1.0)];
    let a = LlamaTokenDataArray::from_scores(&scores, true);
    assert!(a.is_sorted());
    let empty = LlamaTokenDataArray::from_scores(&[], false);
    assert_eq!(empty.len(), 0);
}

#[test]
fn greedy_takes_the_first_of_equal_maxima() {
    let mut a = array(&[1.0, 3.0, 3.0, 2.0]);
    a.select_greedy();
    assert_eq!(a.selected(), Some(1));
    assert_eq!(a.selected_token(), Some(LlamaToken(1)));
    assert_eq!(logits(&a), vec![1.0, 3.0, 3.0, 2.0]);
    assert!(!a.is_sorted());
}

#[test]
fn greedy_takes_the_two_zeros_as_equal() {
    let mut a = array(&[-0.0, 0.0, -1.0]);
    a.select_greedy();
    assert_eq!(a.selected_token(), Some(LlamaToken(0)));
}

#[test]
fn greedy_on_negative_scores() {
    let mut a = array(&[-3.0, -1.0, -2.0, f32::NEG_INFINITY]);
    a.select_greedy();
    assert_eq!(a.selected_token(), Some(LlamaToken(1)));
}

#[test]
fn greedy_on_an_empty_set_chooses_nothing() {
    let mut a = array(&[]);
    a.select_greedy();
    assert_eq!(a.selected(), None);
    assert_eq!(a.selected_token(), None);
}

#[test]
fn greedy_gives_the_same_choice_for_the_same_set() {
    let scores = [0.25, 7.5, -3.0, 7.5, 1.0];
    let mut a = array(&scores);
    let mut b = array(&scores);
    a.select_greedy();
    b.select_greedy();
    assert_eq!(a.selected_token(), b.selected_token());
    assert_eq!(a.selected_token(), Some(LlamaToken(1)));
    a.select_greedy();
    assert_eq!(a.selected_token(), Some(LlamaToken(1)));
}

#[test]
fn keep_max_leaves_one_score() {
    let mut a = array(&[0.0, 1.0, 2.0, 1.5]);
    a.keep_max();
    assert_eq!(logits(&a), vec![f32::NEG_INFINITY, f32::NEG_INFINITY, 2.0, f32::NEG_INFINITY]);
    assert_eq!(ids(&a), vec![0, 1, 2, 3]);
    assert_eq!(a.data().iter().filter(|d| number(d.logit()).is_finite()).count(), 1);
    assert_eq!(a.selected_token(), None);
}

#[test]
fn keep_max_keeps_the_first_of_equal_maxima() {
    let mut a = array(&[5.0, 1.0, 5.0]);
    a.keep_max();
    assert_eq!(logits(&a), vec![5.0, f32::NEG_INFINITY, f32::NEG_INFINITY]);
}

#[test]
fn keep_max_keeps_probabilities_choice_and_order_flag() {
    let data = vec![
        LlamaTokenData::new(LlamaToken(4), scalar(3.0), scalar(0.75)),
        LlamaTokenData::new(LlamaToken(9), scalar(1.0), scalar(0.25)),
    ];
    let mut a = LlamaTokenDataArray::new(data, true).unwrap();
    a.select_greedy();
    a.keep_max();
    assert!(a.is_sorted());
    assert_eq!(a.selected_token(), Some(LlamaToken(4)));
    assert_eq!(number(a.data()[0].p()), 0.75);
    assert_eq!(number(a.data()[1].p()), 0.25);
    assert_eq!(logits(&a), vec![3.0, f32::NEG_INFINITY]);
}

#[test]
fn keep_max_on_an_empty_set() {
    let mut a = array(&[]);
    a.keep_max();
    assert_eq!(a.len(), 0);
}

#[test]
fn top_k_keeps_exactly_k_sorted_entries_of_the_set() {
    let scores = [0.5, 4.0, -1.0, 3.0, 2.0, 9.0];
    for k in 0..=scores.len() {
        let mut a = array(&scores);
        a.keep_top_k(k as i32);
        assert_eq!(a.len(), k);
        assert!(a.is_sorted());
        assert!(is_descending(a.data()));
        assert!(ids_are_distinct(a.data()));
        for d in a.data().iter() {
            assert_eq!(number(d.logit()), scores[d.id().0 as usize]);
        }
    }
    let mut a = array(&scores);
    a.keep_top_k(3);
    assert_eq!(ids(&a), vec![5, 1, 3]);
    assert_eq!(logits(&a), vec![9.0, 4.0, 3.0]);
}

#[test]
fn top_k_beyond_the_size_sorts_everything() {
    let mut a = array(&[1.0, 3.0, 2.0]);
    a.keep_top_k(10);
    assert_eq!(ids(&a), vec![1, 2, 0]);
    assert!(a.is_sorted());
    let mut b = array(&[1.0, 3.0, 2.0]);
    b.keep_top_k(3);
    assert_eq!(ids(&b), vec![1, 2, 0]);
    let mut c = array(&[1.0, 3.0, 2.0]);
    c.keep_top_k(i32::MAX);
    assert_eq!(ids(&c), vec![1, 2, 0]);
}

#[test]
fn top_k_of_zero_keeps_nothing() {
    let mut a = array(&[1.0, 3.0, 2.0]);
    a.keep_top_k(0);
    assert_eq!(a.len(), 0);
    assert!(a.is_sorted());
}

#[test]
fn top_k_below_zero_leaves_the_set_as_it_is() {
    for k in [-1, -40, i32::MIN] {
        let mut a = array(&[1.0, 3.0, 2.0]);
        a.select_greedy();
        a.keep_top_k(k);
        assert_eq!(ids(&a), vec![0, 1, 2]);
        assert_eq!(logits(&a), vec![1.0, 3.0, 2.0]);
        assert!(!a.is_sorted());
        assert_eq!(a.selected_token(), Some(LlamaToken(1)));
    }
}

#[test]
fn the_vocabulary_is_as_large_as_the_score_vector() {
    let scores = vec![scalar(0.5), scalar(-1.0), scalar(2.0)];
    let mut a = LlamaTokenDataArray::from_scores(&scores, false);
    assert_eq!(a.n_vocab(), 3);
    a.keep_top_k(1);
    assert_eq!(a.n_vocab(), 3);
    assert!(a.replace(vec![entry(2, 1.0)], true, Some(0)));
    assert_eq!(a.n_vocab(), 3);
    let b = LlamaTokenDataArray::new(vec![entry(i32::MAX, 0.0)], false).unwrap();
    assert_eq!(b.n_vocab(), 0x8000_0000);
}

#[test]
fn top_k_keeps_equal_scores_in_their_order() {
    let mut a = array(&[2.0, 5.0, 2.0, 5.0, 2.0]);
    a.keep_top_k(4);
    assert_eq!(ids(&a), vec![1, 3, 0, 2]);
}

#[test]
fn top_k_of_a_sorted_set_is_its_front() {
    let mut a = LlamaTokenDataArray::new(
        vec![entry(7, 3.0), entry(2, 3.0), entry(9, 1.0), entry(4, 0.0)],
        true,
    )
    .unwrap();
    a.keep_top_k(2);
    assert_eq!(ids(&a), vec![7, 2]);
    assert!(a.is_sorted());
}

#[test]
fn top_k_forgets_the_choice() {
    let mut a = array(&[1.0, 3.0, 2.0]);
    a.select_greedy();
    assert_eq!(a.selected_token(), Some(LlamaToken(1)));
    a.keep_top_k(2);
    assert_eq!(a.selected_token(), None);
}

#[test]
fn top_k_on_an_empty_set() {
    let mut a = array(&[]);
    a.keep_top_k(3);
    assert_eq!(a.len(), 0);
    assert!(a.is_sorted());
}

#[test]
fn replace_takes_a_smaller_rescored_set() {
    let mut a = array(&[0.0, 1.0, 2.0]);
    let taken = a.replace(vec![entry(2, 4.0), entry(0, 0.5)], true, Some(1));
    assert!(taken);
    assert_eq!(ids(&a), vec![2, 0]);
    assert_eq!(logits(&a), vec![4.0, 0.5]);
    assert!(a.is_sorted());
    assert_eq!(a.selected(), Some(1));
    assert_eq!(a.selected_token(), Some(LlamaToken(0)));
}

#[test]
fn replace_refuses_a_token_that_was_not_there() {
    let mut a = array(&[0.0, 1.0, 2.0]);
    assert!(!a.replace(vec![entry(1, 4.0), entry(3, 0.5)], false, None));
    assert_eq!(ids(&a), vec![0, 1, 2]);
    assert_eq!(logits(&a), vec![0.0, 1.0, 2.0]);
}

#[test]
fn replace_refuses_a_token_that_occurs_twice() {
    let mut a = array(&[0.0, 1.0, 2.0]);
    assert!(!a.replace(vec![entry(1, 4.0), entry(1, 0.5)], false, None));
    assert_eq!(a.len(), 3);
}

#[test]
fn replace_refuses_a_false_claim_of_order() {
    let mut a = array(&[0.0, 1.0, 2.0]);
    assert!(!a.replace(vec![entry(0, 0.0), entry(1, 1.0)], true, None));
    assert!(a.replace(vec![entry(0, 0.0), entry(1, 1.0)], false, None));
    assert!(!a.is_sorted());
}

#[test]
fn replace_refuses_a_choice_beyond_the_entries() {
    let mut a = array(&[0.0, 1.0, 2.0]);
    a.select_greedy();
    assert!(!a.replace(vec![entry(0, 0.0), entry(1, 1.0)], false, Some(2)));
    assert_eq!(a.len(), 3);
    assert_eq!(a.selected_token(), Some(LlamaToken(2)));
    assert!(!a.replace(vec![], false, Some(0)));
    assert!(a.replace(vec![], true, None));
    assert_eq!(a.len(), 0);
}
