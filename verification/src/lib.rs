//! Sampler chains for next-token selection.
//!
//! A [`sampling::LlamaSampler`] is an ordered run of stages. It is applied to
//! a [`token::data_array::LlamaTokenDataArray`], the candidates of one
//! generation step, and it is told of every token that the generation accepts,
//! so that the stages with a memory can keep it.
//!
//! The stages that go by the order of the scores alone run here: the greedy
//! choice, the cut to the `k` best, and the temperature at or below zero. A
//! stage that computes on the scores does not. [`sampling::LlamaSampler::apply`]
//! and [`sampling::LlamaSampler::sample`] stop in front of it and say where;
//! the caller has the stage run on the set and hands what comes back to
//! [`sampling::LlamaSampler::resume`], which takes it in where the kind of the
//! stage permits it and carries the run on. At the end of the stages
//! [`sampling::LlamaSampler::finish`] reads the token that was chosen.

pub mod laws;
pub mod outcome;
pub mod rank;
pub mod sampling;
pub mod scalar;
pub mod stage;
pub mod token;
