//! What a run asks of its surroundings and what it is told.

use crate::codec::{fetched, written, Fetched, StoreError};
use crate::single::Single;
use vstd::prelude::*;

verus! {

/// What a run wants done next.
#[derive(Debug)]
pub enum Action {
    /// Read a key of the store.
    Load(String),
    /// Write a key of the store.
    Save(String, Vec<u8>),
    /// Compute the exponential of a number.
    Exponential(Single),
    /// Nothing: the run is over.
    Done,
}

/// How an action went.
#[derive(Debug)]
pub enum Answer {
    Loaded(Fetched),
    Saved(Result<(), StoreError>),
    Exponential(Single),
}

/// An action with its texts and bytes as sequences.
pub enum ActionView {
    Load(Seq<char>),
    Save(Seq<char>, Seq<u8>),
    Exponential(Single),
    Done,
}

/// An answer: a failed read brings nothing, a failed write the error's text.
pub enum AnswerView {
    Loaded(Option<Seq<u8>>),
    Saved(Result<(), Seq<char>>),
    Exponential(Single),
}

impl View for Action {
    type V = ActionView;

    open spec fn view(&self) -> ActionView {
        match *self {
            Action::Load(key) => ActionView::Load(key@),
            Action::Save(key, bytes) => ActionView::Save(key@, bytes@),
            Action::Exponential(x) => ActionView::Exponential(x),
            Action::Done => ActionView::Done,
        }
    }
}

impl View for Answer {
    type V = AnswerView;

    open spec fn view(&self) -> AnswerView {
        match *self {
            Answer::Loaded(got) => AnswerView::Loaded(fetched(got)),
            Answer::Saved(done) => AnswerView::Saved(written(done)),
            Answer::Exponential(x) => AnswerView::Exponential(x),
        }
    }
}

}
