//! The exchange rate path application, as far as it computes.

use crate::algorithm::model::{answers_of, best_rate_answers, is_rate};
use crate::algorithm::{Algorithm, AlgorithmError};
use crate::request::Request;
use crate::response::Response;
use std::hash::Hash;
use vstd::prelude::*;

verus! {

/// A trait group for the keys of a hashed collection.
pub trait IndexMapTrait: Eq + Hash {

}

/// Every type that can be such a key is one.
impl<N> IndexMapTrait for N where N: Eq + Hash {

}

/// `ExchangeRatePath` structure: the application around one input.
///
/// `I` is the input that the lines are read from.
pub struct ExchangeRatePath<I> {
    input: I,
}

impl<I> ExchangeRatePath<I> {
    /// The input.
    pub closed spec fn input_view(&self) -> I {
        self.input
    }

    /// Create a new instance of ExchangeRatePath structure.
    pub fn new(input: I) -> (r: Self)
        ensures
            r.input_view() == input,
    {
        Self { input }
    }

    /// Give the input back, to be read.
    pub fn into_input(self) -> (input: I)
        ensures
            input == self.input_view(),
    {
        self.input
    }

    /// Answer the queries of a request from its price updates. `unit` is
    /// the rate of a free transfer: 1.
    pub fn process_request<E: Copy + core::ops::Mul<Output = E> + PartialOrd>(
        request: Request<E>,
        unit: E,
    ) -> (r: Result<Response<E>, AlgorithmError>)
        requires
            is_rate::<E>(),
        ensures
            match best_rate_answers(request.quotes_view(), request.queries_view(), unit) {
                Ok(answers) => r.is_ok() && answers_of(r.unwrap()@) == answers,
                Err(e) => r == Err::<Response<E>, AlgorithmError>(e),
            },
            r matches Err(e) ==> e == AlgorithmError::TooManyIdentifiers || e
                == AlgorithmError::BrokenPath,
    {
        Algorithm::<E>::process(&request, unit)
    }
}

} // verus!
