//! Exchange Rate Path Response.

use crate::response::best_rate_path::BestRatePath;
use std::fmt::Display;
use vstd::prelude::*;

pub mod best_rate_path;

verus! {

/// Exchange Rate Path `Response` structure: one best rate path for each
/// request that has one, in the order of the requests.
///
/// `E` is the edge weight.
pub struct Response<E> {
    best_rate_paths: Vec<BestRatePath<E>>,
}

impl<E> Response<E> {
    /// The answers, in order.
    pub closed spec fn view(&self) -> Seq<BestRatePath<E>> {
        self.best_rate_paths@
    }

    pub fn new() -> (r: Self)
        ensures
            r@ == Seq::<BestRatePath<E>>::empty(),
    {
        Self { best_rate_paths: Vec::new() }
    }

    pub fn add_best_rate_path(&mut self, best_rate_path: BestRatePath<E>)
        ensures
            final(self)@ == old(self)@.push(best_rate_path),
    {
        self.best_rate_paths.push(best_rate_path);
    }

    pub fn get_best_rate_path(&self) -> (r: &Vec<BestRatePath<E>>)
        ensures
            r@ == self@,
    {
        &self.best_rate_paths
    }
}

/// The texts of `parts`, one after the other.
pub open spec fn joined(parts: Seq<Seq<char>>) -> Seq<char>
    decreases parts.len(),
{
    if parts.len() == 0 {
        Seq::empty()
    } else {
        joined(parts.drop_last()) + parts.last()
    }
}

impl<E: Display> Response<E> {
    /// Whether `text` is the printed response: the printed answers, one
    /// after the other.
    pub open spec fn is_output(&self, text: Seq<char>) -> bool {
        exists|parts: Seq<Seq<char>>|
            {
                &&& parts.len() == self@.len()
                &&& forall|i: int| 0 <= i < parts.len() ==> (#[trigger] self@[i]).is_output(parts[i])
                &&& text == joined(parts)
            }
    }

    /// Get printable output representing the Response.
    ///
    /// Concatenate all outputs of `BestRatePath`s.
    pub fn get_output(&self) -> (r: String)
        ensures
            self.is_output(r@),
    {
        let mut output = String::new();
        let ghost mut parts: Seq<Seq<char>> = Seq::empty();
        let mut i: usize = 0;
        while i < self.best_rate_paths.len()
            invariant
                i <= self.best_rate_paths@.len(),
                parts.len() == i,
                forall|x: int| 0 <= x < i ==> (#[trigger] self@[x]).is_output(parts[x]),
                output@ == joined(parts),
            decreases self.best_rate_paths.len() - i,
        {
            let part = self.best_rate_paths[i].get_output();
            output.append(part.as_str());
            proof {
                let before = parts;
                parts = parts.push(part@);
                assert(parts.drop_last() == before);
            }
            i = i + 1;
        }
        output
    }
}

} // verus!
