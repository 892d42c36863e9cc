//! Best Rate Path.

use std::fmt::Display;
use vstd::prelude::*;
use vstd::string::to_string_from_display_ensures;

verus! {

/// One line of a printed path: `<venue, asset>` and a line break.
pub open spec fn node_line(node: (String, String)) -> Seq<char> {
    "<"@ + node.0@ + ", "@ + node.1@ + ">\n"@
}

/// The printed path: one line for each of its nodes, in order.
pub open spec fn path_lines(path: Seq<(String, String)>) -> Seq<char>
    decreases path.len(),
{
    if path.len() == 0 {
        Seq::empty()
    } else {
        path_lines(path.drop_last()) + node_line(path.last())
    }
}

/// The printed answer for a path of at least two nodes: a heading with the
/// first node, the last node and the rate, the path's lines, and a closing
/// line.
pub open spec fn answer_text(path: Seq<(String, String)>, rate_text: Seq<char>) -> Seq<char> {
    "BEST_RATES_BEGIN <"@ + path.first().0@ + "> <"@ + path.first().1@ + "> <"@ + path.last().0@
        + "> <"@ + path.last().1@ + "> <"@ + rate_text + ">\n"@ + path_lines(path)
        + "BEST_RATES_END\n"@
}

/// Exchange `BestRatePath` structure: the best rate between two nodes and
/// the nodes it leads through, each as a venue and an asset.
///
/// `E` is the edge weight.
pub struct BestRatePath<E> {
    rate: E,
    path: Vec<(String, String)>,
}

impl<E> BestRatePath<E> {
    /// The rate.
    pub closed spec fn rate_view(&self) -> E {
        self.rate
    }

    /// The nodes of the path, first to last.
    pub closed spec fn path_view(&self) -> Seq<(String, String)> {
        self.path@
    }

    /// The nodes of the path, first to last, each as the texts of its venue
    /// and its asset.
    pub open spec fn path_texts(&self) -> Seq<(Seq<char>, Seq<char>)> {
        Seq::new(
            self.path_view().len(),
            |i: int| (self.path_view()[i].0@, self.path_view()[i].1@),
        )
    }

    pub fn new(rate: E, path: Vec<(String, String)>) -> (r: Self)
        ensures
            r.rate_view() == rate,
            r.path_view() == path@,
    {
        Self { rate, path }
    }

    pub fn get_rate(&self) -> (r: &E)
        ensures
            *r == self.rate_view(),
    {
        &self.rate
    }

    pub fn get_path(&self) -> (r: &Vec<(String, String)>)
        ensures
            r@ == self.path_view(),
    {
        &self.path
    }

    pub fn get_start_node(&self) -> (r: Option<&(String, String)>)
        ensures
            match r {
                Some(node) => self.path_view().len() > 0 && *node == self.path_view().first(),
                None => self.path_view().len() == 0,
            },
    {
        if self.path.len() == 0 {
            None
        } else {
            Some(&self.path[0])
        }
    }

    pub fn get_end_node(&self) -> (r: Option<&(String, String)>)
        ensures
            match r {
                Some(node) => self.path_view().len() > 0 && *node == self.path_view().last(),
                None => self.path_view().len() == 0,
            },
    {
        if self.path.len() == 0 {
            None
        } else {
            Some(&self.path[self.path.len() - 1])
        }
    }

    /// Get printable output of the path.
    ///
    /// # Format
    ///
    /// <source_exchange, source_currency>
    /// <exchange, currency>
    /// <exchange, currency>
    /// ...
    /// <destination_exchange, destination_currency>
    pub fn get_path_output(&self) -> (r: String)
        ensures
            r@ == path_lines(self.path_view()),
    {
        let mut output = String::new();
        let mut i: usize = 0;
        while i < self.path.len()
            invariant
                i <= self.path@.len(),
                output@ == path_lines(self.path@.take(i as int)),
            decreases self.path.len() - i,
        {
            let node = &self.path[i];
            proof {
                assert(self.path@.take(i + 1).drop_last() == self.path@.take(i as int));
                assert(self.path@.take(i + 1).last() == self.path@[i as int]);
            }
            output.append("<");
            output.append(node.0.as_str());
            output.append(", ");
            output.append(node.1.as_str());
            output.append(">\n");
            assert(output@ == path_lines(self.path@.take(i as int)) + node_line(self.path@[i as int]));
            i = i + 1;
        }
        assert(self.path@.take(self.path@.len() as int) == self.path@);
        output
    }
}

impl<E: Display> BestRatePath<E> {
    /// Whether `text` is the printed answer: empty where the path has fewer
    /// than two nodes, otherwise the answer with the rate as it displays.
    pub open spec fn is_output(&self, text: Seq<char>) -> bool {
        if self.path_view().len() < 2 {
            text == Seq::<char>::empty()
        } else {
            exists|rate_text: String|
                #[trigger] to_string_from_display_ensures::<E>(&self.rate_view(), rate_text)
                    && text == answer_text(self.path_view(), rate_text@)
        }
    }

    /// Get printable output representing the Best Rated Path: empty where
    /// the path has fewer than two nodes.
    ///
    /// # Format
    ///
    /// BEST_RATES_BEGIN <source_exchange> <source_currency> <destination_exchange>
    /// <destination_currency> <rate>
    /// <source_exchange, source_currency>
    /// <exchange, currency>
    /// <exchange, currency>
    /// ...
    /// <destination_exchange, destination_currency>
    /// BEST_RATES_END
    pub fn get_output(&self) -> (r: String)
        ensures
            self.is_output(r@),
    {
        // Return empty string in case the path is not valid.
        if self.path.len() < 2 {
            return String::new();
        }
        let first = &self.path[0];
        let last = &self.path[self.path.len() - 1];
        let rate_text = self.rate.to_string();
        let lines = self.get_path_output();
        let mut output = String::from_str("BEST_RATES_BEGIN <");
        output.append(first.0.as_str());
        output.append("> <");
        output.append(first.1.as_str());
        output.append("> <");
        output.append(last.0.as_str());
        output.append("> <");
        output.append(last.1.as_str());
        output.append("> <");
        output.append(rate_text.as_str());
        output.append(">\n");
        output.append(lines.as_str());
        output.append("BEST_RATES_END\n");
        assert(output@ == answer_text(self.path@, rate_text@));
        assert(to_string_from_display_ensures::<E>(&self.rate_view(), rate_text));
        output
    }
}

} // verus!
