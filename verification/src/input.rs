//! Input data held as an ordered sequence of text lines, supplied directly
//! by the caller; no line contains an embedded newline.

use vstd::prelude::*;
use crate::text::line_views;

verus! {

/// A list of text lines to run the calibration pipelines over.
pub struct Input {
    lines: Vec<String>,
}

impl View for Input {
    type V = Seq<Seq<char>>;

    closed spec fn view(&self) -> Seq<Seq<char>> {
        line_views(self.lines@)
    }
}

impl Input {
    /// Builds an `Input` from an array of lines.
    pub fn from_lines(lines: &[&str]) -> (r: Self)
        ensures
            r@.len() == lines@.len(),
            forall|i: int| 0 <= i < lines@.len() ==> r@[i] == lines@[i]@,
    {
        let mut v: Vec<String> = Vec::new();
        let mut i: usize = 0;
        while i < lines.len()
            invariant
                i <= lines@.len(),
                v@.len() == i,
                forall|j: int| 0 <= j < i ==> v@[j]@ == lines@[j]@,
            decreases lines@.len() - i,
        {
            v.push(lines[i].to_owned());
            i += 1;
        }
        Input { lines: v }
    }

    /// The lines held by this input.
    pub fn lines(&self) -> (r: &Vec<String>)
        ensures
            r@.len() == self@.len(),
            forall|i: int| 0 <= i < self@.len() ==> r@[i]@ == self@[i],
    {
        &self.lines
    }
}

} // verus!
