//! The validation ladder's report of one stage.

use vstd::prelude::*;

verus! {

/// What one stage of the ladder reports: its name, its summary lines and its table rows.
pub struct StageReport {
    /// The stage's name.
    pub name: String,
    /// The summary lines, in the order they were reported.
    pub lines: Vec<String>,
    /// The table rows, in order.
    pub rows: Vec<String>,
}

impl StageReport {
    /// An empty report for the stage `name`.
    pub fn new(name: &str) -> (r: StageReport)
        ensures
            r.name@ == name@,
            r.lines@.len() == 0,
            r.rows@.len() == 0,
    {
        StageReport { name: name.to_owned(), lines: Vec::new(), rows: Vec::new() }
    }

    /// Records a summary line after the others.
    pub fn push(&mut self, s: String)
        ensures
            final(self).lines@ == old(self).lines@.push(s),
            final(self).name == old(self).name,
            final(self).rows@ == old(self).rows@,
    {
        self.lines.push(s);
    }
}

} // verus!
