use vstd::prelude::*;
use crate::table::{Counts, NodeV};

verus! {

/// Which bytes a report counts.
#[derive(Clone, Copy, PartialEq, Eq, Structural, Debug)]
pub enum Mode {
    /// Ignored and not-ignored bytes alike.
    Du,
    /// Ignored bytes only.
    Ignored,
    /// Not-ignored bytes only.
    NotIgnored,
}

/// The size a report shows for a node under `mode`.
pub open spec fn reportable(n: NodeV, mode: Mode) -> nat {
    match mode {
        Mode::Du => n.0 + n.1,
        Mode::Ignored => n.1,
        Mode::NotIgnored => n.0,
    }
}

/// The model of executable counters.
pub open spec fn counts_view(c: Counts) -> NodeV {
    (c.0 as nat, c.1 as nat, c.2)
}

/// The full report's size of a node is the ignored-only size plus the
/// not-ignored-only size.
pub proof fn lemma_all_is_sum_of_parts(n: NodeV)
    ensures
        reportable(n, Mode::Du) == reportable(n, Mode::Ignored) + reportable(n, Mode::NotIgnored),
{
}

impl Mode {
    pub open spec fn name_spec(self) -> Seq<char> {
        match self {
            Mode::Du => "du"@,
            Mode::Ignored => "ignored"@,
            Mode::NotIgnored => "not-ignored"@,
        }
    }

    pub open spec fn description_spec(self) -> Seq<char> {
        match self {
            Mode::Du => "all files (both ignored and not ignored)"@,
            Mode::Ignored => "only files that are ignored by .gitignore rules"@,
            Mode::NotIgnored => "only files that are NOT ignored by .gitignore rules"@,
        }
    }

    /// What the mode counts, in words.
    pub fn description(&self) -> (r: &'static str)
        ensures
            r@ == self.description_spec(),
    {
        match self {
            Mode::Du => "all files (both ignored and not ignored)",
            Mode::Ignored => "only files that are ignored by .gitignore rules",
            Mode::NotIgnored => "only files that are NOT ignored by .gitignore rules",
        }
    }

    /// The mode's name on the command line.
    pub fn name(&self) -> (r: &'static str)
        ensures
            r@ == self.name_spec(),
    {
        match self {
            Mode::Du => "du",
            Mode::Ignored => "ignored",
            Mode::NotIgnored => "not-ignored",
        }
    }
}

/// The size that a report under `mode` shows for a node with counters `c`.
pub fn reportable_size(c: Counts, mode: Mode) -> (r: u64)
    requires
        mode == Mode::Du ==> c.0 + c.1 <= u64::MAX,
    ensures
        r == reportable(counts_view(c), mode),
{
    match mode {
        Mode::Du => c.0 + c.1,
        Mode::Ignored => c.1,
        Mode::NotIgnored => c.0,
    }
}

} // verus!
