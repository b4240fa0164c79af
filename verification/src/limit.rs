//! The limit stage of a query: keep only the first or last N tasks.

use vstd::prelude::*;

use crate::task::Task;

verus! {

/// Which end of the list a limit keeps.
#[derive(Clone, Copy, Debug, PartialEq, Eq, Structural)]
pub enum Limit {
    First,
    Last,
}

/// What the limit stage returns: the first or last `count` tasks — the
/// empty list for a count of zero — or the list unchanged when no limit
/// was requested or the list is already short enough.
pub open spec fn apply_limit(lim: Option<(Limit, usize)>, s: Seq<Task>) -> Seq<Task> {
    match lim {
        Option::None => s,
        Option::Some((l, count)) => {
            if s.len() <= count {
                s
            } else {
                match l {
                    Limit::First => s.take(count as int),
                    Limit::Last => s.skip(s.len() - count),
                }
            }
        },
    }
}

} // verus!
