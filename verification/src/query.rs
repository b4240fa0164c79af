//! The applicable information extracted from a status query, and the
//! filter / order / limit pipeline it drives.

use vstd::prelude::*;

use crate::filters::{matches_all, FilterClause, FilterSpec};
use crate::limit::{apply_limit, Limit};
use crate::ordering::{sort_spec, sort_tasks, Column, Direction};
use crate::task::Task;

verus! {

/// All applicable information that has been extracted from a query.
#[derive(Clone, Debug)]
pub struct QueryResult {
    /// The columns a `columns=...` section selected, in the order given.
    pub selected_columns: Vec<Column>,
    /// The filter clauses, in the order they appeared in the query.
    pub filters: Vec<FilterClause>,
    /// The requested ordering, if any.
    pub order_by: Option<(Column, Direction)>,
    /// The requested limit, if any.
    pub limit: Option<(Limit, usize)>,
}

/// The mathematical form of a query.
pub struct QuerySpec {
    pub selected_columns: Seq<Column>,
    pub filters: Seq<FilterSpec>,
    pub order_by: Option<(Column, Direction)>,
    pub limit: Option<(Limit, usize)>,
}

impl View for QueryResult {
    type V = QuerySpec;

    open spec fn view(&self) -> QuerySpec {
        QuerySpec {
            selected_columns: self.selected_columns@,
            filters: self.filters@.map_values(|f: FilterClause| f@),
            order_by: self.order_by,
            limit: self.limit,
        }
    }
}

/// The query that selects everything and changes nothing.
pub open spec fn empty_query() -> QuerySpec {
    QuerySpec {
        selected_columns: Seq::empty(),
        filters: Seq::empty(),
        order_by: Option::None,
        limit: Option::None,
    }
}

/// What the order stage returns: the list unchanged when no ordering was
/// requested, else its stable sort.
pub open spec fn apply_order(ob: Option<(Column, Direction)>, s: Seq<Task>) -> Seq<Task> {
    match ob {
        Option::None => s,
        Option::Some((c, d)) => sort_spec(s, c, d),
    }
}

/// The whole pipeline of a query over a task list: filter, then order,
/// then limit.
pub open spec fn apply_pipeline(q: QuerySpec, s: Seq<Task>) -> Seq<Task> {
    apply_limit(q.limit, apply_order(q.order_by, s.filter(|t: Task| matches_all(q.filters, t))))
}

impl Default for QueryResult {
    /// The empty query: no columns, no filters, no ordering, no limit.
    fn default() -> (r: Self)
        ensures
            r@ == empty_query(),
    {
        let r = QueryResult {
            selected_columns: Vec::new(),
            filters: Vec::new(),
            order_by: Option::None,
            limit: Option::None,
        };
        proof {
            assert(r@.filters =~= empty_query().filters);
            assert(r@ =~= empty_query());
        }
        r
    }
}

impl QueryResult {
    /// Keep exactly the tasks that every filter clause of the query keeps,
    /// in their original order.
    pub fn apply_filters(&self, tasks: Vec<Task>) -> (r: Vec<Task>)
        ensures
            r@ == tasks@.filter(|t: Task| matches_all(self@.filters, t)),
    {
        let ghost orig = tasks@;
        let ghost pred = |t: Task| matches_all(self@.filters, t);
        let mut input = tasks;
        let mut out: Vec<Task> = Vec::new();
        proof {
            reveal(Seq::filter);
            assert(orig.take(0).filter(pred) =~= Seq::<Task>::empty());
        }
        while input.len() > 0
            invariant
                input@.len() <= orig.len(),
                input@ =~= orig.skip(orig.len() - input@.len()),
                out@ == orig.take(orig.len() - input@.len()).filter(pred),
                pred == (|t: Task| matches_all(self@.filters, t)),
            decreases input.len(),
        {
            let ghost i = orig.len() - input@.len();
            proof {
                assert(0 <= i < orig.len());
                assert(input@[0] == orig.skip(i)[0]);
                assert(orig.skip(i)[0] == orig[i]);
            }
            let t = input.remove(0);
            let keep = crate::filters::all_clauses_match(&self.filters, &t);
            proof {
                reveal(Seq::filter);
                assert(t == orig[i]);
                assert(input@ =~= orig.skip(i).drop_first());
                assert(orig.skip(i).drop_first() =~= orig.skip(i + 1));
                let s1 = orig.take(i + 1);
                assert(s1.drop_last() =~= orig.take(i));
                assert(s1.last() == orig[i]);
                assert(keep == pred(t));
                if keep {
                    assert(s1.filter(pred) == orig.take(i).filter(pred).push(t));
                } else {
                    assert(s1.filter(pred) == orig.take(i).filter(pred));
                }
            }
            if keep {
                out.push(t);
            }
        }
        proof {
            assert(orig.take(orig.len() as int) =~= orig);
        }
        out
    }

    /// Sort the tasks stably by the requested column and direction; a query
    /// without an ordering returns the list unchanged.
    pub fn order_tasks(&self, tasks: Vec<Task>) -> (r: Vec<Task>)
        ensures
            r@ == apply_order(self@.order_by, tasks@),
    {
        match self.order_by {
            Option::None => tasks,
            Option::Some((c, d)) => sort_tasks(tasks, c, d),
        }
    }

    /// Truncate the tasks to the first or last `count`, as requested — a
    /// count of zero keeps nothing; a query without a limit, or a list
    /// already short enough, returns the list unchanged.
    pub fn limit_tasks(&self, tasks: Vec<Task>) -> (r: Vec<Task>)
        ensures
            r@ == apply_limit(self@.limit, tasks@),
    {
        let ghost orig = tasks@;
        match self.limit {
            Option::None => tasks,
            Option::Some((l, count)) => {
                if tasks.len() <= count {
                    tasks
                } else {
                    match l {
                        Limit::First => {
                            let mut v = tasks;
                            v.truncate(count);
                            proof {
                                assert(v@ =~= orig.take(count as int));
                            }
                            v
                        },
                        Limit::Last => {
                            let mut v = tasks;
                            let at = v.len() - count;
                            let tail = v.split_off(at);
                            proof {
                                assert(tail@ =~= orig.skip(orig.len() - count));
                            }
                            tail
                        },
                    }
                }
            },
        }
    }
}

} // verus!
