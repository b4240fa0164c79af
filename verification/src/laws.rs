//! Laws of the query pipeline.

use vstd::prelude::*;

use crate::limit::{apply_limit, Limit};
use crate::parse::{parse_query_spec, QueryError};
use crate::query::{apply_pipeline, empty_query, QuerySpec};
use crate::task::Task;

verus! {

/// Filtering with a predicate that keeps every element keeps the list.
proof fn lemma_filter_all_true(s: Seq<Task>)
    ensures
        forall|pred: spec_fn(Task) -> bool|
            (forall|i: int| 0 <= i < s.len() ==> #[trigger] pred(s[i])) ==> #[trigger] s.filter(
                pred,
            ) == s,
    decreases s.len(),
{
    reveal(Seq::filter);
    if s.len() == 0 {
        assert forall|pred: spec_fn(Task) -> bool|
            (forall|i: int| 0 <= i < s.len() ==> #[trigger] pred(s[i])) implies #[trigger] s.filter(
            pred,
        ) == s by {
            assert(s.filter(pred) =~= s);
        }
    } else {
        lemma_filter_all_true(s.drop_last());
        assert forall|pred: spec_fn(Task) -> bool|
            (forall|i: int| 0 <= i < s.len() ==> #[trigger] pred(s[i])) implies #[trigger] s.filter(
            pred,
        ) == s by {
            assert forall|i: int| 0 <= i < s.drop_last().len() implies #[trigger] pred(
                s.drop_last()[i],
            ) by {
                assert(s.drop_last()[i] == s[i]);
            }
            assert(s.drop_last().filter(pred) == s.drop_last());
            assert(pred(s[s.len() - 1]));
            assert(s.filter(pred) == s.drop_last().push(s.last()));
            assert(s.drop_last().push(s.last()) =~= s);
        }
    }
}

/// The empty query is the identity: an empty string parses to the empty
/// query, and the empty query's pipeline returns any task list unchanged.
pub proof fn lemma_empty_query_identity(tasks: Seq<Task>)
    ensures
        parse_query_spec(Seq::empty()) == Result::<QuerySpec, QueryError>::Ok(empty_query()),
        apply_pipeline(empty_query(), tasks) == tasks,
{
    lemma_filter_all_true(tasks);
    assert(apply_pipeline(empty_query(), tasks) == tasks);
}

/// Limiting to the first `n` tasks and then to the last `m` of those
/// returns exactly the last `m` of the first `n`.
pub proof fn lemma_first_then_last(s: Seq<Task>, n: usize, m: usize)
    requires
        m <= n,
        n <= s.len(),
    ensures
        apply_limit(
            Option::Some((Limit::Last, m)),
            apply_limit(Option::Some((Limit::First, n)), s),
        ) == s.subrange(n - m, n as int),
{
    let f = apply_limit(Option::Some((Limit::First, n)), s);
    assert(f =~= s.take(n as int));
    assert(f.len() == n);
    if n <= m {
        assert(apply_limit(Option::Some((Limit::Last, m)), f) == f);
        assert(f =~= s.subrange(n - m, n as int));
    } else {
        assert(apply_limit(Option::Some((Limit::Last, m)), f) == f.skip(f.len() - m));
        assert(f.skip(n - m) =~= s.subrange(n - m, n as int));
    }
}

} // verus!
