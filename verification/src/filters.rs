//! Filter clauses of a query and their meaning on a single task.
//!
//! A query's filters are kept as plain data — a vector of [`FilterClause`]
//! values — and applied by [`clause_matches`]; what a clause means is stated
//! once, by the spec function [`filter_matches`].

use vstd::prelude::*;

use crate::task::{Task, TaskResult, TaskStatus};

verus! {

/// A comparison operator of a datetime filter.
#[derive(Clone, Copy, Debug, PartialEq, Eq, Structural)]
pub enum CmpOp {
    Lt,
    Le,
    Eq,
    Ne,
    Ge,
    Gt,
}

/// The operator of a label filter: equality, inequality, or containment
/// (`label%=foo` keeps tasks whose label has `foo` as a substring).
#[derive(Clone, Copy, Debug, PartialEq, Eq, Structural)]
pub enum LabelOp {
    Equals,
    NotEquals,
    Contains,
}

/// The operator of a status filter.
#[derive(Clone, Copy, Debug, PartialEq, Eq, Structural)]
pub enum EqOp {
    Eq,
    Ne,
}

/// Which timestamp of a task a datetime filter reads.
#[derive(Clone, Copy, Debug, PartialEq, Eq, Structural)]
pub enum DateField {
    Start,
    End,
}

/// A status a filter can ask for. `Success` and `Failed` both select
/// finished tasks, split by whether the result was a success.
#[derive(Clone, Copy, Debug, PartialEq, Eq, Structural)]
pub enum StatusValue {
    Stashed,
    Locked,
    Queued,
    Paused,
    Running,
    Success,
    Failed,
}

/// One filter clause of a query.
#[derive(Clone, Debug)]
pub enum FilterClause {
    /// Compare the task's start or end timestamp against a fixed key.
    Datetime { field: DateField, op: CmpOp, value: u64 },
    /// Compare the task's label against a fixed string.
    Label { op: LabelOp, needle: Vec<char> },
    /// Compare the task's status against a fixed status value.
    Status { op: EqOp, value: StatusValue },
}

/// The mathematical form of a filter clause.
pub enum FilterSpec {
    Datetime { field: DateField, op: CmpOp, value: u64 },
    Label { op: LabelOp, needle: Seq<char> },
    Status { op: EqOp, value: StatusValue },
}

impl View for FilterClause {
    type V = FilterSpec;

    open spec fn view(&self) -> FilterSpec {
        match self {
            FilterClause::Datetime { field, op, value } => FilterSpec::Datetime {
                field: *field,
                op: *op,
                value: *value,
            },
            FilterClause::Label { op, needle } => FilterSpec::Label { op: *op, needle: needle@ },
            FilterClause::Status { op, value } => FilterSpec::Status { op: *op, value: *value },
        }
    }
}

/// What a comparison operator means on two timestamp keys.
pub open spec fn cmp_matches(op: CmpOp, x: u64, v: u64) -> bool {
    match op {
        CmpOp::Lt => x < v,
        CmpOp::Le => x <= v,
        CmpOp::Eq => x == v,
        CmpOp::Ne => x != v,
        CmpOp::Ge => x >= v,
        CmpOp::Gt => x > v,
    }
}

/// Whether a status filter value selects the given status.
pub open spec fn status_value_matches(v: StatusValue, s: TaskStatus) -> bool {
    match v {
        StatusValue::Stashed => s matches TaskStatus::Stashed { .. },
        StatusValue::Locked => s matches TaskStatus::Locked,
        StatusValue::Queued => s matches TaskStatus::Queued,
        StatusValue::Paused => s matches TaskStatus::Paused,
        StatusValue::Running => s matches TaskStatus::Running,
        StatusValue::Success => s matches TaskStatus::Done(r) && r matches TaskResult::Success,
        StatusValue::Failed => s matches TaskStatus::Done(r) && !(r matches TaskResult::Success),
    }
}

/// `needle` occurs as a contiguous run of characters in `hay`.
pub open spec fn is_substring(needle: Seq<char>, hay: Seq<char>) -> bool {
    exists|k: int|
        0 <= k <= hay.len() - needle.len() && #[trigger] hay.subrange(k, k + needle.len())
            == needle
}

/// Whether one filter clause keeps the given task.
///
/// A datetime filter keeps only tasks that have the timestamp it reads;
/// a label equality or containment filter keeps only labelled tasks, while
/// `label!=` also keeps tasks without a label.
pub open spec fn filter_matches(f: FilterSpec, t: Task) -> bool {
    match f {
        FilterSpec::Datetime { field, op, value } => {
            let ts = match field {
                DateField::Start => t.start,
                DateField::End => t.end,
            };
            match ts {
                Option::Some(x) => cmp_matches(op, x, value),
                Option::None => false,
            }
        },
        FilterSpec::Label { op, needle } => match op {
            LabelOp::Equals => t.label matches Option::Some(l) && l@ == needle,
            LabelOp::NotEquals => !(t.label matches Option::Some(l) && l@ == needle),
            LabelOp::Contains => t.label matches Option::Some(l) && is_substring(needle, l@),
        },
        FilterSpec::Status { op, value } => match op {
            EqOp::Eq => status_value_matches(value, t.status),
            EqOp::Ne => !status_value_matches(value, t.status),
        },
    }
}

/// Whether every clause of `fs` keeps the given task.
pub open spec fn matches_all(fs: Seq<FilterSpec>, t: Task) -> bool {
    forall|i: int| 0 <= i < fs.len() ==> filter_matches(#[trigger] fs[i], t)
}

/// Decide a status filter value; agrees with [`status_value_matches`].
fn status_value_matches_exec(v: StatusValue, s: &TaskStatus) -> (r: bool)
    ensures
        r == status_value_matches(v, *s),
{
    match v {
        StatusValue::Stashed => matches!(s, TaskStatus::Stashed { .. }),
        StatusValue::Locked => matches!(s, TaskStatus::Locked),
        StatusValue::Queued => matches!(s, TaskStatus::Queued),
        StatusValue::Paused => matches!(s, TaskStatus::Paused),
        StatusValue::Running => matches!(s, TaskStatus::Running),
        StatusValue::Success => matches!(s, TaskStatus::Done(TaskResult::Success)),
        StatusValue::Failed => match s {
            TaskStatus::Done(r) => !matches!(r, TaskResult::Success),
            _ => false,
        },
    }
}

/// Decide whether `w` holds the same characters as `s`.
pub fn chars_eq_str(w: &Vec<char>, s: &str) -> (r: bool)
    ensures
        r == (w@ == s@),
{
    let n = s.unicode_len();
    if w.len() != n {
        return false;
    }
    let mut i: usize = 0;
    while i < n
        invariant
            i <= n,
            n == s@.len(),
            w@.len() == n,
            forall|j: int| 0 <= j < i ==> w@[j] == s@[j],
        decreases n - i,
    {
        if w[i] != s.get_char(i) {
            return false;
        }
        i += 1;
    }
    proof {
        assert(w@ =~= s@);
    }
    true
}

/// Decide whether `hay` has `needle`'s characters starting at `k`.
fn matches_at(needle: &Vec<char>, hay: &str, k: usize) -> (r: bool)
    requires
        k + needle@.len() <= hay@.len(),
        hay@.len() <= usize::MAX,
    ensures
        r == (hay@.subrange(k as int, k + needle@.len()) == needle@),
{
    let n = needle.len();
    let mut m: usize = 0;
    while m < n
        invariant
            m <= n,
            n == needle@.len(),
            k + n <= hay@.len(),
            hay@.len() <= usize::MAX,
            forall|j: int| 0 <= j < m ==> hay@[k + j] == needle@[j],
        decreases n - m,
    {
        if hay.get_char(k + m) != needle[m] {
            proof {
                assert(hay@.subrange(k as int, k + needle@.len())[m as int] == hay@[k + m]);
            }
            return false;
        }
        m += 1;
    }
    proof {
        assert forall|j: int| 0 <= j < needle@.len() implies hay@.subrange(
            k as int,
            k + needle@.len(),
        )[j] == needle@[j] by {
            assert(hay@.subrange(k as int, k + needle@.len())[j] == hay@[k + j]);
        }
        assert(hay@.subrange(k as int, k + needle@.len()) =~= needle@);
    }
    true
}

/// Decide whether `needle` occurs in `hay`; agrees with [`is_substring`].
fn contains_chars(needle: &Vec<char>, hay: &str) -> (r: bool)
    ensures
        r == is_substring(needle@, hay@),
{
    let n = needle.len();
    let h = hay.unicode_len();
    if n > h {
        return false;
    }
    if n == 0 {
        proof {
            assert(hay@.subrange(0, 0 + needle@.len() as int) =~= needle@);
        }
        return true;
    }
    let mut k: usize = 0;
    while k <= h - n
        invariant
            n == needle@.len(),
            h == hay@.len(),
            0 < n <= h,
            k <= h - n + 1,
            forall|k2: int|
                0 <= k2 < k ==> #[trigger] hay@.subrange(k2, k2 + needle@.len()) != needle@,
        decreases h - k,
    {
        if matches_at(needle, hay, k) {
            return true;
        }
        k += 1;
    }
    false
}

/// Decide one filter clause on one task; agrees with [`filter_matches`].
pub fn clause_matches(f: &FilterClause, t: &Task) -> (r: bool)
    ensures
        r == filter_matches(f@, *t),
{
    match f {
        FilterClause::Datetime { field, op, value } => {
            let ts = match field {
                DateField::Start => &t.start,
                DateField::End => &t.end,
            };
            match ts {
                Option::Some(x) => match op {
                    CmpOp::Lt => *x < *value,
                    CmpOp::Le => *x <= *value,
                    CmpOp::Eq => *x == *value,
                    CmpOp::Ne => *x != *value,
                    CmpOp::Ge => *x >= *value,
                    CmpOp::Gt => *x > *value,
                },
                Option::None => false,
            }
        },
        FilterClause::Label { op, needle } => match op {
            LabelOp::Equals => match &t.label {
                Option::Some(l) => chars_eq_str(needle, l.as_str()),
                Option::None => false,
            },
            LabelOp::NotEquals => match &t.label {
                Option::Some(l) => !chars_eq_str(needle, l.as_str()),
                Option::None => true,
            },
            LabelOp::Contains => match &t.label {
                Option::Some(l) => contains_chars(needle, l.as_str()),
                Option::None => false,
            },
        },
        FilterClause::Status { op, value } => {
            let m = status_value_matches_exec(*value, &t.status);
            match op {
                EqOp::Eq => m,
                EqOp::Ne => !m,
            }
        },
    }
}

/// Decide whether every clause keeps the task; agrees with [`matches_all`].
pub fn all_clauses_match(fs: &Vec<FilterClause>, t: &Task) -> (r: bool)
    ensures
        r == matches_all(fs@.map_values(|f: FilterClause| f@), *t),
{
    let ghost fsv = fs@.map_values(|f: FilterClause| f@);
    let mut i: usize = 0;
    while i < fs.len()
        invariant
            i <= fs.len(),
            fsv == fs@.map_values(|f: FilterClause| f@),
            forall|k: int| 0 <= k < i ==> filter_matches(#[trigger] fsv[k], *t),
        decreases fs.len() - i,
    {
        if !clause_matches(&fs[i], t) {
            proof {
                assert(fsv[i as int] == fs@[i as int]@);
            }
            return false;
        }
        proof {
            assert(fsv[i as int] == fs@[i as int]@);
        }
        i += 1;
    }
    true
}

} // verus!
