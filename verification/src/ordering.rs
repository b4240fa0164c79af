//! Ordering of task lists: the per-column comparison and a stable sort.
//!
//! Sorting is specified exactly by [`sort_spec`], a stable insertion sort:
//! each task is inserted after every already-placed task that may come
//! before it, so tasks that compare equal keep their submission order.

use vstd::prelude::*;

use crate::task::{status_rank, Task};

verus! {

/// A column of the task table that a query can order by.
#[derive(Clone, Copy, Debug, PartialEq, Eq, Structural)]
pub enum Column {
    Id,
    Status,
    Command,
    Path,
    Label,
    Start,
    End,
}

/// The direction of an ordering.
#[derive(Clone, Copy, Debug, PartialEq, Eq, Structural)]
pub enum Direction {
    Ascending,
    Descending,
}

/// Lexicographic order on character sequences, by code point, with a
/// prefix ordered before every extension of it.
pub open spec fn lex_le(a: Seq<char>, b: Seq<char>) -> bool
    decreases a.len(),
{
    if a.len() == 0 {
        true
    } else if b.len() == 0 {
        false
    } else if (a[0] as u32) < (b[0] as u32) {
        true
    } else if (b[0] as u32) < (a[0] as u32) {
        false
    } else {
        lex_le(a.drop_first(), b.drop_first())
    }
}

/// Order on optional timestamps: an absent timestamp sorts first.
pub open spec fn opt_u64_le(a: Option<u64>, b: Option<u64>) -> bool {
    match (a, b) {
        (Option::None, _) => true,
        (Option::Some(_), Option::None) => false,
        (Option::Some(x), Option::Some(y)) => x <= y,
    }
}

/// `a` may be ordered at or before `b` under column `c` (ascending).
pub open spec fn col_le(c: Column, a: Task, b: Task) -> bool {
    match c {
        Column::Id => a.id <= b.id,
        Column::Status => status_rank(a.status) <= status_rank(b.status),
        Column::Command => lex_le(a.command@, b.command@),
        Column::Path => lex_le(a.path@, b.path@),
        Column::Label => match (a.label, b.label) {
            (Option::None, _) => true,
            (Option::Some(_), Option::None) => false,
            (Option::Some(x), Option::Some(y)) => lex_le(x@, y@),
        },
        Column::Start => opt_u64_le(a.start, b.start),
        Column::End => opt_u64_le(a.end, b.end),
    }
}

/// `a` may be ordered at or before `b` under column `c` in direction `d`.
pub open spec fn before(c: Column, d: Direction, a: Task, b: Task) -> bool {
    match d {
        Direction::Ascending => col_le(c, a, b),
        Direction::Descending => col_le(c, b, a),
    }
}

/// The column order is total: of any two tasks, one may come before the other.
pub proof fn lemma_lex_le_total(a: Seq<char>, b: Seq<char>)
    ensures
        lex_le(a, b) || lex_le(b, a),
    decreases a.len(),
{
    if a.len() == 0 || b.len() == 0 {
    } else if (a[0] as u32) < (b[0] as u32) || (b[0] as u32) < (a[0] as u32) {
    } else {
        lemma_lex_le_total(a.drop_first(), b.drop_first());
    }
}

/// Lexicographic order is transitive.
pub proof fn lemma_lex_le_trans(a: Seq<char>, b: Seq<char>, c: Seq<char>)
    requires
        lex_le(a, b),
        lex_le(b, c),
    ensures
        lex_le(a, c),
    decreases a.len(),
{
    if a.len() == 0 {
    } else if b.len() == 0 {
    } else if c.len() == 0 {
    } else if (a[0] as u32) < (c[0] as u32) {
    } else if (a[0] as u32) == (b[0] as u32) && (b[0] as u32) == (c[0] as u32) {
        lemma_lex_le_trans(a.drop_first(), b.drop_first(), c.drop_first());
    }
}

/// Of any two tasks, one may come before the other: the order is total.
pub proof fn lemma_before_total(c: Column, d: Direction, a: Task, b: Task)
    ensures
        before(c, d, a, b) || before(c, d, b, a),
{
    match c {
        Column::Command => lemma_lex_le_total(a.command@, b.command@),
        Column::Path => lemma_lex_le_total(a.path@, b.path@),
        Column::Label => match (a.label, b.label) {
            (Option::Some(x), Option::Some(y)) => lemma_lex_le_total(x@, y@),
            _ => (),
        },
        _ => (),
    }
}

/// The task order under any column and direction is transitive.
pub proof fn lemma_before_trans(c: Column, d: Direction, a: Task, b: Task, e: Task)
    requires
        before(c, d, a, b),
        before(c, d, b, e),
    ensures
        before(c, d, a, e),
{
    match c {
        Column::Command => match d {
            Direction::Ascending => lemma_lex_le_trans(a.command@, b.command@, e.command@),
            Direction::Descending => lemma_lex_le_trans(e.command@, b.command@, a.command@),
        },
        Column::Path => match d {
            Direction::Ascending => lemma_lex_le_trans(a.path@, b.path@, e.path@),
            Direction::Descending => lemma_lex_le_trans(e.path@, b.path@, a.path@),
        },
        Column::Label => match (a.label, b.label, e.label) {
            (Option::Some(x), Option::Some(y), Option::Some(z)) => match d {
                Direction::Ascending => lemma_lex_le_trans(x@, y@, z@),
                Direction::Descending => lemma_lex_le_trans(z@, y@, x@),
            },
            _ => (),
        },
        _ => (),
    }
}

/// Insert `t` into `s` after every leading element that may come before it.
/// On a sorted sequence this places `t` after all elements with an equal
/// key, which is what makes the sort stable.
pub open spec fn insert_sorted(s: Seq<Task>, c: Column, d: Direction, t: Task) -> Seq<Task>
    decreases s.len(),
{
    if s.len() == 0 {
        seq![t]
    } else if before(c, d, s[0], t) {
        seq![s[0]] + insert_sorted(s.drop_first(), c, d, t)
    } else {
        seq![t] + s
    }
}

/// The stable insertion sort of `s` under column `c` and direction `d`:
/// tasks are inserted left to right, each after every equal or smaller key.
pub open spec fn sort_spec(s: Seq<Task>, c: Column, d: Direction) -> Seq<Task>
    decreases s.len(),
{
    if s.len() == 0 {
        Seq::empty()
    } else {
        insert_sorted(sort_spec(s.drop_last(), c, d), c, d, s.last())
    }
}

/// Every pair of positions of `s` is ordered.
pub open spec fn sorted_by(s: Seq<Task>, c: Column, d: Direction) -> bool {
    forall|i: int, j: int| 0 <= i < j < s.len() ==> before(c, d, #[trigger] s[i], #[trigger] s[j])
}

/// `insert_sorted` walks to the first position whose element may not come
/// before `t` and places `t` there.
proof fn lemma_insert_sorted_at(s: Seq<Task>, c: Column, d: Direction, t: Task, j: int)
    requires
        0 <= j <= s.len(),
        forall|k: int| 0 <= k < j ==> before(c, d, #[trigger] s[k], t),
        j == s.len() || !before(c, d, s[j], t),
    ensures
        insert_sorted(s, c, d, t) =~= s.take(j) + seq![t] + s.skip(j),
    decreases s.len(),
{
    if j == 0 {
    } else {
        lemma_insert_sorted_at(s.drop_first(), c, d, t, j - 1);
        assert(s.drop_first().take(j - 1) =~= s.take(j).drop_first());
        assert(s.drop_first().skip(j - 1) =~= s.skip(j));
        assert(insert_sorted(s, c, d, t) =~= s.take(j) + seq![t] + s.skip(j));
    }
}

/// Inserting into a sorted sequence keeps it sorted and adds exactly the
/// inserted task to its contents.
pub proof fn lemma_insert_sorted_props(s: Seq<Task>, c: Column, d: Direction, t: Task)
    requires
        sorted_by(s, c, d),
    ensures
        sorted_by(insert_sorted(s, c, d, t), c, d),
        insert_sorted(s, c, d, t).to_multiset() =~= s.to_multiset().insert(t),
        insert_sorted(s, c, d, t).len() == s.len() + 1,
    decreases s.len(),
{
    broadcast use vstd::seq_lib::group_to_multiset_ensures;

    if s.len() == 0 {
        assert(seq![t] =~= Seq::empty().push(t));
        assert(seq![t].to_multiset() =~= s.to_multiset().insert(t));
    } else if before(c, d, s[0], t) {
        let rest = s.drop_first();
        assert(sorted_by(rest, c, d));
        lemma_insert_sorted_props(rest, c, d, t);
        let ri = insert_sorted(rest, c, d, t);
        let r = seq![s[0]] + ri;
        assert forall|i: int, j: int| 0 <= i < j < r.len() implies before(
            c,
            d,
            #[trigger] r[i],
            #[trigger] r[j],
        ) by {
            if i == 0 {
                let x = r[j];
                assert(x == ri[j - 1]);
                assert(ri.contains(x));
                assert(ri.to_multiset().count(x) > 0);
                if x == t {
                    assert(before(c, d, s[0], t));
                } else {
                    assert(rest.to_multiset().count(x) > 0);
                    assert(rest.contains(x));
                    let m = choose|m: int| 0 <= m < rest.len() && rest[m] == x;
                    assert(s[m + 1] == x);
                    assert(before(c, d, s[0], s[m + 1]));
                }
            } else {
                assert(r[i] == ri[i - 1] && r[j] == ri[j - 1]);
                assert(before(c, d, ri[i - 1], ri[j - 1]));
            }
        }
        assert(r =~= seq![s[0]] + ri);
        assert(r.to_multiset() =~= s.to_multiset().insert(t)) by {
            assert(seq![s[0]] + ri =~= ri.insert(0, s[0]));
            assert(ri.insert(0, s[0]).to_multiset() =~= ri.to_multiset().insert(s[0])) by {
                lemma_to_multiset_insert(ri, 0, s[0]);
            }
            assert(seq![s[0]] + rest =~= rest.insert(0, s[0]));
            assert(rest.insert(0, s[0]).to_multiset() =~= rest.to_multiset().insert(s[0])) by {
                lemma_to_multiset_insert(rest, 0, s[0]);
            }
            assert(s =~= seq![s[0]] + rest);
        }
    } else {
        lemma_before_total(c, d, s[0], t);
        let r = seq![t] + s;
        assert forall|i: int, j: int| 0 <= i < j < r.len() implies before(
            c,
            d,
            #[trigger] r[i],
            #[trigger] r[j],
        ) by {
            if i == 0 {
                assert(r[j] == s[j - 1]);
                if j - 1 == 0 {
                    assert(before(c, d, t, s[0]));
                } else {
                    assert(before(c, d, s[0], s[j - 1]));
                    lemma_before_trans(c, d, t, s[0], s[j - 1]);
                }
            } else {
                assert(r[i] == s[i - 1] && r[j] == s[j - 1]);
            }
        }
        assert(r =~= s.insert(0, t));
        lemma_to_multiset_insert(s, 0, t);
    }
}

/// Inserting into a sequence adds the element to its contents.
proof fn lemma_to_multiset_insert(s: Seq<Task>, i: int, t: Task)
    requires
        0 <= i <= s.len(),
    ensures
        s.insert(i, t).to_multiset() =~= s.to_multiset().insert(t),
    decreases s.len() - i,
{
    broadcast use vstd::seq_lib::group_to_multiset_ensures;

    if i == s.len() {
        assert(s.insert(i, t) =~= s.push(t));
    } else {
        let r = s.insert(i, t);
        assert(r.remove(i) =~= s);
        assert(r.remove(i).to_multiset() =~= r.to_multiset().remove(r[i]));
        assert(r[i] == t);
        assert(r.to_multiset().count(t) > 0) by {
            assert(r.contains(t));
        }
        assert(r.to_multiset() =~= r.to_multiset().remove(t).insert(t));
    }
}

/// The sort of any task list is sorted, is a permutation of the input,
/// and keeps the input's length.
pub proof fn lemma_sort_spec_props(s: Seq<Task>, c: Column, d: Direction)
    ensures
        sorted_by(sort_spec(s, c, d), c, d),
        sort_spec(s, c, d).to_multiset() =~= s.to_multiset(),
        sort_spec(s, c, d).len() == s.len(),
    decreases s.len(),
{
    broadcast use vstd::seq_lib::group_to_multiset_ensures;

    if s.len() == 0 {
    } else {
        lemma_sort_spec_props(s.drop_last(), c, d);
        lemma_insert_sorted_props(sort_spec(s.drop_last(), c, d), c, d, s.last());
        assert(s =~= s.drop_last().push(s.last()));
    }
}

/// Compare two strings lexicographically; agrees with [`lex_le`].
fn str_le(a: &str, b: &str) -> (r: bool)
    ensures
        r == lex_le(a@, b@),
{
    let alen = a.unicode_len();
    let blen = b.unicode_len();
    let mut i: usize = 0;
    proof {
        assert(a@.skip(0) =~= a@);
        assert(b@.skip(0) =~= b@);
    }
    while i < alen && i < blen
        invariant
            i <= alen,
            i <= blen,
            alen == a@.len(),
            blen == b@.len(),
            lex_le(a@, b@) == lex_le(a@.skip(i as int), b@.skip(i as int)),
        decreases alen - i,
    {
        let ca = a.get_char(i);
        let cb = b.get_char(i);
        if (ca as u32) < (cb as u32) {
            return true;
        }
        if (cb as u32) < (ca as u32) {
            return false;
        }
        proof {
            assert(a@.skip(i as int).drop_first() =~= a@.skip(i + 1));
            assert(b@.skip(i as int).drop_first() =~= b@.skip(i + 1));
        }
        i += 1;
    }
    proof {
        if alen <= blen {
            assert(a@.skip(i as int).len() == 0);
        } else {
            assert(b@.skip(i as int).len() == 0);
            assert(a@.skip(i as int).len() > 0);
        }
    }
    alen <= blen
}

/// Decide whether `a` may come before `b` under column `c` in direction `d`;
/// agrees with [`before`].
pub fn task_before(c: Column, d: Direction, a: &Task, b: &Task) -> (r: bool)
    ensures
        r == before(c, d, *a, *b),
{
    match d {
        Direction::Ascending => task_col_le(c, a, b),
        Direction::Descending => task_col_le(c, b, a),
    }
}

/// Decide whether `a` is at or before `b` under column `c`, ascending;
/// agrees with [`col_le`].
fn task_col_le(c: Column, a: &Task, b: &Task) -> (r: bool)
    ensures
        r == col_le(c, *a, *b),
{
    match c {
        Column::Id => a.id <= b.id,
        Column::Status => crate::task::rank_status(&a.status) <= crate::task::rank_status(
            &b.status,
        ),
        Column::Command => str_le(a.command.as_str(), b.command.as_str()),
        Column::Path => str_le(a.path.as_str(), b.path.as_str()),
        Column::Label => match (&a.label, &b.label) {
            (Option::None, _) => true,
            (Option::Some(_), Option::None) => false,
            (Option::Some(x), Option::Some(y)) => str_le(x.as_str(), y.as_str()),
        },
        Column::Start => opt_u64_le_exec(&a.start, &b.start),
        Column::End => opt_u64_le_exec(&a.end, &b.end),
    }
}

/// Decide the order on optional timestamps; agrees with [`opt_u64_le`].
fn opt_u64_le_exec(a: &Option<u64>, b: &Option<u64>) -> (r: bool)
    ensures
        r == opt_u64_le(*a, *b),
{
    match (a, b) {
        (Option::None, _) => true,
        (Option::Some(_), Option::None) => false,
        (Option::Some(x), Option::Some(y)) => *x <= *y,
    }
}

/// Sort `tasks` stably by column `c` in direction `d`: the result is exactly
/// [`sort_spec`] of the input.
pub fn sort_tasks(tasks: Vec<Task>, c: Column, d: Direction) -> (r: Vec<Task>)
    ensures
        r@ == sort_spec(tasks@, c, d),
{
    let ghost orig = tasks@;
    let mut input = tasks;
    let mut out: Vec<Task> = Vec::new();
    while input.len() > 0
        invariant
            input@.len() <= orig.len(),
            input@ =~= orig.skip(orig.len() - input@.len()),
            out@ == sort_spec(orig.take(orig.len() - input@.len()), c, d),
        decreases input.len(),
    {
        let ghost i = orig.len() - input@.len();
        proof {
            assert(0 <= i < orig.len());
            assert(input@[0] == orig.skip(i)[0]);
            assert(orig.skip(i)[0] == orig[i]);
        }
        let t = input.remove(0);
        proof {
            assert(t == orig[i]);
            assert(input@ =~= orig.skip(i).drop_first());
            assert(orig.skip(i).drop_first() =~= orig.skip(i + 1));
            assert(input@.len() == orig.len() - i - 1);
        }
        let mut j: usize = 0;
        while j < out.len() && task_before(c, d, &out[j], &t)
            invariant
                j <= out.len(),
                forall|k: int| 0 <= k < j ==> before(c, d, #[trigger] out@[k], t),
            decreases out.len() - j,
        {
            j += 1;
        }
        proof {
            lemma_insert_sorted_at(out@, c, d, t, j as int);
            assert(orig.take(i + 1).drop_last() =~= orig.take(i));
            assert(orig.take(i + 1).last() == orig[i]);
            assert(out@.insert(j as int, t) =~= out@.take(j as int) + seq![t] + out@.skip(
                j as int,
            ));
        }
        out.insert(j, t);
    }
    proof {
        assert(orig.take(orig.len() as int) =~= orig);
    }
    out
}

} // verus!
