//! The query language parser.
//!
//! A query is a whitespace-separated list of sections:
//!
//! ```text
//! query    =  section { whitespace section }
//! section  =  "columns=" ident { "," ident }
//!          |  ("start" | "end") op iso8601
//!          |  "label" ("=" | "!=" | "%=") string
//!          |  "status" ("=" | "!=") status_value
//!          |  "order_by" ident [ "asc" | "desc" ]
//!          |  ("first" | "last") integer
//! op       =  "<" | "<=" | "=" | "!=" | ">=" | ">"
//! ```
//!
//! Every parsing function is specified by a spec function over character
//! sequences and proved to agree with it; [`parse_query_spec`] is the
//! meaning of a whole query.

use vstd::prelude::*;

use crate::filters::{CmpOp, DateField, EqOp, FilterClause, FilterSpec, LabelOp, StatusValue};
use crate::limit::Limit;
use crate::ordering::{Column, Direction};
use crate::query::{empty_query, QueryResult, QuerySpec};
use crate::task::spec_datetime_key;

verus! {

/// Why a query was rejected: it does not follow the grammar, or it names
/// a column the task table does not have.
#[derive(Clone, Copy, Debug, PartialEq, Eq, Structural)]
pub enum QueryError {
    Malformed,
    UnknownColumn,
}

/// The characters that separate sections.
pub open spec fn is_space(c: char) -> bool {
    c == ' ' || c == '\t' || c == '\n' || c == '\r'
}

/// Split into whitespace-separated words, accumulator form: `cur` is the
/// word being read, `acc` the words already read.
pub open spec fn split_acc(s: Seq<char>, cur: Seq<char>, acc: Seq<Seq<char>>) -> Seq<Seq<char>>
    decreases s.len(),
{
    if s.len() == 0 {
        if cur.len() == 0 {
            acc
        } else {
            acc.push(cur)
        }
    } else if is_space(s[0]) {
        if cur.len() == 0 {
            split_acc(s.drop_first(), cur, acc)
        } else {
            split_acc(s.drop_first(), Seq::empty(), acc.push(cur))
        }
    } else {
        split_acc(s.drop_first(), cur.push(s[0]), acc)
    }
}

/// The whitespace-separated words of a query.
pub open spec fn split_words_spec(s: Seq<char>) -> Seq<Seq<char>> {
    split_acc(s, Seq::empty(), Seq::empty())
}

/// The views of a vector of words.
pub open spec fn words_view(ws: Seq<Vec<char>>) -> Seq<Seq<char>> {
    ws.map_values(|w: Vec<char>| w@)
}

/// Split a query into its whitespace-separated words; agrees with
/// [`split_words_spec`].
pub fn split_words(q: &str) -> (r: Vec<Vec<char>>)
    ensures
        words_view(r@) == split_words_spec(q@),
{
    let n = q.unicode_len();
    let mut i: usize = 0;
    let mut cur: Vec<char> = Vec::new();
    let mut out: Vec<Vec<char>> = Vec::new();
    proof {
        assert(q@.skip(0) =~= q@);
        assert(words_view(out@) =~= Seq::<Seq<char>>::empty());
    }
    while i < n
        invariant
            i <= n,
            n == q@.len(),
            split_acc(q@.skip(i as int), cur@, words_view(out@)) == split_words_spec(q@),
        decreases n - i,
    {
        let c = q.get_char(i);
        proof {
            assert(q@.skip(i as int)[0] == q@[i as int]);
            assert(q@.skip(i as int).drop_first() =~= q@.skip(i + 1));
        }
        if c == ' ' || c == '\t' || c == '\n' || c == '\r' {
            if cur.len() > 0 {
                let ghost old_out = out@;
                let ghost old_cur = cur@;
                out.push(cur);
                cur = Vec::new();
                proof {
                    assert(words_view(out@) =~= words_view(old_out).push(old_cur));
                    assert(cur@ =~= Seq::<char>::empty());
                }
            }
        } else {
            cur.push(c);
        }
        i += 1;
    }
    if cur.len() > 0 {
        let ghost old_out = out@;
        let ghost old_cur = cur@;
        out.push(cur);
        proof {
            assert(words_view(out@) =~= words_view(old_out).push(old_cur));
        }
    }
    proof {
        assert(q@.skip(n as int) =~= Seq::<char>::empty());
    }
    out
}

/// `w` begins with the characters of `p`.
pub open spec fn starts_with(w: Seq<char>, p: Seq<char>) -> bool {
    w.len() >= p.len() && w.take(p.len() as int) == p
}

/// Decide whether `w`, from position `from` on, begins with `p`.
pub fn starts_with_at(w: &Vec<char>, from: usize, p: &str) -> (r: bool)
    requires
        from <= w@.len(),
    ensures
        r == starts_with(w@.skip(from as int), p@),
{
    let n = p.unicode_len();
    if w.len() - from < n {
        return false;
    }
    let mut i: usize = 0;
    while i < n
        invariant
            i <= n,
            n == p@.len(),
            from + n <= w@.len(),
            w@.len() <= usize::MAX,
            forall|j: int| 0 <= j < i ==> w@[from + j] == p@[j],
        decreases n - i,
    {
        if w[from + i] != p.get_char(i) {
            proof {
                assert(w@.skip(from as int)[i as int] == w@[from + i]);
                assert(w@.skip(from as int).take(p@.len() as int)[i as int] == w@[from + i]);
            }
            return false;
        }
        i += 1;
    }
    proof {
        assert forall|j: int| 0 <= j < p@.len() implies w@.skip(from as int).take(
            p@.len() as int,
        )[j] == p@[j] by {
            assert(w@.skip(from as int).take(p@.len() as int)[j] == w@[from + j]);
        }
        assert(w@.skip(from as int).take(p@.len() as int) =~= p@);
    }
    true
}

/// Decide whether `w`, from position `from` on, is exactly `p`.
pub fn eq_from(w: &Vec<char>, from: usize, p: &str) -> (r: bool)
    requires
        from <= w@.len(),
    ensures
        r == (w@.skip(from as int) == p@),
{
    let n = p.unicode_len();
    if w.len() - from != n {
        return false;
    }
    let mut i: usize = 0;
    while i < n
        invariant
            i <= n,
            n == p@.len(),
            from + n == w@.len(),
            w@.len() <= usize::MAX,
            forall|j: int| 0 <= j < i ==> w@[from + j] == p@[j],
        decreases n - i,
    {
        if w[from + i] != p.get_char(i) {
            proof {
                assert(w@.skip(from as int)[i as int] == w@[from + i]);
            }
            return false;
        }
        i += 1;
    }
    proof {
        assert forall|j: int| 0 <= j < p@.len() implies w@.skip(from as int)[j] == p@[j] by {
            assert(w@.skip(from as int)[j] == w@[from + j]);
        }
        assert(w@.skip(from as int) =~= p@);
    }
    true
}

/// Decide whether the whole word `w` is exactly `p`.
pub fn eq_word(w: &Vec<char>, p: &str) -> (r: bool)
    ensures
        r == (w@ == p@),
{
    proof {
        assert(w@.skip(0) =~= w@);
    }
    eq_from(w, 0, p)
}

/// Copy the characters of `w` from position `from` on.
pub fn copy_from(w: &Vec<char>, from: usize) -> (r: Vec<char>)
    requires
        from <= w@.len(),
    ensures
        r@ == w@.skip(from as int),
{
    let mut out: Vec<char> = Vec::new();
    let mut i: usize = from;
    while i < w.len()
        invariant
            from <= i <= w@.len(),
            out@.len() == i - from,
            forall|j: int| 0 <= j < out@.len() ==> out@[j] == w@[from + j],
        decreases w@.len() - i,
    {
        out.push(w[i]);
        i += 1;
    }
    proof {
        assert forall|j: int| 0 <= j < out@.len() implies out@[j] == w@.skip(from as int)[j] by {
            assert(w@.skip(from as int)[j] == w@[from + j]);
        }
        assert(out@ =~= w@.skip(from as int));
    }
    out
}

/// A decimal digit.
pub open spec fn is_digit(c: char) -> bool {
    ('0' as u32) <= (c as u32) && (c as u32) <= ('9' as u32)
}

/// The value of a decimal digit.
pub open spec fn digit_val(c: char) -> int {
    (c as u32) - ('0' as u32)
}

/// Every character of `s` is a decimal digit.
pub open spec fn all_digits(s: Seq<char>) -> bool {
    forall|i: int| 0 <= i < s.len() ==> is_digit(#[trigger] s[i])
}

/// The value of a sequence of decimal digits, most significant first.
pub open spec fn int_val(s: Seq<char>) -> int
    decreases s.len(),
{
    if s.len() == 0 {
        0
    } else {
        int_val(s.drop_last()) * 10 + digit_val(s.last())
    }
}

/// Ten to the `n`.
pub open spec fn pow10(n: nat) -> int
    decreases n,
{
    if n == 0 {
        1
    } else {
        10 * pow10((n - 1) as nat)
    }
}

proof fn lemma_pow10_pos(n: nat)
    ensures
        pow10(n) >= 1,
    decreases n,
{
    if n > 0 {
        lemma_pow10_pos((n - 1) as nat);
    }
}

proof fn lemma_pow10_mono(a: nat, b: nat)
    requires
        a <= b,
    ensures
        pow10(a) <= pow10(b),
    decreases b,
{
    if a < b {
        lemma_pow10_mono(a, (b - 1) as nat);
        lemma_pow10_pos((b - 1) as nat);
    }
}

/// A digit string's value is below ten to its length.
proof fn lemma_int_val_bound(s: Seq<char>)
    requires
        all_digits(s),
    ensures
        0 <= int_val(s) < pow10(s.len()),
    decreases s.len(),
{
    if s.len() > 0 {
        assert(all_digits(s.drop_last())) by {
            assert(forall|i: int|
                0 <= i < s.len() - 1 ==> s.drop_last()[i] == #[trigger] s[i]);
        }
        lemma_int_val_bound(s.drop_last());
        assert(digit_val(s.last()) <= 9);
    }
}

/// Read the digits of `w` at positions `from..to` as a number, or `None`
/// if some character there is not a digit.
fn digits_val(w: &Vec<char>, from: usize, to: usize) -> (r: Option<u64>)
    requires
        from <= to <= w@.len(),
        to - from <= 18,
    ensures
        match r {
            Option::Some(v) => all_digits(w@.subrange(from as int, to as int)) && v as int
                == int_val(w@.subrange(from as int, to as int)),
            Option::None => !all_digits(w@.subrange(from as int, to as int)),
        },
{
    let ghost whole = w@.subrange(from as int, to as int);
    let mut acc: u64 = 0;
    let mut i: usize = from;
    proof {
        assert(w@.subrange(from as int, from as int) =~= Seq::<char>::empty());
    }
    while i < to
        invariant
            from <= i <= to <= w@.len(),
            to - from <= 18,
            whole == w@.subrange(from as int, to as int),
            all_digits(w@.subrange(from as int, i as int)),
            acc as int == int_val(w@.subrange(from as int, i as int)),
        decreases to - i,
    {
        let c = w[i];
        if (c as u32) < ('0' as u32) || ('9' as u32) < (c as u32) {
            proof {
                assert(whole[i - from] == w@[i as int]);
                assert(!is_digit(whole[i - from]));
            }
            return Option::None;
        }
        let ghost part = w@.subrange(from as int, i as int);
        let ghost next = w@.subrange(from as int, i + 1);
        proof {
            assert(next.drop_last() =~= part);
            assert(next.last() == w@[i as int]);
            assert(all_digits(next));
            lemma_int_val_bound(part);
            lemma_pow10_mono(part.len(), 17);
            assert(pow10(17) == 100000000000000000) by {
                reveal_with_fuel(pow10, 18);
            }
        }
        let d = ((c as u32) - ('0' as u32)) as u64;
        acc = acc * 10 + d;
        i += 1;
    }
    Option::Some(acc)
}

/// The column a query identifier names, if any.
pub open spec fn column_of(w: Seq<char>) -> Option<Column> {
    if w == "id"@ {
        Option::Some(Column::Id)
    } else if w == "status"@ {
        Option::Some(Column::Status)
    } else if w == "command"@ {
        Option::Some(Column::Command)
    } else if w == "path"@ {
        Option::Some(Column::Path)
    } else if w == "label"@ {
        Option::Some(Column::Label)
    } else if w == "start"@ {
        Option::Some(Column::Start)
    } else if w == "end"@ {
        Option::Some(Column::End)
    } else {
        Option::None
    }
}

/// Map a word to a column; agrees with [`column_of`].
pub fn column_of_word(w: &Vec<char>) -> (r: Option<Column>)
    ensures
        r == column_of(w@),
{
    if eq_word(w, "id") {
        Option::Some(Column::Id)
    } else if eq_word(w, "status") {
        Option::Some(Column::Status)
    } else if eq_word(w, "command") {
        Option::Some(Column::Command)
    } else if eq_word(w, "path") {
        Option::Some(Column::Path)
    } else if eq_word(w, "label") {
        Option::Some(Column::Label)
    } else if eq_word(w, "start") {
        Option::Some(Column::Start)
    } else if eq_word(w, "end") {
        Option::Some(Column::End)
    } else {
        Option::None
    }
}

/// The status a filter value names, if any.
pub open spec fn status_value_of(w: Seq<char>) -> Option<StatusValue> {
    if w == "stashed"@ {
        Option::Some(StatusValue::Stashed)
    } else if w == "locked"@ {
        Option::Some(StatusValue::Locked)
    } else if w == "queued"@ {
        Option::Some(StatusValue::Queued)
    } else if w == "paused"@ {
        Option::Some(StatusValue::Paused)
    } else if w == "running"@ {
        Option::Some(StatusValue::Running)
    } else if w == "success"@ {
        Option::Some(StatusValue::Success)
    } else if w == "failed"@ {
        Option::Some(StatusValue::Failed)
    } else {
        Option::None
    }
}

/// Map the tail of a word, from `from` on, to a status filter value;
/// agrees with [`status_value_of`].
fn status_value_at(w: &Vec<char>, from: usize) -> (r: Option<StatusValue>)
    requires
        from <= w@.len(),
    ensures
        r == status_value_of(w@.skip(from as int)),
{
    if eq_from(w, from, "stashed") {
        Option::Some(StatusValue::Stashed)
    } else if eq_from(w, from, "locked") {
        Option::Some(StatusValue::Locked)
    } else if eq_from(w, from, "queued") {
        Option::Some(StatusValue::Queued)
    } else if eq_from(w, from, "paused") {
        Option::Some(StatusValue::Paused)
    } else if eq_from(w, from, "running") {
        Option::Some(StatusValue::Running)
    } else if eq_from(w, from, "success") {
        Option::Some(StatusValue::Success)
    } else if eq_from(w, from, "failed") {
        Option::Some(StatusValue::Failed)
    } else {
        Option::None
    }
}

/// The count of a `first`/`last` section: a non-empty string of at most 18
/// digits whose value fits the platform's list sizes.
pub open spec fn parse_count(w: Seq<char>) -> Result<usize, QueryError> {
    if w.len() == 0 || w.len() > 18 || !all_digits(w) {
        Result::Err(QueryError::Malformed)
    } else if int_val(w) > usize::MAX {
        Result::Err(QueryError::Malformed)
    } else {
        Result::Ok(int_val(w) as usize)
    }
}

/// Read a limit count; agrees with [`parse_count`].
fn parse_count_word(w: &Vec<char>) -> (r: Result<usize, QueryError>)
    ensures
        r == parse_count(w@),
{
    if w.len() == 0 || w.len() > 18 {
        return Result::Err(QueryError::Malformed);
    }
    proof {
        assert(w@.subrange(0, w@.len() as int) =~= w@);
    }
    match digits_val(w, 0, w.len()) {
        Option::None => Result::Err(QueryError::Malformed),
        Option::Some(v) => {
            if v > (usize::MAX as u64) {
                Result::Err(QueryError::Malformed)
            } else {
                Result::Ok(v as usize)
            }
        },
    }
}

/// The timestamp key of an ISO 8601 date (`2021-01-01`) or date-time
/// (`2021-01-01T12:00:00`), or `None` if the word is neither.
pub open spec fn parse_datetime(w: Seq<char>) -> Option<u64> {
    if w.len() != 10 && w.len() != 19 {
        Option::None
    } else if !(all_digits(w.subrange(0, 4)) && w[4] == '-' && all_digits(w.subrange(5, 7))
        && w[7] == '-' && all_digits(w.subrange(8, 10))) {
        Option::None
    } else {
        let y = int_val(w.subrange(0, 4));
        let mo = int_val(w.subrange(5, 7));
        let d = int_val(w.subrange(8, 10));
        if !(1 <= mo && mo <= 12 && 1 <= d && d <= 31) {
            Option::None
        } else if w.len() == 10 {
            Option::Some(spec_datetime_key(y, mo, d, 0, 0, 0) as u64)
        } else if !(w[10] == 'T' && all_digits(w.subrange(11, 13)) && w[13] == ':' && all_digits(
            w.subrange(14, 16),
        ) && w[16] == ':' && all_digits(w.subrange(17, 19))) {
            Option::None
        } else {
            let h = int_val(w.subrange(11, 13));
            let mi = int_val(w.subrange(14, 16));
            let sec = int_val(w.subrange(17, 19));
            if h <= 23 && mi <= 59 && sec <= 59 {
                Option::Some(spec_datetime_key(y, mo, d, h, mi, sec) as u64)
            } else {
                Option::None
            }
        }
    }
}

/// Read the two-digit number of `w` at `from..from + 2`.
fn two_digits(w: &Vec<char>, from: usize) -> (r: Option<u64>)
    requires
        from + 2 <= w@.len(),
    ensures
        match r {
            Option::Some(v) => all_digits(w@.subrange(from as int, from + 2)) && v as int
                == int_val(w@.subrange(from as int, from + 2)) && v <= 99,
            Option::None => !all_digits(w@.subrange(from as int, from + 2)),
        },
{
    let n = w.len();
    proof {
        assert(w@.len() <= usize::MAX);
    }
    let r = digits_val(w, from, from + 2);
    proof {
        if r is Some {
            lemma_int_val_bound(w@.subrange(from as int, from + 2));
            assert(pow10(2) == 100) by {
                reveal_with_fuel(pow10, 3);
            }
        }
    }
    r
}

/// Read an ISO 8601 date or date-time from `w` at `from` on; agrees with
/// [`parse_datetime`].
fn parse_datetime_at(w: &Vec<char>, from: usize) -> (r: Option<u64>)
    requires
        from <= w@.len(),
    ensures
        r == parse_datetime(w@.skip(from as int)),
{
    let ghost v = w@.skip(from as int);
    let len = w.len() - from;
    if len != 10 && len != 19 {
        return Option::None;
    }
    proof {
        assert(v.subrange(0, 4) =~= w@.subrange(from as int, from + 4));
        assert(v.subrange(5, 7) =~= w@.subrange(from + 5, from + 7));
        assert(v.subrange(8, 10) =~= w@.subrange(from + 8, from + 10));
        assert(v[4] == w@[from + 4]);
        assert(v[7] == w@[from + 7]);
    }
    let y = match digits_val(w, from, from + 4) {
        Option::Some(y) => y,
        Option::None => {
            return Option::None;
        },
    };
    if w[from + 4] != '-' {
        return Option::None;
    }
    let mo = match two_digits(w, from + 5) {
        Option::Some(mo) => mo,
        Option::None => {
            return Option::None;
        },
    };
    if w[from + 7] != '-' {
        return Option::None;
    }
    let d = match two_digits(w, from + 8) {
        Option::Some(d) => d,
        Option::None => {
            return Option::None;
        },
    };
    if !(1 <= mo && mo <= 12 && 1 <= d && d <= 31) {
        return Option::None;
    }
    proof {
        lemma_int_val_bound(w@.subrange(from as int, from + 4));
        assert(pow10(4) == 10000) by {
            reveal_with_fuel(pow10, 5);
        }
    }
    if len == 10 {
        let k = crate::task::datetime_key(y, mo, d, 0, 0, 0);
        return Option::Some(k);
    }
    proof {
        assert(v[10] == w@[from + 10]);
        assert(v[13] == w@[from + 13]);
        assert(v[16] == w@[from + 16]);
        assert(v.subrange(11, 13) =~= w@.subrange(from + 11, from + 13));
        assert(v.subrange(14, 16) =~= w@.subrange(from + 14, from + 16));
        assert(v.subrange(17, 19) =~= w@.subrange(from + 17, from + 19));
    }
    if w[from + 10] != 'T' {
        return Option::None;
    }
    let h = match two_digits(w, from + 11) {
        Option::Some(h) => h,
        Option::None => {
            return Option::None;
        },
    };
    if w[from + 13] != ':' {
        return Option::None;
    }
    let mi = match two_digits(w, from + 14) {
        Option::Some(mi) => mi,
        Option::None => {
            return Option::None;
        },
    };
    if w[from + 16] != ':' {
        return Option::None;
    }
    let sec = match two_digits(w, from + 17) {
        Option::Some(sec) => sec,
        Option::None => {
            return Option::None;
        },
    };
    if h <= 23 && mi <= 59 && sec <= 59 {
        let k = crate::task::datetime_key(y, mo, d, h, mi, sec);
        Option::Some(k)
    } else {
        Option::None
    }
}


/// The meaning of a `label...` section word (after the 5-character head):
/// an operator, then the string to compare labels against.
pub open spec fn parse_label_section(w: Seq<char>) -> Result<FilterSpec, QueryError> {
    let rest = w.skip(5);
    if starts_with(rest, "!="@) {
        Result::Ok(FilterSpec::Label { op: LabelOp::NotEquals, needle: rest.skip(2) })
    } else if starts_with(rest, "%="@) {
        Result::Ok(FilterSpec::Label { op: LabelOp::Contains, needle: rest.skip(2) })
    } else if starts_with(rest, "="@) {
        Result::Ok(FilterSpec::Label { op: LabelOp::Equals, needle: rest.skip(1) })
    } else {
        Result::Err(QueryError::Malformed)
    }
}

/// Read a `label...` section word; agrees with [`parse_label_section`].
fn parse_label_word(w: &Vec<char>) -> (r: Result<FilterClause, QueryError>)
    requires
        5 <= w@.len(),
    ensures
        match (r, parse_label_section(w@)) {
            (Result::Ok(f), Result::Ok(fs)) => f@ == fs,
            (Result::Err(a), Result::Err(b)) => a == b,
            _ => false,
        },
{
    let n = w.len();
    proof {
        reveal_strlit("!=");
        reveal_strlit("%=");
        reveal_strlit("=");
    }
    if starts_with_at(w, 5, "!=") {
        let needle = copy_from(w, 7);
        proof {
            assert(w@.skip(5).skip(2) =~= w@.skip(7));
        }
        Result::Ok(FilterClause::Label { op: LabelOp::NotEquals, needle })
    } else if starts_with_at(w, 5, "%=") {
        let needle = copy_from(w, 7);
        proof {
            assert(w@.skip(5).skip(2) =~= w@.skip(7));
        }
        Result::Ok(FilterClause::Label { op: LabelOp::Contains, needle })
    } else if starts_with_at(w, 5, "=") {
        let needle = copy_from(w, 6);
        proof {
            assert(w@.skip(5).skip(1) =~= w@.skip(6));
        }
        Result::Ok(FilterClause::Label { op: LabelOp::Equals, needle })
    } else {
        Result::Err(QueryError::Malformed)
    }
}

/// The meaning of a `status...` section word (after the 6-character head):
/// `=` or `!=`, then a status value.
pub open spec fn parse_status_section(w: Seq<char>) -> Result<FilterSpec, QueryError> {
    let rest = w.skip(6);
    if starts_with(rest, "!="@) {
        match status_value_of(rest.skip(2)) {
            Option::Some(v) => Result::Ok(FilterSpec::Status { op: EqOp::Ne, value: v }),
            Option::None => Result::Err(QueryError::Malformed),
        }
    } else if starts_with(rest, "="@) {
        match status_value_of(rest.skip(1)) {
            Option::Some(v) => Result::Ok(FilterSpec::Status { op: EqOp::Eq, value: v }),
            Option::None => Result::Err(QueryError::Malformed),
        }
    } else {
        Result::Err(QueryError::Malformed)
    }
}

/// Read a `status...` section word; agrees with [`parse_status_section`].
fn parse_status_word(w: &Vec<char>) -> (r: Result<FilterClause, QueryError>)
    requires
        6 <= w@.len(),
    ensures
        match (r, parse_status_section(w@)) {
            (Result::Ok(f), Result::Ok(fs)) => f@ == fs,
            (Result::Err(a), Result::Err(b)) => a == b,
            _ => false,
        },
{
    let n = w.len();
    proof {
        reveal_strlit("!=");
        reveal_strlit("=");
    }
    if starts_with_at(w, 6, "!=") {
        proof {
            assert(w@.skip(6).skip(2) =~= w@.skip(8));
        }
        match status_value_at(w, 8) {
            Option::Some(v) => Result::Ok(FilterClause::Status { op: EqOp::Ne, value: v }),
            Option::None => Result::Err(QueryError::Malformed),
        }
    } else if starts_with_at(w, 6, "=") {
        proof {
            assert(w@.skip(6).skip(1) =~= w@.skip(7));
        }
        match status_value_at(w, 7) {
            Option::Some(v) => Result::Ok(FilterClause::Status { op: EqOp::Eq, value: v }),
            Option::None => Result::Err(QueryError::Malformed),
        }
    } else {
        Result::Err(QueryError::Malformed)
    }
}

/// The comparison operator at the head of `rest`, and what follows it.
/// Two-character operators are tried before their one-character prefixes.
pub open spec fn parse_cmp_op(rest: Seq<char>) -> Option<(CmpOp, Seq<char>)> {
    if starts_with(rest, "<="@) {
        Option::Some((CmpOp::Le, rest.skip(2)))
    } else if starts_with(rest, ">="@) {
        Option::Some((CmpOp::Ge, rest.skip(2)))
    } else if starts_with(rest, "!="@) {
        Option::Some((CmpOp::Ne, rest.skip(2)))
    } else if starts_with(rest, "<"@) {
        Option::Some((CmpOp::Lt, rest.skip(1)))
    } else if starts_with(rest, ">"@) {
        Option::Some((CmpOp::Gt, rest.skip(1)))
    } else if starts_with(rest, "="@) {
        Option::Some((CmpOp::Eq, rest.skip(1)))
    } else {
        Option::None
    }
}

/// The meaning of a `start...`/`end...` section word, after its head:
/// a comparison operator, then an ISO 8601 date or date-time.
pub open spec fn parse_datetime_section(field: DateField, rest: Seq<char>) -> Result<
    FilterSpec,
    QueryError,
> {
    match parse_cmp_op(rest) {
        Option::Some((op, v)) => match parse_datetime(v) {
            Option::Some(k) => Result::Ok(FilterSpec::Datetime { field, op, value: k }),
            Option::None => Result::Err(QueryError::Malformed),
        },
        Option::None => Result::Err(QueryError::Malformed),
    }
}

/// Read a datetime filter from `w` at `base` on; agrees with
/// [`parse_datetime_section`].
fn parse_datetime_word(w: &Vec<char>, field: DateField, base: usize) -> (r: Result<
    FilterClause,
    QueryError,
>)
    requires
        base <= w@.len(),
    ensures
        match (r, parse_datetime_section(field, w@.skip(base as int))) {
            (Result::Ok(f), Result::Ok(fs)) => f@ == fs,
            (Result::Err(a), Result::Err(b)) => a == b,
            _ => false,
        },
{
    let n = w.len();
    proof {
        reveal_strlit("<=");
        reveal_strlit(">=");
        reveal_strlit("!=");
        reveal_strlit("<");
        reveal_strlit(">");
        reveal_strlit("=");
    }
    let op: CmpOp;
    let vb: usize;
    if starts_with_at(w, base, "<=") {
        op = CmpOp::Le;
        vb = base + 2;
    } else if starts_with_at(w, base, ">=") {
        op = CmpOp::Ge;
        vb = base + 2;
    } else if starts_with_at(w, base, "!=") {
        op = CmpOp::Ne;
        vb = base + 2;
    } else if starts_with_at(w, base, "<") {
        op = CmpOp::Lt;
        vb = base + 1;
    } else if starts_with_at(w, base, ">") {
        op = CmpOp::Gt;
        vb = base + 1;
    } else if starts_with_at(w, base, "=") {
        op = CmpOp::Eq;
        vb = base + 1;
    } else {
        return Result::Err(QueryError::Malformed);
    }
    proof {
        assert(w@.skip(base as int).skip(vb - base) =~= w@.skip(vb as int));
    }
    match parse_datetime_at(w, vb) {
        Option::Some(k) => Result::Ok(FilterClause::Datetime { field, op, value: k }),
        Option::None => Result::Err(QueryError::Malformed),
    }
}

/// Split on commas, accumulator form; empty fields are kept, so a list
/// always has one more field than it has commas.
pub open spec fn split_commas_acc(s: Seq<char>, cur: Seq<char>, acc: Seq<Seq<char>>) -> Seq<
    Seq<char>,
>
    decreases s.len(),
{
    if s.len() == 0 {
        acc.push(cur)
    } else if s[0] == ',' {
        split_commas_acc(s.drop_first(), Seq::empty(), acc.push(cur))
    } else {
        split_commas_acc(s.drop_first(), cur.push(s[0]), acc)
    }
}

/// The columns the comma-separated fields name; an empty field is a
/// grammar error, a well-formed unknown identifier a column error.
pub open spec fn columns_of(fields: Seq<Seq<char>>) -> Result<Seq<Column>, QueryError>
    decreases fields.len(),
{
    if fields.len() == 0 {
        Result::Ok(Seq::empty())
    } else {
        match column_of(fields[0]) {
            Option::Some(c) => match columns_of(fields.drop_first()) {
                Result::Ok(rest) => Result::Ok(seq![c] + rest),
                Result::Err(e) => Result::Err(e),
            },
            Option::None => if fields[0].len() == 0 {
                Result::Err(QueryError::Malformed)
            } else {
                Result::Err(QueryError::UnknownColumn)
            },
        }
    }
}

/// The meaning of the ident list after `columns=`.
pub open spec fn parse_columns(s: Seq<char>) -> Result<Seq<Column>, QueryError> {
    columns_of(split_commas_acc(s, Seq::empty(), Seq::empty()))
}

/// Split `w`, from `from` on, at commas.
fn split_commas_at(w: &Vec<char>, from: usize) -> (r: Vec<Vec<char>>)
    requires
        from <= w@.len(),
    ensures
        words_view(r@) == split_commas_acc(w@.skip(from as int), Seq::empty(), Seq::empty()),
{
    let mut i: usize = from;
    let mut cur: Vec<char> = Vec::new();
    let mut out: Vec<Vec<char>> = Vec::new();
    proof {
        assert(words_view(out@) =~= Seq::<Seq<char>>::empty());
    }
    while i < w.len()
        invariant
            from <= i <= w@.len(),
            split_commas_acc(w@.skip(i as int), cur@, words_view(out@)) == split_commas_acc(
                w@.skip(from as int),
                Seq::empty(),
                Seq::empty(),
            ),
        decreases w@.len() - i,
    {
        let c = w[i];
        proof {
            assert(w@.skip(i as int)[0] == w@[i as int]);
            assert(w@.skip(i as int).drop_first() =~= w@.skip(i + 1));
        }
        if c == ',' {
            let ghost old_out = out@;
            let ghost old_cur = cur@;
            out.push(cur);
            cur = Vec::new();
            proof {
                assert(words_view(out@) =~= words_view(old_out).push(old_cur));
                assert(cur@ =~= Seq::<char>::empty());
            }
        } else {
            cur.push(c);
        }
        i += 1;
    }
    let ghost old_out = out@;
    let ghost old_cur = cur@;
    out.push(cur);
    proof {
        assert(words_view(out@) =~= words_view(old_out).push(old_cur));
        assert(w@.skip(w@.len() as int) =~= Seq::<char>::empty());
    }
    out
}

/// Map comma-separated fields to columns; agrees with [`columns_of`].
fn columns_of_fields(fields: &Vec<Vec<char>>, i: usize) -> (r: Result<Vec<Column>, QueryError>)
    requires
        i <= fields@.len(),
    ensures
        match (r, columns_of(words_view(fields@).skip(i as int))) {
            (Result::Ok(v), Result::Ok(s)) => v@ == s,
            (Result::Err(a), Result::Err(b)) => a == b,
            _ => false,
        },
    decreases fields@.len() - i,
{
    let ghost fsv = words_view(fields@).skip(i as int);
    if i == fields.len() {
        proof {
            assert(fsv.len() == 0);
        }
        return Result::Ok(Vec::new());
    }
    proof {
        assert(fsv[0] == words_view(fields@)[i as int]);
        assert(fsv.drop_first() =~= words_view(fields@).skip(i + 1));
    }
    match column_of_word(&fields[i]) {
        Option::Some(c) => match columns_of_fields(fields, i + 1) {
            Result::Ok(mut rest) => {
                let ghost old_rest = rest@;
                rest.insert(0, c);
                proof {
                    assert(rest@ =~= seq![c] + old_rest);
                }
                Result::Ok(rest)
            },
            Result::Err(e) => Result::Err(e),
        },
        Option::None => {
            if fields[i].len() == 0 {
                Result::Err(QueryError::Malformed)
            } else {
                Result::Err(QueryError::UnknownColumn)
            }
        },
    }
}

/// Read the ident list of a `columns=` section word, from `from` on;
/// agrees with [`parse_columns`].
fn parse_columns_at(w: &Vec<char>, from: usize) -> (r: Result<Vec<Column>, QueryError>)
    requires
        from <= w@.len(),
    ensures
        match (r, parse_columns(w@.skip(from as int))) {
            (Result::Ok(v), Result::Ok(s)) => v@ == s,
            (Result::Err(a), Result::Err(b)) => a == b,
            _ => false,
        },
{
    let fields = split_commas_at(w, from);
    proof {
        assert(words_view(fields@).skip(0) =~= words_view(fields@));
    }
    columns_of_fields(&fields, 0)
}


/// The meaning of a list of section words, folded left to right into `acc`:
/// a later `columns=`, `order_by` or limit section replaces an earlier one,
/// while filters accumulate in order.
pub open spec fn parse_sections(ws: Seq<Seq<char>>, acc: QuerySpec) -> Result<
    QuerySpec,
    QueryError,
>
    decreases ws.len(),
{
    if ws.len() == 0 {
        Result::Ok(acc)
    } else {
        let w = ws[0];
        if starts_with(w, "columns="@) {
            match parse_columns(w.skip(8)) {
                Result::Ok(cols) => parse_sections(
                    ws.drop_first(),
                    QuerySpec {
                        selected_columns: cols,
                        filters: acc.filters,
                        order_by: acc.order_by,
                        limit: acc.limit,
                    },
                ),
                Result::Err(e) => Result::Err(e),
            }
        } else if w == "order_by"@ {
            if ws.len() < 2 {
                Result::Err(QueryError::Malformed)
            } else {
                match column_of(ws[1]) {
                    Option::None => Result::Err(QueryError::UnknownColumn),
                    Option::Some(c) => {
                        if ws.len() >= 3 && ws[2] == "asc"@ {
                            parse_sections(
                                ws.skip(3),
                                QuerySpec {
                                    selected_columns: acc.selected_columns,
                                    filters: acc.filters,
                                    order_by: Option::Some((c, Direction::Ascending)),
                                    limit: acc.limit,
                                },
                            )
                        } else if ws.len() >= 3 && ws[2] == "desc"@ {
                            parse_sections(
                                ws.skip(3),
                                QuerySpec {
                                    selected_columns: acc.selected_columns,
                                    filters: acc.filters,
                                    order_by: Option::Some((c, Direction::Descending)),
                                    limit: acc.limit,
                                },
                            )
                        } else {
                            parse_sections(
                                ws.skip(2),
                                QuerySpec {
                                    selected_columns: acc.selected_columns,
                                    filters: acc.filters,
                                    order_by: Option::Some((c, Direction::Ascending)),
                                    limit: acc.limit,
                                },
                            )
                        }
                    },
                }
            }
        } else if w == "first"@ || w == "last"@ {
            if ws.len() < 2 {
                Result::Err(QueryError::Malformed)
            } else {
                match parse_count(ws[1]) {
                    Result::Ok(count) => parse_sections(
                        ws.skip(2),
                        QuerySpec {
                            selected_columns: acc.selected_columns,
                            filters: acc.filters,
                            order_by: acc.order_by,
                            limit: Option::Some(
                                (
                                    if w == "first"@ {
                                        Limit::First
                                    } else {
                                        Limit::Last
                                    },
                                    count,
                                ),
                            ),
                        },
                    ),
                    Result::Err(e) => Result::Err(e),
                }
            }
        } else if starts_with(w, "status"@) {
            match parse_status_section(w) {
                Result::Ok(f) => parse_sections(
                    ws.drop_first(),
                    QuerySpec {
                        selected_columns: acc.selected_columns,
                        filters: acc.filters.push(f),
                        order_by: acc.order_by,
                        limit: acc.limit,
                    },
                ),
                Result::Err(e) => Result::Err(e),
            }
        } else if starts_with(w, "start"@) {
            match parse_datetime_section(DateField::Start, w.skip(5)) {
                Result::Ok(f) => parse_sections(
                    ws.drop_first(),
                    QuerySpec {
                        selected_columns: acc.selected_columns,
                        filters: acc.filters.push(f),
                        order_by: acc.order_by,
                        limit: acc.limit,
                    },
                ),
                Result::Err(e) => Result::Err(e),
            }
        } else if starts_with(w, "end"@) {
            match parse_datetime_section(DateField::End, w.skip(3)) {
                Result::Ok(f) => parse_sections(
                    ws.drop_first(),
                    QuerySpec {
                        selected_columns: acc.selected_columns,
                        filters: acc.filters.push(f),
                        order_by: acc.order_by,
                        limit: acc.limit,
                    },
                ),
                Result::Err(e) => Result::Err(e),
            }
        } else if starts_with(w, "label"@) {
            match parse_label_section(w) {
                Result::Ok(f) => parse_sections(
                    ws.drop_first(),
                    QuerySpec {
                        selected_columns: acc.selected_columns,
                        filters: acc.filters.push(f),
                        order_by: acc.order_by,
                        limit: acc.limit,
                    },
                ),
                Result::Err(e) => Result::Err(e),
            }
        } else {
            Result::Err(QueryError::Malformed)
        }
    }
}

/// The meaning of a whole query string: its words, folded into the empty
/// query.
pub open spec fn parse_query_spec(s: Seq<char>) -> Result<QuerySpec, QueryError> {
    parse_sections(split_words_spec(s), empty_query())
}

/// Fold the section words from position `i` on into `acc`; agrees with
/// [`parse_sections`].
#[verifier::rlimit(100)]
#[verifier::spinoff_prover]
fn parse_sections_from(words: &Vec<Vec<char>>, i: usize, acc: QueryResult) -> (r: Result<
    QueryResult,
    QueryError,
>)
    requires
        i <= words@.len(),
    ensures
        match (r, parse_sections(words_view(words@).skip(i as int), acc@)) {
            (Result::Ok(q), Result::Ok(qs)) => q@ == qs,
            (Result::Err(a), Result::Err(b)) => a == b,
            _ => false,
        },
    decreases words@.len() - i,
{
    let ghost wsv = words_view(words@).skip(i as int);
    if i == words.len() {
        proof {
            assert(wsv.len() == 0);
        }
        return Result::Ok(acc);
    }
    let w = &words[i];
    proof {
        assert(wsv[0] == words_view(words@)[i as int]);
        assert(wsv[0] == w@);
        assert(wsv.drop_first() =~= words_view(words@).skip(i + 1));
        assert(w@.skip(0) =~= w@);
    }
    if starts_with_at(w, 0, "columns=") {
        proof {
            reveal_strlit("columns=");
            assert(w@.skip(0).take(8) =~= w@.take(8));
            assert(w@.skip(8) =~= wsv[0].skip(8));
        }
        match parse_columns_at(w, 8) {
            Result::Ok(cols) => {
                let acc2 = QueryResult {
                    selected_columns: cols,
                    filters: acc.filters,
                    order_by: acc.order_by,
                    limit: acc.limit,
                };
                parse_sections_from(words, i + 1, acc2)
            },
            Result::Err(e) => Result::Err(e),
        }
    } else if eq_word(w, "order_by") {
        if words.len() - i < 2 {
            return Result::Err(QueryError::Malformed);
        }
        proof {
            assert(wsv[1] == words_view(words@)[i + 1]);
            assert(wsv[1] == words@[i + 1]@);
        }
        match column_of_word(&words[i + 1]) {
            Option::None => Result::Err(QueryError::UnknownColumn),
            Option::Some(c) => {
                let mut dir = Direction::Ascending;
                let mut consumed: usize = 2;
                if i + 2 < words.len() {
                    proof {
                        assert(wsv[2] == words_view(words@)[i + 2]);
                        assert(wsv[2] == words@[i + 2]@);
                    }
                    if eq_word(&words[i + 2], "asc") {
                        consumed = 3;
                    } else if eq_word(&words[i + 2], "desc") {
                        dir = Direction::Descending;
                        consumed = 3;
                    }
                }
                proof {
                    assert(wsv.skip(2) =~= words_view(words@).skip(i + 2));
                    if consumed == 3 {
                        assert(wsv.skip(3) =~= words_view(words@).skip(i + 3));
                    }
                }
                let acc2 = QueryResult {
                    selected_columns: acc.selected_columns,
                    filters: acc.filters,
                    order_by: Option::Some((c, dir)),
                    limit: acc.limit,
                };
                parse_sections_from(words, i + consumed, acc2)
            },
        }
    } else if eq_word(w, "first") || eq_word(w, "last") {
        let is_first = eq_word(w, "first");
        if words.len() - i < 2 {
            return Result::Err(QueryError::Malformed);
        }
        proof {
            assert(wsv[1] == words_view(words@)[i + 1]);
            assert(wsv[1] == words@[i + 1]@);
            assert(wsv.skip(2) =~= words_view(words@).skip(i + 2));
        }
        match parse_count_word(&words[i + 1]) {
            Result::Ok(count) => {
                let acc2 = QueryResult {
                    selected_columns: acc.selected_columns,
                    filters: acc.filters,
                    order_by: acc.order_by,
                    limit: Option::Some(
                        (
                            if is_first {
                                Limit::First
                            } else {
                                Limit::Last
                            },
                            count,
                        ),
                    ),
                };
                parse_sections_from(words, i + 2, acc2)
            },
            Result::Err(e) => Result::Err(e),
        }
    } else if starts_with_at(w, 0, "status") {
        proof {
            reveal_strlit("status");
        }
        match parse_status_word(w) {
            Result::Ok(f) => {
                let ghost old_filters = acc.filters@;
                let mut acc2 = acc;
                acc2.filters.push(f);
                proof {
                    assert(acc2@.filters =~= old_filters.map_values(|fc: FilterClause| fc@).push(
                        f@,
                    ));
                }
                parse_sections_from(words, i + 1, acc2)
            },
            Result::Err(e) => Result::Err(e),
        }
    } else if starts_with_at(w, 0, "start") {
        proof {
            reveal_strlit("start");
            assert(w@.skip(5) =~= wsv[0].skip(5));
        }
        match parse_datetime_word(w, DateField::Start, 5) {
            Result::Ok(f) => {
                let ghost old_filters = acc.filters@;
                let mut acc2 = acc;
                acc2.filters.push(f);
                proof {
                    assert(acc2@.filters =~= old_filters.map_values(|fc: FilterClause| fc@).push(
                        f@,
                    ));
                }
                parse_sections_from(words, i + 1, acc2)
            },
            Result::Err(e) => Result::Err(e),
        }
    } else if starts_with_at(w, 0, "end") {
        proof {
            reveal_strlit("end");
            assert(w@.skip(3) =~= wsv[0].skip(3));
        }
        match parse_datetime_word(w, DateField::End, 3) {
            Result::Ok(f) => {
                let ghost old_filters = acc.filters@;
                let mut acc2 = acc;
                acc2.filters.push(f);
                proof {
                    assert(acc2@.filters =~= old_filters.map_values(|fc: FilterClause| fc@).push(
                        f@,
                    ));
                }
                parse_sections_from(words, i + 1, acc2)
            },
            Result::Err(e) => Result::Err(e),
        }
    } else if starts_with_at(w, 0, "label") {
        proof {
            reveal_strlit("label");
        }
        match parse_label_word(w) {
            Result::Ok(f) => {
                let ghost old_filters = acc.filters@;
                let mut acc2 = acc;
                acc2.filters.push(f);
                proof {
                    assert(acc2@.filters =~= old_filters.map_values(|fc: FilterClause| fc@).push(
                        f@,
                    ));
                }
                parse_sections_from(words, i + 1, acc2)
            },
            Result::Err(e) => Result::Err(e),
        }
    } else {
        Result::Err(QueryError::Malformed)
    }
}

/// Parse a status query into the applicable information it holds; agrees
/// with [`parse_query_spec`].
pub fn apply_query(query: String) -> (r: Result<QueryResult, QueryError>)
    ensures
        match (r, parse_query_spec(query@)) {
            (Result::Ok(q), Result::Ok(qs)) => q@ == qs,
            (Result::Err(a), Result::Err(b)) => a == b,
            _ => false,
        },
{
    let words = split_words(query.as_str());
    let acc = QueryResult::default();
    proof {
        assert(words_view(words@).skip(0) =~= words_view(words@));
    }
    parse_sections_from(&words, 0, acc)
}

} // verus!
