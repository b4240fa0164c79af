use pueue::filters::{FilterClause, LabelOp};
use pueue::limit::Limit;
use pueue::ordering::{Column, Direction};
use pueue::parse::{apply_query, QueryError};
use pueue::query::QueryResult;
use pueue::task::{datetime_key, Task, TaskResult, TaskStatus};

fn task(id: u64, status: TaskStatus) -> Task {
    Task {
        id,
        command: String::from("ls"),
        path: String::from("/tmp"),
        label: None,
        group: String::from("default"),
        dependencies: Vec::new(),
        status,
        created: 0,
        start: None,
        end: None,
    }
}

fn ids(tasks: &[Task]) -> Vec<u64> {
    tasks.iter().map(|t| t.id).collect()
}

fn run(query: &str, tasks: Vec<Task>) -> Vec<Task> {
    let q = apply_query(String::from(query)).expect("query should parse");
    let tasks = q.apply_filters(tasks);
    let tasks = q.order_tasks(tasks);
    q.limit_tasks(tasks)
}

#[test]
fn empty_query_is_identity() {
    let q = apply_query(String::from("")).expect("empty query parses");
    assert!(q.selected_columns.is_empty());
    assert!(q.filters.is_empty());
    assert!(q.order_by.is_none());
    assert!(q.limit.is_none());
    let tasks = vec![
        task(3, TaskStatus::Queued),
        task(1, TaskStatus::Running),
        task(2, TaskStatus::Done(TaskResult::Success)),
    ];
    let out = run("", tasks);
    assert_eq!(ids(&out), vec![3, 1, 2]);
}

#[test]
fn queued_desc_first_three() {
    let tasks: Vec<Task> = [2u64, 4, 7, 9, 11, 13]
        .iter()
        .map(|&id| task(id, TaskStatus::Queued))
        .collect();
    let out = run("status=queued order_by id desc first 3", tasks);
    assert_eq!(ids(&out), vec![13, 11, 9]);
}

#[test]
fn columns_selection() {
    let q = apply_query(String::from("columns=id,status,start,end")).unwrap();
    assert_eq!(
        q.selected_columns,
        vec![Column::Id, Column::Status, Column::Start, Column::End]
    );
}

#[test]
fn unknown_column_is_its_own_error() {
    assert_eq!(
        apply_query(String::from("columns=id,nope")).unwrap_err(),
        QueryError::UnknownColumn
    );
    assert_eq!(
        apply_query(String::from("order_by nope")).unwrap_err(),
        QueryError::UnknownColumn
    );
}

#[test]
fn malformed_queries_are_rejected() {
    assert_eq!(
        apply_query(String::from("bogus")).unwrap_err(),
        QueryError::Malformed
    );
    assert_eq!(
        apply_query(String::from("first")).unwrap_err(),
        QueryError::Malformed
    );
    assert_eq!(
        apply_query(String::from("first 1x")).unwrap_err(),
        QueryError::Malformed
    );
    assert_eq!(
        apply_query(String::from("columns=")).unwrap_err(),
        QueryError::Malformed
    );
    assert_eq!(
        apply_query(String::from("first 10000000000000000000000")).unwrap_err(),
        QueryError::Malformed
    );
    assert_eq!(
        apply_query(String::from("status~queued")).unwrap_err(),
        QueryError::Malformed
    );
    assert_eq!(
        apply_query(String::from("status=sleepy")).unwrap_err(),
        QueryError::Malformed
    );
}

#[test]
fn status_filters() {
    let tasks = vec![
        task(1, TaskStatus::Queued),
        task(2, TaskStatus::Running),
        task(3, TaskStatus::Done(TaskResult::Success)),
        task(4, TaskStatus::Done(TaskResult::Failed(1))),
        task(5, TaskStatus::Stashed { enqueue_at: None }),
    ];
    let out = run("status=success", tasks.clone());
    assert_eq!(ids(&out), vec![3]);
    let out = run("status=failed", tasks.clone());
    assert_eq!(ids(&out), vec![4]);
    let out = run("status!=queued", tasks);
    assert_eq!(ids(&out), vec![2, 3, 4, 5]);
}

#[test]
fn label_filters() {
    let mut a = task(1, TaskStatus::Queued);
    a.label = Some(String::from("foo"));
    let mut b = task(2, TaskStatus::Queued);
    b.label = Some(String::from("food"));
    let c = task(3, TaskStatus::Queued);
    let tasks = vec![a, b, c];

    let out = run("label=foo", tasks.clone());
    assert_eq!(ids(&out), vec![1]);
    // inequality also keeps tasks without any label
    let out = run("label!=foo", tasks.clone());
    assert_eq!(ids(&out), vec![2, 3]);
    let out = run("label%=oo", tasks.clone());
    assert_eq!(ids(&out), vec![1, 2]);
    let out = run("label%=ood", tasks);
    assert_eq!(ids(&out), vec![2]);
}

#[test]
fn label_needle_survives_parsing() {
    // the parsed clause must hold the query's own string, not the word
    let q = apply_query(String::from("label=abc")).unwrap();
    assert_eq!(q.filters.len(), 1);
    match &q.filters[0] {
        FilterClause::Label { op, needle } => {
            assert_eq!(*op, LabelOp::Equals);
            assert_eq!(needle.iter().collect::<String>(), "abc");
        }
        other => panic!("unexpected clause {other:?}"),
    }
}

#[test]
fn datetime_filters() {
    let jan = datetime_key(2021, 1, 1, 0, 0, 0);
    let feb = datetime_key(2021, 2, 1, 0, 0, 0);
    let mar = datetime_key(2021, 3, 1, 0, 0, 0);
    let mut a = task(1, TaskStatus::Done(TaskResult::Success));
    a.start = Some(jan);
    let mut b = task(2, TaskStatus::Done(TaskResult::Success));
    b.start = Some(feb);
    let mut c = task(3, TaskStatus::Done(TaskResult::Success));
    c.start = Some(mar);
    let d = task(4, TaskStatus::Queued);
    let tasks = vec![a, b, c, d];

    // tasks without the timestamp never match a datetime filter
    let out = run("start>2021-01-15", tasks.clone());
    assert_eq!(ids(&out), vec![2, 3]);
    let out = run("start<=2021-02-01", tasks.clone());
    assert_eq!(ids(&out), vec![1, 2]);
    let out = run("start=2021-02-01", tasks.clone());
    assert_eq!(ids(&out), vec![2]);
    let out = run("start!=2021-02-01", tasks);
    assert_eq!(ids(&out), vec![1, 3]);
}

#[test]
fn datetime_with_time_of_day() {
    let morning = datetime_key(2022, 6, 1, 8, 30, 0);
    let evening = datetime_key(2022, 6, 1, 20, 15, 5);
    let mut a = task(1, TaskStatus::Queued);
    a.end = Some(morning);
    let mut b = task(2, TaskStatus::Queued);
    b.end = Some(evening);
    let out = run("end>2022-06-01T12:00:00", vec![a, b]);
    assert_eq!(ids(&out), vec![2]);
}

#[test]
fn bad_dates_are_rejected() {
    assert_eq!(
        apply_query(String::from("start>2021-13-01")).unwrap_err(),
        QueryError::Malformed
    );
    assert_eq!(
        apply_query(String::from("start>20210101")).unwrap_err(),
        QueryError::Malformed
    );
    assert_eq!(
        apply_query(String::from("end<2021-01-01T25:00:00")).unwrap_err(),
        QueryError::Malformed
    );
    assert_eq!(
        apply_query(String::from("end<2021-00-10")).unwrap_err(),
        QueryError::Malformed
    );
}

#[test]
fn order_by_status_ranks() {
    let tasks = vec![
        task(1, TaskStatus::Done(TaskResult::Success)),
        task(2, TaskStatus::Done(TaskResult::Failed(3))),
        task(3, TaskStatus::Running),
        task(4, TaskStatus::Paused),
        task(5, TaskStatus::Queued),
        task(6, TaskStatus::Locked),
        task(7, TaskStatus::Stashed { enqueue_at: None }),
    ];
    let out = run("order_by status", tasks.clone());
    assert_eq!(ids(&out), vec![7, 6, 5, 4, 3, 2, 1]);
    let out = run("order_by status desc", tasks);
    assert_eq!(ids(&out), vec![1, 2, 3, 4, 5, 6, 7]);
}

#[test]
fn order_by_is_stable() {
    // equal keys keep submission order, ascending and descending alike
    let tasks = vec![
        task(10, TaskStatus::Queued),
        task(11, TaskStatus::Running),
        task(12, TaskStatus::Queued),
        task(13, TaskStatus::Running),
    ];
    let out = run("order_by status", tasks.clone());
    assert_eq!(ids(&out), vec![10, 12, 11, 13]);
    let out = run("order_by status desc", tasks);
    assert_eq!(ids(&out), vec![11, 13, 10, 12]);
}

#[test]
fn order_by_strings_and_labels() {
    let mut a = task(1, TaskStatus::Queued);
    a.command = String::from("tail");
    a.label = Some(String::from("b"));
    let mut b = task(2, TaskStatus::Queued);
    b.command = String::from("cat");
    b.label = None;
    let mut c = task(3, TaskStatus::Queued);
    c.command = String::from("cargo");
    c.label = Some(String::from("a"));
    let tasks = vec![a, b, c];

    let out = run("order_by command", tasks.clone());
    assert_eq!(ids(&out), vec![3, 2, 1]);
    // an absent label sorts first
    let out = run("order_by label", tasks.clone());
    assert_eq!(ids(&out), vec![2, 3, 1]);
    let out = run("order_by command asc", tasks);
    assert_eq!(ids(&out), vec![3, 2, 1]);
}

#[test]
fn order_by_start_none_first() {
    let mut a = task(1, TaskStatus::Queued);
    a.start = Some(datetime_key(2021, 5, 1, 0, 0, 0));
    let b = task(2, TaskStatus::Queued);
    let mut c = task(3, TaskStatus::Queued);
    c.start = Some(datetime_key(2021, 4, 1, 0, 0, 0));
    let out = run("order_by start", vec![a, b, c]);
    assert_eq!(ids(&out), vec![2, 3, 1]);
}

#[test]
fn limits() {
    let tasks: Vec<Task> = (1u64..=6).map(|id| task(id, TaskStatus::Queued)).collect();
    let out = run("first 2", tasks.clone());
    assert_eq!(ids(&out), vec![1, 2]);
    let out = run("last 2", tasks.clone());
    assert_eq!(ids(&out), vec![5, 6]);
    // a zero limit keeps nothing; an over-long one leaves the list unchanged
    let out = run("first 0", tasks.clone());
    assert_eq!(ids(&out), Vec::<u64>::new());
    let out = run("last 0", tasks.clone());
    assert_eq!(ids(&out), Vec::<u64>::new());
    let out = run("last 100", tasks);
    assert_eq!(ids(&out), vec![1, 2, 3, 4, 5, 6]);
}

#[test]
fn first_then_last() {
    let tasks: Vec<Task> = (1u64..=6).map(|id| task(id, TaskStatus::Queued)).collect();
    let first = apply_query(String::from("first 4")).unwrap();
    let last = apply_query(String::from("last 2")).unwrap();
    let out = last.limit_tasks(first.limit_tasks(tasks.clone()));
    // the last two of the first four
    assert_eq!(ids(&out), vec![3, 4]);
    // the law holds at zero too: first none, then last one, is none
    let none = apply_query(String::from("first 0")).unwrap();
    let last_one = apply_query(String::from("last 1")).unwrap();
    let out = last_one.limit_tasks(none.limit_tasks(tasks));
    assert!(out.is_empty());
}

#[test]
fn later_sections_override_earlier_ones() {
    let q = apply_query(String::from("first 2 last 3 order_by id order_by status desc")).unwrap();
    assert_eq!(q.limit, Some((Limit::Last, 3)));
    assert_eq!(q.order_by, Some((Column::Status, Direction::Descending)));
}

#[test]
fn filters_accumulate_in_order() {
    let q = apply_query(String::from("status=queued label=x")).unwrap();
    assert_eq!(q.filters.len(), 2);
    let mut a = task(1, TaskStatus::Queued);
    a.label = Some(String::from("x"));
    let b = task(2, TaskStatus::Queued);
    let mut c = task(3, TaskStatus::Running);
    c.label = Some(String::from("x"));
    let out = q.apply_filters(vec![a, b, c]);
    assert_eq!(ids(&out), vec![1]);
}

#[test]
fn default_query_result_is_empty() {
    let q = QueryResult::default();
    assert!(q.selected_columns.is_empty());
    assert!(q.filters.is_empty());
    assert!(q.order_by.is_none());
    assert!(q.limit.is_none());
}

#[test]
fn whitespace_only_query_is_empty() {
    let q = apply_query(String::from("   \t  ")).unwrap();
    assert!(q.filters.is_empty());
    assert!(q.order_by.is_none());
    assert!(q.limit.is_none());
}

#[test]
fn datetime_key_orders_instants() {
    let a = datetime_key(2020, 12, 31, 23, 59, 59);
    let b = datetime_key(2021, 1, 1, 0, 0, 0);
    let c = datetime_key(2021, 1, 1, 0, 0, 1);
    assert!(a < b && b < c);
}
