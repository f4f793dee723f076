use tasktrack::aggregate::{
    get_all_projects_and_tasks_for_user, get_all_projects_for_user, get_all_tasks_for_project,
    group_rows, project_from_row, ProjectTaskRow,
};
use tasktrack::parse::{parse_participants, parse_u8};
use tasktrack::store::Store;
use tasktrack::user::{Project, ProjectTask};

fn project(id: u8, name: &str, start: &str, owner: u8) -> Project {
    Project {
        id: Some(id),
        name: name.to_string(),
        proj_start_date: start.to_string(),
        proj_end_date: String::new(),
        owner,
        participants: Vec::new(),
    }
}

fn task(id: u8, description: &str, start: &str, owner_proj: u8) -> ProjectTask {
    ProjectTask {
        id: Some(id),
        description: description.to_string(),
        task_start_date: start.to_string(),
        task_end_date: None,
        owner_proj,
        time_delta: None,
    }
}

#[test]
fn five_distinct_dates_keep_exactly_the_three_most_recent_descending() {
    let mut store = Store::new();
    let pid = store.add_project("busy", 1, "2024-01-01 00:00:00");
    store.add_task("jan", pid, "2024-01-10 00:00:00");
    store.add_task("mar", pid, "2024-03-10 00:00:00");
    store.add_task("feb", pid, "2024-02-10 00:00:00");
    store.add_task("may", pid, "2024-05-10 00:00:00");
    store.add_task("apr", pid, "2024-04-10 00:00:00");
    let out = get_all_projects_and_tasks_for_user(&store, 1);
    assert_eq!(out.len(), 1);
    let tasks = out[0].tasks.as_ref().expect("the project has tasks");
    let descriptions: Vec<String> = tasks.0.iter().map(|t| t.description.clone()).collect();
    assert_eq!(
        descriptions,
        vec!["may".to_string(), "apr".to_string(), "mar".to_string()]
    );
}

#[test]
fn a_project_with_no_tasks_has_absent_tasks_not_an_empty_list() {
    let mut store = Store::new();
    store.add_project("idle", 1, "2024-01-01 00:00:00");
    let out = get_all_projects_and_tasks_for_user(&store, 1);
    assert_eq!(out.len(), 1);
    assert!(out[0].tasks.is_none());
}

#[test]
fn aggregate_orders_projects_most_recent_first() {
    let mut store = Store::new();
    store.add_project("middle", 1, "2024-03-01 00:00:00");
    store.add_project("oldest", 1, "2024-01-01 00:00:00");
    store.add_project("newest", 1, "2024-05-01 00:00:00");
    store.add_project("foreign", 2, "2024-06-01 00:00:00");
    let out = get_all_projects_and_tasks_for_user(&store, 1);
    let names: Vec<String> = out.iter().map(|g| g.project.name.clone()).collect();
    assert_eq!(
        names,
        vec!["newest".to_string(), "middle".to_string(), "oldest".to_string()]
    );
}

#[test]
fn projects_query_filters_by_owner_and_sorts_descending() {
    let mut store = Store::new();
    store.add_project("a", 1, "2024-01-01 00:00:00");
    store.add_project("b", 2, "2024-02-01 00:00:00");
    store.add_project("c", 1, "2024-03-01 00:00:00");
    let mine = get_all_projects_for_user(&store, 1);
    let names: Vec<String> = mine.iter().map(|p| p.name.clone()).collect();
    assert_eq!(names, vec!["c".to_string(), "a".to_string()]);
    assert!(get_all_projects_for_user(&store, 9).is_empty());
}

#[test]
fn tasks_query_keeps_table_order() {
    let mut store = Store::new();
    store.add_task("one", 3, "2024-05-01 00:00:00");
    store.add_task("elsewhere", 4, "2024-01-01 00:00:00");
    store.add_task("two", 3, "2024-02-01 00:00:00");
    let ts = get_all_tasks_for_project(&store, 3);
    let descriptions: Vec<String> = ts.iter().map(|t| t.description.clone()).collect();
    assert_eq!(descriptions, vec!["one".to_string(), "two".to_string()]);
}

#[test]
fn grouping_handles_rows_that_do_not_arrive_contiguously() {
    let p1 = project(1, "first", "2024-01-01 00:00:00", 1);
    let p2 = project(2, "second", "2024-02-01 00:00:00", 1);
    let rows = vec![
        ProjectTaskRow { project: p1.clone(), task: Some(task(1, "p1 early", "2024-01-02 00:00:00", 1)) },
        ProjectTaskRow { project: p2.clone(), task: Some(task(2, "p2 only", "2024-02-02 00:00:00", 2)) },
        ProjectTaskRow { project: p1.clone(), task: Some(task(3, "p1 late", "2024-01-03 00:00:00", 1)) },
    ];
    let groups = group_rows(&rows);
    assert_eq!(groups.len(), 2);
    assert_eq!(groups[0].project.name, "first");
    let g1: Vec<String> = groups[0].tasks.as_ref().unwrap().0.iter().map(|t| t.description.clone()).collect();
    assert_eq!(g1, vec!["p1 early".to_string(), "p1 late".to_string()]);
    assert_eq!(groups[1].project.name, "second");
    let g2: Vec<String> = groups[1].tasks.as_ref().unwrap().0.iter().map(|t| t.description.clone()).collect();
    assert_eq!(g2, vec!["p2 only".to_string()]);
}

#[test]
fn a_sentinel_row_without_a_task_keeps_its_project_task_less() {
    let p = project(1, "alone", "2024-01-01 00:00:00", 1);
    let rows = vec![ProjectTaskRow { project: p, task: None }];
    let groups = group_rows(&rows);
    assert_eq!(groups.len(), 1);
    assert!(groups[0].tasks.is_none());
}

#[test]
fn participants_parse_drops_bad_entries_silently() {
    assert_eq!(parse_participants("1,2,3"), vec![1, 2, 3]);
    assert_eq!(parse_participants("1,x,300,04,"), vec![1u8, 4]);
    assert_eq!(parse_participants(""), Vec::<u8>::new());
    assert_eq!(parse_participants(",,"), Vec::<u8>::new());
    assert_eq!(parse_participants("255,256"), vec![255]);
}

#[test]
fn user_id_grammar_is_digits_within_range() {
    assert_eq!(parse_u8("0"), Some(0));
    assert_eq!(parse_u8("255"), Some(255));
    assert_eq!(parse_u8("007"), Some(7));
    assert_eq!(parse_u8("256"), None);
    assert_eq!(parse_u8(""), None);
    assert_eq!(parse_u8("12a"), None);
    assert_eq!(parse_u8("-1"), None);
}

#[test]
fn project_row_decoding_parses_the_delimited_participant_column() {
    let p = project_from_row(
        Some(9),
        "decoded",
        "2024-01-01 00:00:00",
        "",
        2,
        "3,nope,5",
    );
    assert_eq!(p.id, Some(9));
    assert_eq!(p.owner, 2);
    assert_eq!(p.participants, vec![3, 5]);
}
