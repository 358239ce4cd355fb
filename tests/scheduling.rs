use construction::{line_ranges, name_precedes, parse_duration, split_ranges, ScheduleError, Scheduler};

fn build(text: &str) -> Scheduler {
    let mut s = Scheduler::from_text(text).expect("records should parse");
    s.execute().expect("graph should schedule");
    s
}

fn task<'a>(s: &'a Scheduler, name: &str) -> &'a construction::Task {
    let i = s.position_of(&name.to_string()).expect("task should exist");
    &s.tasks[i]
}

fn starts(s: &Scheduler, name: &str) -> (u64, u64) {
    let t = task(s, name);
    (t.earlier_start.unwrap(), t.latest_start.unwrap())
}

#[test]
fn example_four_tasks() {
    let s = build("A;desc;3;\nB;desc;2;A\nC;desc;4;A\nD;desc;1;B;C\n");
    assert_eq!(s.end, Some(8));
    assert_eq!(starts(&s, "A"), (0, 0));
    assert_eq!(starts(&s, "B"), (3, 5));
    assert_eq!(starts(&s, "C"), (3, 3));
    assert_eq!(starts(&s, "D"), (7, 7));
    assert_eq!(task(&s, "B").duration, 2);
    assert_eq!(task(&s, "D").duration, 1);
}

#[test]
fn slack_is_never_negative() {
    let s = build("A;x;3;\nB;x;2;A\nC;x;4;A\nD;x;1;B;C\nE;x;7;\nF;x;0;E;A\n");
    for t in &s.tasks {
        assert!(t.earlier_start.unwrap() <= t.latest_start.unwrap());
    }
}

#[test]
fn end_is_latest_finish_and_leaves_finish_at_end() {
    let s = build("A;x;3;\nB;x;2;A\nC;x;4;A\nD;x;1;B;C\nE;x;2;\n");
    let end = s.end.unwrap();
    let latest = s.tasks.iter().map(|t| t.earlier_start.unwrap() + t.duration as u64).max().unwrap();
    assert_eq!(end, latest);
    for t in &s.tasks {
        if t.dependants.is_empty() {
            assert_eq!(t.latest_start.unwrap() + t.duration as u64, end);
        }
    }
}

#[test]
fn scheduling_twice_gives_the_same_values() {
    let text = "A;x;3;\nB;x;2;A\nC;x;4;A\nD;x;1;B;C\n";
    let a = build(text);
    let b = build(text);
    assert_eq!(a.end, b.end);
    for (x, y) in a.tasks.iter().zip(b.tasks.iter()) {
        assert_eq!(x.earlier_start, y.earlier_start);
        assert_eq!(x.latest_start, y.latest_start);
    }
}

#[test]
fn independent_tasks() {
    let s = build("A;x;3;\nB;x;5;\nC;x;0;\n");
    assert_eq!(s.end, Some(5));
    assert_eq!(starts(&s, "A"), (0, 2));
    assert_eq!(starts(&s, "B"), (0, 0));
    assert_eq!(starts(&s, "C"), (0, 5));
}

#[test]
fn mutual_dependency_is_circular() {
    let mut s = Scheduler::from_text("R;x;1;\nA;x;2;B\nB;x;3;A\n").unwrap();
    match s.execute() {
        Err(ScheduleError::CircularDependency(name)) => assert!(name == "A" || name == "B"),
        other => panic!("unexpected result {:?}", other),
    }
}

#[test]
fn mutual_dependency_alone_has_no_root() {
    let mut s = Scheduler::from_text("A;x;2;B\nB;x;3;A\n").unwrap();
    assert_eq!(s.execute(), Err(ScheduleError::NoRootTask));
}

#[test]
fn self_dependency_is_circular() {
    let mut s = Scheduler::from_text("R;x;1;\nA;x;2;A\n").unwrap();
    assert_eq!(s.execute(), Err(ScheduleError::CircularDependency("A".to_string())));
}

#[test]
fn malformed_duration_is_invalid_record() {
    assert_eq!(Scheduler::from_text("X;desc;notanumber;").err(), Some(ScheduleError::InvalidRecord));
}

#[test]
fn malformed_line_after_valid_ones_is_invalid_record() {
    assert_eq!(Scheduler::from_text("A;x;1;\nB;x;1;A\nX;desc;notanumber;\n").err(), Some(ScheduleError::InvalidRecord));
}

#[test]
fn too_few_fields_is_invalid_record() {
    assert_eq!(Scheduler::from_text("A;desc").err(), Some(ScheduleError::InvalidRecord));
    assert_eq!(Scheduler::from_text("A;x;1;\n\nB;x;2;\n").err(), Some(ScheduleError::InvalidRecord));
}

#[test]
fn missing_dependency_is_named() {
    assert_eq!(
        Scheduler::from_text("A;x;1;\nB;x;2;A;Z\n").err(),
        Some(ScheduleError::MissingDependency("Z".to_string()))
    );
}

#[test]
fn duplicate_task_is_named() {
    assert_eq!(
        Scheduler::from_text("A;x;1;\nA;x;2;\n").err(),
        Some(ScheduleError::DuplicateTask("A".to_string()))
    );
}

#[test]
fn empty_input() {
    assert_eq!(Scheduler::from_text("").err(), Some(ScheduleError::EmptyInput));
}

#[test]
fn windows_line_endings() {
    let s = build("A;x;3;\r\nB;x;2;A\r\n");
    assert_eq!(s.end, Some(5));
    assert_eq!(starts(&s, "B"), (3, 3));
}

#[test]
fn trailing_line_without_newline() {
    let s = build("A;x;3;\nB;x;2;A");
    assert_eq!(starts(&s, "B"), (3, 3));
}

#[test]
fn durations() {
    let t = "0;7;65535;65536;+5;;1a;00012";
    assert_eq!(parse_duration(t, 0, 1), Some(0));
    assert_eq!(parse_duration(t, 2, 3), Some(7));
    assert_eq!(parse_duration(t, 4, 9), Some(65535));
    assert_eq!(parse_duration(t, 10, 15), None);
    assert_eq!(parse_duration(t, 16, 18), None);
    assert_eq!(parse_duration(t, 19, 19), None);
    assert_eq!(parse_duration(t, 20, 22), None);
    assert_eq!(parse_duration(t, 23, 28), Some(12));
}

#[test]
fn largest_duration_is_accepted() {
    let s = build("A;x;65535;\nB;x;65535;A\n");
    assert_eq!(s.end, Some(131070));
}

#[test]
fn duration_sum_counts_all_tasks() {
    let s = Scheduler::from_text("A;x;3;\nB;x;4;\n").unwrap();
    assert_eq!(s.duration_sum(), 7);
}

#[test]
fn report_order_by_start_then_duration_then_name() {
    let s = build("D;x;1;B;C\nC;x;4;A\nB;x;2;A\nA;x;3;\nE;x;3;\nF;x;2;\n");
    let i = |n: &str| s.position_of(&n.to_string()).unwrap();
    assert!(s.display_before(i("F"), i("A")));
    assert!(s.display_before(i("A"), i("E")));
    assert!(!s.display_before(i("E"), i("A")));
    assert!(s.display_before(i("B"), i("C")));
    assert!(s.display_before(i("C"), i("D")));
    assert!(!s.display_before(i("A"), i("A")));
}

#[test]
fn names_in_dictionary_order() {
    assert!(name_precedes("A", "B"));
    assert!(name_precedes("AB", "B"));
    assert!(name_precedes("A", "AB"));
    assert!(!name_precedes("AB", "A"));
    assert!(!name_precedes("same", "same"));
    assert!(name_precedes("", "a"));
    assert!(!name_precedes("b", "a"));
}

#[test]
fn report_order_lists_every_task_sorted() {
    let s = build("D;x;1;B;C\nC;x;4;A\nB;x;2;A\nA;x;3;\n");
    let order: Vec<String> = s.report_order().iter().map(|&i| s.tasks[i].name.clone()).collect();
    assert_eq!(order, vec!["A", "B", "C", "D"]);
}

#[test]
fn report_text_of_example() {
    let s = build("A;desc;3;\nB;desc;2;A\nC;desc;4;A\nD;desc;1;B;C\n");
    let expected = "Total duration of construction: 8 weeks\n\n\
A must begin at t=0\n\
B must begin between t=3 and t=5\n\
C must begin at t=3\n\
D must begin at t=7\n\
\n\
A\t(0)\t===\n\
B\t(2)\t   ==\n\
C\t(0)\t   ====\n\
D\t(0)\t       =\n";
    assert_eq!(s.report(), expected);
}

#[test]
fn decimal_numbers_in_report() {
    let s = build("A;x;12;\nB;x;105;\n");
    let text = s.report();
    assert!(text.starts_with("Total duration of construction: 105 weeks\n\n"));
    assert!(text.contains("A must begin between t=0 and t=93\n"));
    assert!(text.contains("A\t(93)\t============\n"));
}

#[test]
fn lines_drop_final_newline_and_carriage_returns() {
    assert_eq!(line_ranges("a\r\nbc\n"), vec![(0, 1), (3, 5)]);
    assert_eq!(line_ranges("a\n\nb"), vec![(0, 1), (2, 2), (3, 4)]);
    assert_eq!(line_ranges(""), vec![]);
    assert_eq!(line_ranges("\n"), vec![(0, 0)]);
}

#[test]
fn fields_split_at_semicolons() {
    assert_eq!(split_ranges("A;d;3;", 0, 6, ';'), vec![(0, 1), (2, 3), (4, 5), (6, 6)]);
    assert_eq!(split_ranges("xA;dy", 1, 4, ';'), vec![(1, 2), (3, 4)]);
    assert_eq!(split_ranges("abc", 1, 1, ';'), vec![(1, 1)]);
}
