use todo_list::codec::{read_record, split_fields, split_lines};
use todo_list::registry::{TodoError, TodoList};
use todo_list::text::{chars_of, push_decimal, read_bool, read_u32, string_of};

fn chars(s: &str) -> Vec<char> {
    s.chars().collect()
}

fn snapshot(list: &TodoList) -> Vec<(u32, String, bool)> {
    let mut v: Vec<(u32, String, bool)> = list
        .entries()
        .into_iter()
        .map(|(id, t)| (id, t.task_description, t.is_completed))
        .collect();
    v.sort();
    v
}

#[test]
fn wash_car_scenario() {
    let mut list = TodoList::new();
    assert_eq!(list.add_task("wash car".to_string()), 1);
    assert_eq!(snapshot(&list), vec![(1, "wash car".to_string(), false)]);
    assert_eq!(list.mark_as_completed(1), Ok(()));
    assert_eq!(snapshot(&list), vec![(1, "wash car".to_string(), true)]);
    let text = list.export_text();
    assert_eq!(text, "1|||wash car|||true\n");
    let mut back = TodoList::new();
    assert_eq!(back.import_text(&text), Ok(()));
    assert_eq!(snapshot(&back), vec![(1, "wash car".to_string(), true)]);
}

#[test]
fn repeated_id_fails_import() {
    let mut list = TodoList::new();
    let r = list.import_text("5|||buy milk|||false\n5|||buy eggs|||true\n");
    assert_eq!(r, Err(TodoError::InvalidData));
    assert_eq!(snapshot(&list), vec![(5, "buy milk".to_string(), false)]);
}

#[test]
fn two_fields_fail_import() {
    let mut list = TodoList::new();
    assert_eq!(list.import_text("1|||no flag\n"), Err(TodoError::InvalidData));
    assert!(list.is_empty());
}

#[test]
fn four_fields_fail_import() {
    let mut list = TodoList::new();
    assert_eq!(
        list.import_text("1|||a|||b|||true\n"),
        Err(TodoError::InvalidData)
    );
}

#[test]
fn bad_id_or_flag_fails_import() {
    let mut list = TodoList::new();
    assert_eq!(list.import_text("x|||a|||true\n"), Err(TodoError::InvalidData));
    assert_eq!(list.import_text("-1|||a|||true\n"), Err(TodoError::InvalidData));
    assert_eq!(list.import_text("4294967296|||a|||true\n"), Err(TodoError::InvalidData));
    assert_eq!(list.import_text("1|||a|||True\n"), Err(TodoError::InvalidData));
    assert_eq!(list.import_text("1|||a|||yes\n"), Err(TodoError::InvalidData));
    assert_eq!(list.import_text("\n"), Err(TodoError::InvalidData));
}

#[test]
fn import_replaces_previous_tasks() {
    let mut list = TodoList::new();
    list.add_task("old".to_string());
    assert_eq!(list.import_text("7|||new|||false\n"), Ok(()));
    assert_eq!(snapshot(&list), vec![(7, "new".to_string(), false)]);
    assert_eq!(list.add_task("next".to_string()), 8);
}

#[test]
fn failed_import_keeps_lines_before_the_bad_one() {
    let mut list = TodoList::new();
    list.add_task("old".to_string());
    let r = list.import_text("2|||x|||true\nbroken\n3|||y|||false\n");
    assert_eq!(r, Err(TodoError::InvalidData));
    assert_eq!(snapshot(&list), vec![(2, "x".to_string(), true)]);
}

#[test]
fn empty_text_gives_empty_list() {
    let mut list = TodoList::new();
    list.add_task("old".to_string());
    assert_eq!(list.import_text(""), Ok(()));
    assert!(list.is_empty());
    assert_eq!(list.export_text(), "");
}

#[test]
fn crlf_and_missing_final_newline_are_read() {
    let mut list = TodoList::new();
    assert_eq!(list.import_text("1|||a|||true\r\n2|||b|||false"), Ok(()));
    assert_eq!(
        snapshot(&list),
        vec![(1, "a".to_string(), true), (2, "b".to_string(), false)]
    );
}

#[test]
fn round_trip_keeps_every_task() {
    let mut list = TodoList::new();
    list.add_task("first".to_string());
    list.add_task("".to_string());
    list.add_task("päckchen | ok".to_string());
    list.add_task("|lead".to_string());
    list.mark_as_completed(3).unwrap();
    list.delete_task(2).unwrap();
    let text = list.export_text();
    assert_eq!(text.lines().count(), 3);
    let mut back = TodoList::new();
    assert_eq!(back.import_text(&text), Ok(()));
    assert_eq!(snapshot(&back), snapshot(&list));
}

#[test]
fn description_with_separator_does_not_round_trip() {
    let mut list = TodoList::new();
    list.add_task("a|||b".to_string());
    let text = list.export_text();
    assert_eq!(text, "1|||a|||b|||false\n");
    let mut back = TodoList::new();
    assert_eq!(back.import_text(&text), Err(TodoError::InvalidData));
}

#[test]
fn export_spells_each_task() {
    let mut list = TodoList::new();
    list.add_task("a".to_string());
    list.add_task("b".to_string());
    list.mark_as_completed(2).unwrap();
    let text = list.export_text();
    let mut lines: Vec<&str> = text.lines().collect();
    lines.sort();
    assert_eq!(lines, vec!["1|||a|||false", "2|||b|||true"]);
    assert!(text.ends_with('\n'));
}

#[test]
fn fields_split_leftmost_first() {
    let f: Vec<String> = split_fields(&chars("a||||b|||"))
        .iter()
        .map(|v| string_of(v))
        .collect();
    assert_eq!(f, vec!["a", "|b", ""]);
    assert_eq!(split_fields(&chars("")).len(), 1);
    assert_eq!(split_fields(&chars("||")).len(), 1);
}

#[test]
fn lines_split_like_buffered_reading() {
    let l: Vec<String> = split_lines(&chars("a\r\n\nb\r"))
        .iter()
        .map(|v| string_of(v))
        .collect();
    assert_eq!(l, vec!["a", "", "b\r"]);
    assert!(split_lines(&chars("")).is_empty());
    assert_eq!(split_lines(&chars("x\n")).len(), 1);
}

#[test]
fn record_is_read() {
    let (id, t) = read_record(&chars("12|||buy milk|||true")).unwrap();
    assert_eq!(id, 12);
    assert_eq!(t.task_description, "buy milk");
    assert!(t.is_completed);
    assert!(read_record(&chars("12|||buy milk")).is_none());
}

#[test]
fn numbers_read_as_std_parses_them() {
    assert_eq!(read_u32(&chars("0")), Some(0));
    assert_eq!(read_u32(&chars("007")), Some(7));
    assert_eq!(read_u32(&chars("+5")), Some(5));
    assert_eq!(read_u32(&chars("4294967295")), Some(u32::MAX));
    assert_eq!(read_u32(&chars("4294967296")), None);
    assert_eq!(read_u32(&chars("99999999999")), None);
    assert_eq!(read_u32(&chars("")), None);
    assert_eq!(read_u32(&chars("+")), None);
    assert_eq!(read_u32(&chars("-1")), None);
    assert_eq!(read_u32(&chars(" 1")), None);
    assert_eq!(read_u32(&chars("1a")), None);
}

#[test]
fn flags_read_exactly() {
    assert_eq!(read_bool(&chars("true")), Some(true));
    assert_eq!(read_bool(&chars("false")), Some(false));
    assert_eq!(read_bool(&chars("TRUE")), None);
    assert_eq!(read_bool(&chars("true ")), None);
    assert_eq!(read_bool(&chars("")), None);
}

#[test]
fn decimal_spelling() {
    let mut out: Vec<char> = Vec::new();
    push_decimal(&mut out, 0);
    push_decimal(&mut out, 1203);
    push_decimal(&mut out, u32::MAX);
    assert_eq!(string_of(&out), "012034294967295");
}

#[test]
fn chars_and_strings_convert_both_ways() {
    let v = chars_of("héllo");
    assert_eq!(v, vec!['h', 'é', 'l', 'l', 'o']);
    assert_eq!(string_of(&v), "héllo");
    assert_eq!(string_of(&Vec::new()), "");
}
