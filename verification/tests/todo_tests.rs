use todo_list::{Entry, Todo, TodoError};

fn store(lines: &[&str]) -> Todo {
    Todo {
        todo: lines.iter().map(|s| s.to_string()).collect(),
        path: String::from("data/example.txt"),
    }
}

fn args(xs: &[&str]) -> Vec<String> {
    xs.iter().map(|s| s.to_string()).collect()
}

const STRIKE_ON: &str = "\u{1b}[9m";
const STRIKE_OFF: &str = "\u{1b}[0m";

#[test]
fn entry_round_trip_unchecked() {
    let e = Entry::new(String::from("buy milk"), false);
    let line = e.save();
    assert_eq!(line, "[ ] buy milk\n");
    let back = Entry::read_line(line.trim_end_matches('\n'));
    assert_eq!(back.checked, false);
    assert_eq!(back.element, "buy milk");
}

#[test]
fn entry_round_trip_checked() {
    let e = Entry::new(String::from("wash car"), true);
    let line = e.save();
    assert_eq!(line, "[*] wash car\n");
    let back = Entry::read_line(line.trim_end_matches('\n'));
    assert_eq!(back.checked, true);
    assert_eq!(back.element, "wash car");
}

#[test]
fn decode_odd_prefix_is_unchecked() {
    let e = Entry::read_line("[x] thing");
    assert_eq!(e.checked, false);
    assert_eq!(e.element, "thing");
}

#[test]
fn load_splits_lines() {
    let t = Todo::new("[ ] a...\n[*] b...\n", String::from("p")).unwrap();
    assert_eq!(t.todo, vec!["[ ] a...", "[*] b..."]);
    let t2 = Todo::new("[ ] a...\n[*] b...", String::from("p")).unwrap();
    assert_eq!(t2.todo, vec!["[ ] a...", "[*] b..."]);
}

#[test]
fn load_empty_store() {
    let t = Todo::new("", String::from("p")).unwrap();
    assert_eq!(t.todo.len(), 0);
}

#[test]
fn load_strips_carriage_return() {
    let t = Todo::new("[ ] a...\r\n[ ] b...\r\n", String::from("p")).unwrap();
    assert_eq!(t.todo, vec!["[ ] a...", "[ ] b..."]);
}

#[test]
fn load_rejects_short_line() {
    let r = Todo::new("[ ] fine\nab\n", String::from("p"));
    assert_eq!(r.unwrap_err(), TodoError::MalformedLine);
}

#[test]
fn list_plain_store() {
    let t = store(&["[ ] buy milk", "[ ] call mom"]);
    assert_eq!(t.list(), "1 buy milk\n2 call mom\n");
}

#[test]
fn list_checked_entry_may_be_struck() {
    let t = store(&["[*] wash car"]);
    let out = t.list();
    let plain = "1 wash car\n".to_string();
    let struck = format!("1 {}wash car{}\n", STRIKE_ON, STRIKE_OFF);
    assert!(out == plain || out == struck, "unexpected listing: {:?}", out);
}

#[test]
fn list_twice_is_identical() {
    let t = store(&["[ ] buy milk", "[*] wash car", "[ ] call mom"]);
    assert_eq!(t.list(), t.list());
}

#[test]
fn list_two_digit_positions() {
    let lines: Vec<String> = (0..12).map(|i| format!("[ ] task{}", i)).collect();
    let t = Todo {
        todo: lines,
        path: String::from("p"),
    };
    let out = t.list();
    assert!(out.contains("9 task8\n"));
    assert!(out.contains("10 task9\n"));
    assert!(out.contains("12 task11\n"));
}

#[test]
fn done_toggles_exactly_one() {
    let t = store(&["[ ] buy milk", "[*] wash car"]);
    let t2 = t.done(&args(&["1"])).unwrap();
    assert_eq!(t2.todo, vec!["[*] buy milk", "[*] wash car"]);
}

#[test]
fn done_twice_restores_flags() {
    let t = store(&["[ ] buy milk", "[*] wash car"]);
    let t2 = t.done(&args(&["2"])).unwrap();
    assert_eq!(t2.todo, vec!["[ ] buy milk", "[ ] wash car"]);
    let t3 = t2.done(&args(&["2"])).unwrap();
    assert_eq!(t3.todo, t.todo);
}

#[test]
fn done_normalizes_odd_prefix() {
    let t = store(&["[x] thing"]);
    let t2 = t.done(&args(&["1"])).unwrap();
    assert_eq!(t2.todo, vec!["[*] thing"]);
}

#[test]
fn done_wrong_arg_count() {
    let t = store(&["[ ] a..."]);
    assert_eq!(t.done(&args(&[])).unwrap_err(), TodoError::ArgCount);
    assert_eq!(t.done(&args(&["1", "2"])).unwrap_err(), TodoError::ArgCount);
}

#[test]
fn done_not_a_number() {
    let t = store(&["[ ] a..."]);
    assert_eq!(t.done(&args(&["abc"])).unwrap_err(), TodoError::NotANumber);
    assert_eq!(t.done(&args(&["1x"])).unwrap_err(), TodoError::NotANumber);
    assert_eq!(t.done(&args(&[""])).unwrap_err(), TodoError::NotANumber);
}

#[test]
fn done_out_of_bounds() {
    let t = store(&["[ ] a..."]);
    assert_eq!(t.done(&args(&["0"])).unwrap_err(), TodoError::OutOfBounds);
    assert_eq!(t.done(&args(&["2"])).unwrap_err(), TodoError::OutOfBounds);
}

#[test]
fn done_on_empty_store_is_out_of_bounds() {
    let t = store(&[]);
    let before = t.file_content();
    assert_eq!(t.done(&args(&["1"])).unwrap_err(), TodoError::OutOfBounds);
    assert_eq!(t.file_content(), before);
}

#[test]
fn done_accepts_plus_numeral() {
    let t = store(&["[ ] a...", "[ ] b..."]);
    let t2 = t.done(&args(&["+2"])).unwrap();
    assert_eq!(t2.todo, vec!["[ ] a...", "[*] b..."]);
}

#[test]
fn edit_replaces_text_keeps_flag() {
    let t = store(&["[ ] buy milk", "[*] wash car"]);
    let t2 = t.edit(&args(&["2", "wash bike"])).unwrap();
    assert_eq!(t2.todo, vec!["[ ] buy milk", "[*] wash bike"]);
}

#[test]
fn edit_wrong_arg_count() {
    let t = store(&["[ ] a..."]);
    assert_eq!(t.edit(&args(&["1"])).unwrap_err(), TodoError::ArgCount);
    assert_eq!(t.edit(&args(&[])).unwrap_err(), TodoError::ArgCount);
    assert_eq!(
        t.edit(&args(&["1", "x", "y"])).unwrap_err(),
        TodoError::ArgCount
    );
}

#[test]
fn edit_bad_index() {
    let t = store(&["[ ] a..."]);
    assert_eq!(
        t.edit(&args(&["zzz", "new"])).unwrap_err(),
        TodoError::NotANumber
    );
    assert_eq!(
        t.edit(&args(&["0", "new"])).unwrap_err(),
        TodoError::OutOfBounds
    );
    assert_eq!(
        t.edit(&args(&["2", "new"])).unwrap_err(),
        TodoError::OutOfBounds
    );
}

#[test]
fn remove_shifts_later_entries() {
    let t = store(&["[ ] aa...", "[ ] bb...", "[ ] cc...", "[ ] dd..."]);
    let t2 = t.remove(&args(&["2"])).unwrap();
    assert_eq!(t2.todo, vec!["[ ] aa...", "[ ] cc...", "[ ] dd..."]);
    // what stood at position 3 is now addressable at position 2
    let t3 = t2.remove(&args(&["2"])).unwrap();
    assert_eq!(t3.todo, vec!["[ ] aa...", "[ ] dd..."]);
}

#[test]
fn remove_wrong_args() {
    let t = store(&["[ ] a..."]);
    assert_eq!(t.remove(&args(&[])).unwrap_err(), TodoError::ArgCount);
    assert_eq!(t.remove(&args(&["9"])).unwrap_err(), TodoError::OutOfBounds);
}

#[test]
fn add_appends_unchecked() {
    let t = store(&["[*] wash car"]);
    let (t2, chunk) = t.add(&args(&["buy milk", "call mom"])).unwrap();
    assert_eq!(t2.todo, vec!["[*] wash car", "[ ] buy milk", "[ ] call mom"]);
    assert_eq!(chunk, "[ ] buy milk\n[ ] call mom\n");
}

#[test]
fn add_nothing_is_an_error() {
    let t = store(&[]);
    assert_eq!(t.add(&args(&[])).unwrap_err(), TodoError::ArgCount);
}

#[test]
fn reset_empties_the_list() {
    let t = store(&["[ ] a...", "[*] b..."]);
    let t2 = t.reset();
    assert_eq!(t2.todo.len(), 0);
    assert_eq!(t2.file_content(), "");
    assert_eq!(t2.path, t.path);
}

#[test]
fn sort_orders_and_leaves_store_alone() {
    let t = store(&["[*] bbb", "[ ] ccc", "[ ] aaa", "[*] aaa"]);
    let before = t.file_content();
    let out = t.sort();
    assert_eq!(out, "[ ] aaa\n[ ] ccc\n[*] aaa\n[*] bbb\n");
    // non-destructive: the backing content is byte-identical afterwards
    assert_eq!(t.file_content(), before);
    assert_eq!(t.todo, vec!["[*] bbb", "[ ] ccc", "[ ] aaa", "[*] aaa"]);
}

#[test]
fn sort_empty_store() {
    let t = store(&[]);
    assert_eq!(t.sort(), "");
}

#[test]
fn raw_filters_partition_the_store() {
    let t = store(&["[ ] buy milk", "[*] wash car", "[ ] call mom"]);
    let done = t.raw(&args(&["done"])).unwrap();
    let todo = t.raw(&args(&["todo"])).unwrap();
    assert_eq!(done, "[*] wash car");
    assert_eq!(todo, "[ ] buy milk\n[ ] call mom");
    let mut union: Vec<&str> = Vec::new();
    union.extend(done.lines());
    union.extend(todo.lines());
    assert_eq!(union.len(), t.todo.len());
    for line in &t.todo {
        assert_eq!(union.iter().filter(|u| *u == line).count(), 1);
    }
}

#[test]
fn raw_bad_filter_is_fatal_and_store_unchanged() {
    let t = store(&["[ ] buy milk"]);
    let before = t.file_content();
    assert_eq!(t.raw(&args(&["xyz"])).unwrap_err(), TodoError::BadFilter);
    assert_eq!(t.file_content(), before);
}

#[test]
fn raw_wrong_arg_count() {
    let t = store(&["[ ] buy milk"]);
    assert_eq!(t.raw(&args(&[])).unwrap_err(), TodoError::RawArgCount);
    assert_eq!(
        t.raw(&args(&["done", "todo"])).unwrap_err(),
        TodoError::RawArgCount
    );
}

#[test]
fn scenario_done_remove_add_list() {
    let t = store(&["[ ] buy milk", "[*] wash car"]);
    let t = t.done(&args(&["1"])).unwrap();
    assert_eq!(t.todo, vec!["[*] buy milk", "[*] wash car"]);
    let t = t.remove(&args(&["2"])).unwrap();
    assert_eq!(t.todo, vec!["[*] buy milk"]);
    let (t, _chunk) = t.add(&args(&["call mom"])).unwrap();
    assert_eq!(t.todo, vec!["[*] buy milk", "[ ] call mom"]);
    let out = t.list();
    let plain = "1 buy milk\n2 call mom\n".to_string();
    let struck = format!("1 {}buy milk{}\n2 call mom\n", STRIKE_ON, STRIKE_OFF);
    assert!(out == plain || out == struck, "unexpected listing: {:?}", out);
}

#[test]
fn error_messages_match_the_tool() {
    assert_eq!(TodoError::ArgCount.message(), "args can not be empty");
    assert_eq!(TodoError::RawArgCount.message(), "args not valid");
    assert_eq!(
        TodoError::NotANumber.message(),
        "1st element must be a valid number"
    );
    assert_eq!(
        TodoError::OutOfBounds.message(),
        "1st element number is out of bound"
    );
    assert_eq!(
        TodoError::BadFilter.message(),
        "raw value must be either 'done' or 'todo'"
    );
    assert_eq!(
        TodoError::MalformedLine.message(),
        "todofile line is shorter than its marker"
    );
}

#[test]
fn file_content_joins_lines() {
    let t = store(&["[ ] a...", "[*] b..."]);
    assert_eq!(t.file_content(), "[ ] a...\n[*] b...\n");
}
