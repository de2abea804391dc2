use todo_list::{help, split_args};

fn args(xs: &[&str]) -> Vec<String> {
    xs.iter().map(|s| s.to_string()).collect()
}

#[test]
fn split_args_splits_on_commas_and_trims() {
    let r = split_args(&args(&["buy milk,", "wash car"]));
    assert_eq!(r, vec!["buy milk", "wash car"]);
}

#[test]
fn split_args_joins_pieces_of_one_task() {
    let r = split_args(&args(&["buy", "milk"]));
    assert_eq!(r, vec!["buy milk"]);
}

#[test]
fn split_args_drops_empty_pieces() {
    let r = split_args(&args(&[",,a,", " , "]));
    assert_eq!(r, vec!["a"]);
    let none = split_args(&args(&[]));
    assert!(none.is_empty());
}

#[test]
fn help_names_every_command() {
    let h = help();
    assert!(h.starts_with("Usage: todo [COMMAND] [ARGUMENTS]"));
    for word in ["add", "edit", "list", "done", "rm", "reset", "sort", "raw"] {
        assert!(h.contains(word));
    }
}
