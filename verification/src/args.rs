//! The boundary's argument handling that carries logic of its own: turning
//! the raw arguments into task texts, and the usage text.
use vstd::prelude::*;

use crate::textops::join_exec;
use crate::textops::join_sep;
use crate::textops::split_char;
use crate::textops::split_sep;
use crate::textops::trim_exec;
use crate::textops::trim_spec;
use crate::textops::views;

verus! {

/// Every piece trimmed.
pub open spec fn trimmed_all(ls: Seq<Seq<char>>) -> Seq<Seq<char>> {
    ls.map_values(|t: Seq<char>| trim_spec(t))
}

/// The pieces that still hold text.
pub open spec fn nonblank(ls: Seq<Seq<char>>) -> Seq<Seq<char>> {
    ls.filter(|t: Seq<char>| t.len() > 0)
}

/// The task texts carried by the raw arguments: the arguments joined by
/// single spaces, split at commas, each piece trimmed, empty pieces dropped.
pub open spec fn split_args_spec(args: Seq<Seq<char>>) -> Seq<Seq<char>> {
    nonblank(trimmed_all(split_sep(join_sep(args, seq![' ']), ',')))
}

proof fn lemma_nonblank_push(ls: Seq<Seq<char>>, i: int)
    requires
        0 <= i < ls.len(),
    ensures
        nonblank(ls.take(i + 1)) == if ls[i].len() > 0 {
            nonblank(ls.take(i)).push(ls[i])
        } else {
            nonblank(ls.take(i))
        },
{
    reveal(Seq::filter);
    assert(ls.take(i + 1).drop_last() =~~= ls.take(i));
    assert(ls.take(i + 1).last() == ls[i]);
}

/// Splits comma-separated task texts out of the raw arguments.
#[verifier::loop_isolation(false)]
pub fn split_args(args: &[String]) -> (r: Vec<String>)
    ensures
        views(r@) == split_args_spec(views(args@)),
{
    let joined = join_exec(args, " ");
    proof {
        reveal_strlit(" ");
        assert(" "@ =~= seq![' ']);
    }
    let segs = split_char(joined.as_str(), ',');
    let ghost pieces = trimmed_all(views(segs@));
    let mut out: Vec<String> = Vec::new();
    let n = segs.len();
    let mut k: usize = 0;
    proof {
        reveal(Seq::filter);
        assert(views(out@) =~~= nonblank(pieces.take(0)));
    }
    while k < n
        invariant
            0 <= k <= n,
            n == segs@.len(),
            pieces == trimmed_all(views(segs@)),
            pieces.len() == n,
            views(out@) == nonblank(pieces.take(k as int)),
        decreases n - k,
    {
        let t = trim_exec(segs[k].as_str());
        proof {
            assert(t@ == pieces[k as int]);
            lemma_nonblank_push(pieces, k as int);
        }
        if t.as_str().unicode_len() > 0 {
            out.push(t);
            proof {
                assert(views(out@) =~~= nonblank(pieces.take(k as int + 1)));
            }
        } else {
            proof {
                assert(views(out@) =~~= nonblank(pieces.take(k as int + 1)));
            }
        }
        k = k + 1;
    }
    proof {
        assert(pieces.take(n as int) =~~= pieces);
        assert(views(out@) =~~= split_args_spec(views(args@)));
    }
    out
}

/// The usage text, exactly as the help command hands it to the boundary.
pub fn help() -> (r: String)
    ensures
        r@
            == "Usage: todo [COMMAND] [ARGUMENTS]\nTodo is a super fast and simple tasks organizer written in rust\nExample: todo list\nAvailable commands:\n    - add [TASK/s]\n        adds new task/s\n        Example: todo add \"buy carrots\"\n    - edit [INDEX] [EDITED TASK/s]\n        edits an existing task/s\n        Example: todo edit 1 banana\n    - list\n        lists all tasks\n        Example: todo list\n    - done [INDEX]\n        marks task as done\n        Example: todo done 2 3 (marks second and third tasks as completed)\n    - rm [INDEX]\n        removes a task\n        Example: todo rm 4\n    - reset\n        deletes all tasks\n    - sort\n        sorts completed and uncompleted tasks\n        Example: todo sort\n    - raw [todo/done]\n        prints nothing but done/incompleted tasks in plain text, useful for scripting\n        Example: todo raw done\n"@,
{
    String::from_str(
        "Usage: todo [COMMAND] [ARGUMENTS]\nTodo is a super fast and simple tasks organizer written in rust\nExample: todo list\nAvailable commands:\n    - add [TASK/s]\n        adds new task/s\n        Example: todo add \"buy carrots\"\n    - edit [INDEX] [EDITED TASK/s]\n        edits an existing task/s\n        Example: todo edit 1 banana\n    - list\n        lists all tasks\n        Example: todo list\n    - done [INDEX]\n        marks task as done\n        Example: todo done 2 3 (marks second and third tasks as completed)\n    - rm [INDEX]\n        removes a task\n        Example: todo rm 4\n    - reset\n        deletes all tasks\n    - sort\n        sorts completed and uncompleted tasks\n        Example: todo sort\n    - raw [todo/done]\n        prints nothing but done/incompleted tasks in plain text, useful for scripting\n        Example: todo raw done\n",
    )
}

} // verus!
