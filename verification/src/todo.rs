//! The task-list engine: the full store is loaded into memory, one operation
//! transforms the in-memory list, and the caller persists the result.
use vstd::prelude::*;

use crate::entry::decoded_checked;
use crate::entry::decoded_element;
use crate::entry::display_line;
use crate::entry::encoded_line;
use crate::entry::encoded_record;
use crate::entry::shown_text_ok;
use crate::entry::Entry;
use crate::numerals::is_numeral;
use crate::numerals::numeral_body;
use crate::numerals::numeral_val;
use crate::numerals::parse_usize;
use crate::textops::join_sep;
use crate::textops::lex_le;
use crate::textops::lex_le_exec;
use crate::textops::lemma_lex_le_antisymmetric;
use crate::textops::lemma_lex_le_connected;
use crate::textops::lemma_lex_le_reflexive;
use crate::textops::lemma_lex_le_transitive;
use crate::textops::lines_spec;
use crate::textops::views;
use vstd::relations::sorted_by;
use vstd::relations::total_ordering;
use vstd::seq_lib::lemma_multiset_commutative;
use vstd::seq_lib::lemma_sorted_unique;

verus! {

broadcast use vstd::string::group_string_axioms;

/// Why an operation was refused. Every refusal is fatal to the invocation;
/// the boundary decides the exit status.
#[derive(Clone, Copy, Debug, PartialEq, Eq, Structural)]
pub enum TodoError {
    /// The wrong number of arguments for an index-taking operation, or no
    /// task text at all to add.
    ArgCount,
    /// The wrong number of arguments for the raw listing.
    RawArgCount,
    /// The index argument is not a decimal numeral.
    NotANumber,
    /// The index argument is zero or exceeds the entry count.
    OutOfBounds,
    /// The raw filter is neither of its two accepted words.
    BadFilter,
    /// A stored line is shorter than the four-character marker.
    MalformedLine,
}

impl TodoError {
    /// The diagnostic for the error, as the invocation prints it before
    /// exiting with a failure status.
    pub fn message(&self) -> (r: String)
        ensures
            self is ArgCount ==> r@ == "args can not be empty"@,
            self is RawArgCount ==> r@ == "args not valid"@,
            self is NotANumber ==> r@ == "1st element must be a valid number"@,
            self is OutOfBounds ==> r@ == "1st element number is out of bound"@,
            self is BadFilter ==> r@ == "raw value must be either 'done' or 'todo'"@,
            self is MalformedLine ==> r@ == "todofile line is shorter than its marker"@,
    {
        match self {
            TodoError::ArgCount => String::from_str("args can not be empty"),
            TodoError::RawArgCount => String::from_str("args not valid"),
            TodoError::NotANumber => String::from_str("1st element must be a valid number"),
            TodoError::OutOfBounds => String::from_str("1st element number is out of bound"),
            TodoError::BadFilter => String::from_str("raw value must be either 'done' or 'todo'"),
            TodoError::MalformedLine => String::from_str("todofile line is shorter than its marker"),
        }
    }
}

/// A stored line the engine accepts: at least the four marker characters,
/// and no line terminator inside it.
pub open spec fn wf_line(line: Seq<char>) -> bool {
    line.len() >= 4 && !line.contains('\n')
}

/// The line as every full rewrite stores it back: the decoded flag and text,
/// re-encoded.
pub open spec fn normalize_line(line: Seq<char>) -> Seq<char> {
    encoded_line(decoded_checked(line), decoded_element(line))
}

/// The line re-encoded with its flag flipped.
pub open spec fn toggle_line(line: Seq<char>) -> Seq<char> {
    encoded_line(!decoded_checked(line), decoded_element(line))
}

/// Every line re-encoded as a rewrite stores it.
pub open spec fn normalize_all(lines: Seq<Seq<char>>) -> Seq<Seq<char>> {
    lines.map_values(|l: Seq<char>| normalize_line(l))
}

/// The store after the completion flag at 1-based position `n` is toggled:
/// that line flipped, every other line rewritten unchanged.
pub open spec fn done_lines(lines: Seq<Seq<char>>, n: int) -> Seq<Seq<char>> {
    Seq::new(lines.len(), |i: int| if i == n - 1 {
        toggle_line(lines[i])
    } else {
        normalize_line(lines[i])
    })
}

/// The store after the text at 1-based position `n` is replaced by `t`: the
/// flag there is kept, every other line rewritten unchanged.
pub open spec fn edit_lines(lines: Seq<Seq<char>>, n: int, t: Seq<char>) -> Seq<Seq<char>> {
    Seq::new(lines.len(), |i: int| if i == n - 1 {
        encoded_line(decoded_checked(lines[i]), t)
    } else {
        normalize_line(lines[i])
    })
}

/// The store after the entry at 1-based position `n` is removed: the rest
/// rewritten in their new order.
pub open spec fn remove_lines(lines: Seq<Seq<char>>, n: int) -> Seq<Seq<char>> {
    normalize_all(lines).remove(n - 1)
}

/// The lines appended for the given new task texts, all unchecked.
pub open spec fn added_lines(texts: Seq<Seq<char>>) -> Seq<Seq<char>> {
    texts.map_values(|t: Seq<char>| encoded_line(false, t))
}

/// The records appended to the store for the given new task texts.
pub open spec fn added_records(texts: Seq<Seq<char>>) -> Seq<char>
    decreases texts.len(),
{
    if texts.len() == 0 {
        Seq::empty()
    } else {
        added_records(texts.drop_last()) + encoded_record(false, texts.last())
    }
}

/// The full text that persists the given stored lines: each line followed by
/// its terminator.
pub open spec fn file_content_spec(lines: Seq<Seq<char>>) -> Seq<char>
    decreases lines.len(),
{
    if lines.len() == 0 {
        Seq::empty()
    } else {
        file_content_spec(lines.drop_last()) + lines.last() + seq!['\n']
    }
}

/// What a display of `line` may show in place of its decoded text.
pub open spec fn shown_line_ok(line: Seq<char>, shown: Seq<char>) -> bool {
    shown_text_ok(decoded_checked(line), decoded_element(line), shown)
}

/// The listing built from the shown texts: one display line per entry, in
/// order, with 1-based positions.
pub open spec fn render_all(shown: Seq<Seq<char>>) -> Seq<char>
    decreases shown.len(),
{
    if shown.len() == 0 {
        Seq::empty()
    } else {
        render_all(shown.drop_last()) + display_line(shown.len() as nat, shown.last())
    }
}

/// The decoded texts of all lines, shown undecorated.
pub open spec fn plain_shown(lines: Seq<Seq<char>>) -> Seq<Seq<char>> {
    lines.map_values(|l: Seq<char>| decoded_element(l))
}

/// No entry of the store is completed.
pub open spec fn all_unchecked(lines: Seq<Seq<char>>) -> bool {
    forall|i: int| 0 <= i < lines.len() ==> !decoded_checked(#[trigger] lines[i])
}

/// A possible listing of the store: every entry shown in order at its
/// position, each text shown as its display may decorate it.
pub open spec fn list_output_ok(lines: Seq<Seq<char>>, out: Seq<char>) -> bool {
    exists|shown: Seq<Seq<char>>|
        {
            &&& shown.len() == lines.len()
            &&& forall|i: int| 0 <= i < lines.len() ==> shown_line_ok(lines[i], #[trigger] shown[i])
            &&& out == render_all(shown)
        }
}

/// The stored lines of the completed entries, in store order, unmodified.
pub open spec fn checked_lines(lines: Seq<Seq<char>>) -> Seq<Seq<char>> {
    lines.filter(|l: Seq<char>| decoded_checked(l))
}

/// The stored lines of the open entries, in store order, unmodified.
pub open spec fn unchecked_lines(lines: Seq<Seq<char>>) -> Seq<Seq<char>> {
    lines.filter(|l: Seq<char>| !decoded_checked(l))
}

proof fn lemma_checked_lines_push(lines: Seq<Seq<char>>, i: int)
    requires
        0 <= i < lines.len(),
    ensures
        checked_lines(lines.take(i + 1)) == if decoded_checked(lines[i]) {
            checked_lines(lines.take(i)).push(lines[i])
        } else {
            checked_lines(lines.take(i))
        },
        unchecked_lines(lines.take(i + 1)) == if !decoded_checked(lines[i]) {
            unchecked_lines(lines.take(i)).push(lines[i])
        } else {
            unchecked_lines(lines.take(i))
        },
{
    reveal(Seq::filter);
    assert(lines.take(i + 1).drop_last() =~~= lines.take(i));
    assert(lines.take(i + 1).last() == lines[i]);
}

/// The decoded record of a stored line: its flag and its text.
pub open spec fn entry_key(line: Seq<char>) -> (bool, Seq<char>) {
    (decoded_checked(line), decoded_element(line))
}

/// The composite sort order: open entries before completed ones; within one
/// flag, texts in lexicographic order.
pub open spec fn entry_le() -> spec_fn((bool, Seq<char>), (bool, Seq<char>)) -> bool {
    |x: (bool, Seq<char>), y: (bool, Seq<char>)|
        if x.0 != y.0 {
            !x.0
        } else {
            lex_le(x.1, y.1)
        }
}

/// Every stored line decoded, in store order.
pub open spec fn decoded_all(lines: Seq<Seq<char>>) -> Seq<(bool, Seq<char>)> {
    lines.map_values(|l: Seq<char>| entry_key(l))
}

/// The records of the given decoded entries, re-encoded in order.
pub open spec fn records_of(es: Seq<(bool, Seq<char>)>) -> Seq<char>
    decreases es.len(),
{
    if es.len() == 0 {
        Seq::empty()
    } else {
        records_of(es.drop_last()) + encoded_record(es.last().0, es.last().1)
    }
}

/// The store's entries in the printed sort order.
pub open spec fn sorted_entries(lines: Seq<Seq<char>>) -> Seq<(bool, Seq<char>)> {
    decoded_all(lines).sort_by(entry_le())
}

/// What the sort operation prints: the re-encoded records in sorted order.
pub open spec fn sort_output(lines: Seq<Seq<char>>) -> Seq<char> {
    records_of(sorted_entries(lines))
}

/// The composite sort order is a total order on decoded entries.
pub proof fn lemma_entry_le_total_ordering()
    ensures
        total_ordering(entry_le()),
{
    let r = entry_le();
    assert forall|x: (bool, Seq<char>)| #[trigger] r(x, x) by {
        lemma_lex_le_reflexive(x.1);
    }
    assert forall|x: (bool, Seq<char>), y: (bool, Seq<char>)| #[trigger] r(x, y) && #[trigger] r(
        y,
        x,
    ) implies x == y by {
        if x.0 == y.0 {
            lemma_lex_le_antisymmetric(x.1, y.1);
        }
    }
    assert forall|x: (bool, Seq<char>), y: (bool, Seq<char>), z: (bool, Seq<char>)| #[trigger] r(
        x,
        y,
    ) && #[trigger] r(y, z) implies r(x, z) by {
        if x.0 == y.0 && y.0 == z.0 {
            lemma_lex_le_transitive(x.1, y.1, z.1);
        }
    }
    assert forall|x: (bool, Seq<char>), y: (bool, Seq<char>)| #[trigger] r(x, y) || #[trigger] r(
        y,
        x,
    ) by {
        if x.0 == y.0 {
            lemma_lex_le_connected(x.1, y.1);
        }
    }
}

proof fn lemma_push_multiset(s: Seq<(bool, Seq<char>)>, k: (bool, Seq<char>))
    ensures
        s.push(k).to_multiset() == s.to_multiset().insert(k),
{
    broadcast use vstd::seq_lib::group_to_multiset_ensures;

}

proof fn lemma_insert_multiset(s: Seq<(bool, Seq<char>)>, p: int, k: (bool, Seq<char>))
    requires
        0 <= p <= s.len(),
    ensures
        s.insert(p, k).to_multiset() == s.to_multiset().insert(k),
{
    broadcast use vstd::seq_lib::group_to_multiset_ensures;
    broadcast use vstd::multiset::group_multiset_axioms;

    let a = s.subrange(0, p);
    let b = s.subrange(p, s.len() as int);
    assert(s.insert(p, k) == a.push(k) + b);
    lemma_multiset_commutative(a.push(k), b);
    assert(s =~= a + b);
    lemma_multiset_commutative(a, b);
    assert(a.push(k).to_multiset() =~= a.to_multiset().insert(k));
    assert(a.to_multiset().insert(k).add(b.to_multiset()) =~= a.to_multiset().add(
        b.to_multiset(),
    ).insert(k));
}

proof fn lemma_sorted_insert(ks: Seq<(bool, Seq<char>)>, p: int, k: (bool, Seq<char>))
    requires
        total_ordering(entry_le()),
        sorted_by(ks, entry_le()),
        0 <= p <= ks.len(),
        forall|q: int| 0 <= q < p ==> entry_le()(#[trigger] ks[q], k),
        p < ks.len() ==> !entry_le()(ks[p], k),
    ensures
        sorted_by(ks.insert(p, k), entry_le()),
{
    let r = entry_le();
    let t = ks.insert(p, k);
    ks.insert_ensures(p, k);
    assert forall|i: int, j: int| 0 <= i < j < t.len() implies #[trigger] r(t[i], t[j]) by {
        if j < p {
            assert(r(ks[i], ks[j]));
        } else if j == p {
            assert(t[i] == ks[i]);
            assert(r(ks[i], k));
        } else if i == p {
            assert(r(k, ks[p]));
            if j - 1 > p {
                assert(r(ks[p], ks[j - 1]));
            }
        } else if i < p {
            assert(r(ks[i], ks[j - 1]));
        } else {
            assert(r(ks[i - 1], ks[j - 1]));
        }
    }
}

/// A well-shaped index argument whose value fits the machine.
pub open spec fn index_arg_ok(s: Seq<char>) -> bool {
    is_numeral(s) && numeral_val(numeral_body(s)) <= usize::MAX
}

/// The value of an index argument.
pub open spec fn index_arg_val(s: Seq<char>) -> nat {
    numeral_val(numeral_body(s))
}

/// An encoded line is always well formed when its text holds no terminator;
/// in particular, re-encoding the text of a well-formed line is.
pub proof fn lemma_encoded_line_wf(checked: bool, element: Seq<char>)
    requires
        !element.contains('\n'),
    ensures
        wf_line(encoded_line(checked, element)),
{
    let l = encoded_line(checked, element);
    assert forall|i: int| 0 <= i < l.len() implies l[i] != '\n' by {
        if i >= 4 {
            assert(l[i] == element[i - 4]);
            assert(!(exists|j: int| 0 <= j < element.len() && element[j] == '\n'));
        }
    }
    assert(!(exists|i: int| 0 <= i < l.len() && l[i] == '\n'));
}

/// The text decoded from a well-formed line holds no terminator either.
pub proof fn lemma_decoded_element_no_newline(line: Seq<char>)
    requires
        wf_line(line),
    ensures
        !decoded_element(line).contains('\n'),
{
    let e = decoded_element(line);
    assert forall|i: int| 0 <= i < e.len() implies e[i] != '\n' by {
        assert(e[i] == line[i + 4]);
        assert(!(exists|j: int| 0 <= j < line.len() && line[j] == '\n'));
    }
    assert(!(exists|i: int| 0 <= i < e.len() && e[i] == '\n'));
}

/// The keys of decoded in-memory entries, in order.
spec fn entry_keys(es: Seq<Entry>) -> Seq<(bool, Seq<char>)> {
    es.map_values(|e: Entry| (e.checked, e.element@))
}

/// Decides the composite sort order of two decoded entries.
fn entry_le_exec(a: &Entry, b: &Entry) -> (r: bool)
    ensures
        r == entry_le()((a.checked, a.element@), (b.checked, b.element@)),
{
    if a.checked != b.checked {
        !a.checked
    } else {
        lex_le_exec(a.element.as_str(), b.element.as_str())
    }
}

/// The whole task list, loaded from the backing store, with the store's
/// location kept beside it.
#[derive(Debug)]
pub struct Todo {
    pub todo: Vec<String>,
    pub path: String,
}

impl Todo {
    /// The stored lines as character sequences.
    pub open spec fn lines(&self) -> Seq<Seq<char>> {
        views(self.todo@)
    }

    /// Well-formed: every stored line carries at least its marker and holds
    /// no line terminator.
    pub open spec fn wf(&self) -> bool {
        forall|i: int| 0 <= i < self.lines().len() ==> wf_line(#[trigger] self.lines()[i])
    }

    /// Builds the list from the store's full text and its location. The text
    /// splits into lines at each terminator; a line shorter than the marker
    /// is malformed and fails the load whole.
    #[verifier::loop_isolation(false)]
    pub fn new(contents: &str, path: String) -> (r: Result<Todo, TodoError>)
        ensures
            r matches Ok(t) ==> {
                &&& t.lines() == lines_spec(contents@)
                &&& t.path == path
                &&& t.wf()
            },
            r is Ok <==> (forall|i: int|
                0 <= i < lines_spec(contents@).len() ==> wf_line(
                    #[trigger] lines_spec(contents@)[i],
                )),
            r is Err ==> r == Err::<Todo, TodoError>(TodoError::MalformedLine),
    {
        let lines = crate::textops::split_lines(contents);
        let n = lines.len();
        let mut i: usize = 0;
        while i < n
            invariant
                0 <= i <= n,
                forall|j: int| 0 <= j < i ==> wf_line(#[trigger] lines_spec(contents@)[j]),
            decreases n - i,
        {
            if lines[i].as_str().unicode_len() < 4 {
                proof {
                    assert(!wf_line(lines_spec(contents@)[i as int]));
                }
                return Err(TodoError::MalformedLine);
            }
            proof {
                crate::textops::lemma_lines_no_newline(contents@, i as int);
            }
            i = i + 1;
        }
        Ok(Todo { todo: lines, path })
    }

    /// Persists the list: every stored line followed by its terminator.
    #[verifier::loop_isolation(false)]
    pub fn file_content(&self) -> (r: String)
        ensures
            r@ == file_content_spec(self.lines()),
    {
        let mut r = String::new();
        let n = self.todo.len();
        let mut i: usize = 0;
        proof {
            assert(r@ =~= file_content_spec(self.lines().take(0)));
        }
        while i < n
            invariant
                0 <= i <= n,
                r@ == file_content_spec(self.lines().take(i as int)),
            decreases n - i,
        {
            r.append(self.todo[i].as_str());
            r.append("\n");
            proof {
                reveal_strlit("\n");
                let ls = self.lines();
                assert(ls.take(i as int + 1).drop_last() =~= ls.take(i as int));
                assert(r@ =~= file_content_spec(ls.take(i as int + 1)));
            }
            i = i + 1;
        }
        proof {
            assert(self.lines().take(n as int) =~= self.lines());
        }
        r
    }

    /// Produces the listing of all entries: one display line per entry, in
    /// store order, at 1-based positions; a completed entry's text may come
    /// out decorated. On a store with no completed entry the listing is a
    /// pure function of the stored lines. No mutation.
    #[verifier::loop_isolation(false)]
    pub fn list(&self) -> (r: String)
        requires
            self.wf(),
        ensures
            list_output_ok(self.lines(), r@),
            all_unchecked(self.lines()) ==> r@ == render_all(plain_shown(self.lines())),
    {
        let mut out = String::new();
        let len = self.todo.len();
        let mut i: usize = 0;
        let ghost mut shown: Seq<Seq<char>> = Seq::empty();
        proof {
            assert(out@ =~= render_all(shown));
        }
        while i < len
            invariant
                0 <= i <= len,
                shown.len() == i,
                forall|j: int| 0 <= j < i ==> shown_line_ok(self.lines()[j], #[trigger] shown[j]),
                out@ == render_all(shown),
                all_unchecked(self.lines()) ==> shown == plain_shown(self.lines()).take(i as int),
            decreases len - i,
        {
            proof {
                assert(wf_line(self.lines()[i as int]));
            }
            let entry = Entry::read_line(self.todo[i].as_str());
            let line = entry.show_line(i + 1);
            out.append(line.as_str());
            proof {
                let sh = choose|sh: Seq<char>|
                    shown_text_ok(entry.checked, entry.element@, sh) && line@ == display_line(
                        (i + 1) as nat,
                        sh,
                    );
                let prev = shown;
                shown = shown.push(sh);
                assert(shown.drop_last() =~~= prev);
                assert(shown.last() == sh);
                assert(out@ =~= render_all(prev) + display_line((i + 1) as nat, sh));
                assert(out@ =~= render_all(shown));
                if all_unchecked(self.lines()) {
                    assert(!decoded_checked(self.lines()[i as int]));
                    assert(sh == decoded_element(self.lines()[i as int]));
                    assert(shown =~~= plain_shown(self.lines()).take(i as int + 1));
                }
            }
            i = i + 1;
        }
        proof {
            assert(list_output_ok(self.lines(), out@));
            if all_unchecked(self.lines()) {
                assert(plain_shown(self.lines()).take(len as int) =~~= plain_shown(self.lines()));
            }
        }
        out
    }

    /// Appends one unchecked entry per given task text. The new list and the
    /// records to append to the store are returned; prior lines are not
    /// rewritten. At least one text is required.
    #[verifier::loop_isolation(false)]
    pub fn add(&self, args: &Vec<String>) -> (r: Result<(Todo, String), TodoError>)
        requires
            self.wf(),
            forall|i: int| 0 <= i < args@.len() ==> !(#[trigger] args@[i]@).contains('\n'),
        ensures
            args@.len() == 0 ==> r == Err::<(Todo, String), TodoError>(TodoError::ArgCount),
            args@.len() > 0 ==> (r matches Ok(p) && p.0.lines() == self.lines() + added_lines(
                views(args@),
            ) && p.0.path == self.path && p.0.wf() && p.1@ == added_records(views(args@))),
    {
        if args.len() == 0 {
            return Err(TodoError::ArgCount);
        }
        let len = self.todo.len();
        let mut out: Vec<String> = Vec::new();
        let mut i: usize = 0;
        while i < len
            invariant
                0 <= i <= len,
                views(out@) == self.lines().take(i as int),
            decreases len - i,
        {
            out.push(self.todo[i].clone());
            proof {
                assert(views(out@) =~~= self.lines().take(i as int + 1));
            }
            i = i + 1;
        }
        proof {
            assert(self.lines().take(len as int) =~~= self.lines());
        }
        let n = args.len();
        let mut chunk = String::new();
        let mut k: usize = 0;
        proof {
            assert(views(out@) =~~= self.lines() + added_lines(views(args@).take(0)));
            assert(chunk@ =~= added_records(views(args@).take(0)));
        }
        while k < n
            invariant
                0 <= k <= n,
                n == args@.len(),
                views(out@) == self.lines() + added_lines(views(args@).take(k as int)),
                chunk@ == added_records(views(args@).take(k as int)),
            decreases n - k,
        {
            let e = Entry::new(args[k].clone(), false);
            let line = e.store_line();
            chunk.append(line.as_str());
            chunk.append("\n");
            out.push(line);
            proof {
                reveal_strlit("\n");
                let avs = views(args@);
                assert(avs.take(k as int + 1).drop_last() =~~= avs.take(k as int));
                assert(avs.take(k as int + 1).last() == avs[k as int]);
                assert(line@ == encoded_line(false, avs[k as int]));
                assert(added_lines(avs.take(k as int + 1)) =~~= added_lines(
                    avs.take(k as int),
                ).push(encoded_line(false, avs[k as int])));
                assert(views(out@) =~~= (self.lines() + added_lines(avs.take(k as int))).push(
                    encoded_line(false, avs[k as int]),
                ));
                assert((self.lines() + added_lines(avs.take(k as int))).push(
                    encoded_line(false, avs[k as int]),
                ) =~~= self.lines() + added_lines(avs.take(k as int)).push(
                    encoded_line(false, avs[k as int]),
                ));
                assert(views(out@) =~~= self.lines() + added_lines(avs.take(k as int + 1)));
                assert(chunk@ =~= added_records(avs.take(k as int + 1)));
            }
            k = k + 1;
        }
        let ghost result_lines = self.lines() + added_lines(views(args@));
        proof {
            assert(views(args@).take(n as int) =~~= views(args@));
            assert forall|j: int| 0 <= j < result_lines.len() implies wf_line(
                #[trigger] result_lines[j],
            ) by {
                if j < self.lines().len() {
                    assert(wf_line(self.lines()[j]));
                } else {
                    lemma_encoded_line_wf(false, views(args@)[j - self.lines().len()]);
                }
            }
        }
        Ok((Todo { todo: out, path: self.path.clone() }, chunk))
    }

    /// Replaces the task text at the given 1-based position, keeping its
    /// completion flag, and rewrites the whole list. Exactly two arguments
    /// are accepted: the index and the replacement text.
    #[verifier::loop_isolation(false)]
    pub fn edit(&self, args: &[String]) -> (r: Result<Todo, TodoError>)
        requires
            self.wf(),
            args@.len() == 2 ==> !args@[1]@.contains('\n'),
        ensures
            args@.len() != 2 ==> r == Err::<Todo, TodoError>(TodoError::ArgCount),
            args@.len() == 2 && !index_arg_ok(args@[0]@) ==> r == Err::<Todo, TodoError>(
                TodoError::NotANumber,
            ),
            args@.len() == 2 && index_arg_ok(args@[0]@) && (index_arg_val(args@[0]@) == 0
                || index_arg_val(args@[0]@) > self.lines().len()) ==> r == Err::<Todo, TodoError>(
                TodoError::OutOfBounds,
            ),
            args@.len() == 2 && index_arg_ok(args@[0]@) && 1 <= index_arg_val(args@[0]@)
                <= self.lines().len() ==> (r matches Ok(t) && t.lines() == edit_lines(
                self.lines(),
                index_arg_val(args@[0]@) as int,
                args@[1]@,
            ) && t.path == self.path && t.wf()),
    {
        if args.len() != 2 {
            return Err(TodoError::ArgCount);
        }
        let n = match self.verify_number(args) {
            Ok(n) => n,
            Err(e) => {
                return Err(e);
            },
        };
        let len = self.todo.len();
        let mut out: Vec<String> = Vec::new();
        let mut i: usize = 0;
        let ghost target = edit_lines(self.lines(), n as int, args@[1]@);
        while i < len
            invariant
                0 <= i <= len,
                1 <= n <= len,
                len == self.lines().len(),
                target == edit_lines(self.lines(), n as int, args@[1]@),
                views(out@) == target.take(i as int),
                forall|j: int| 0 <= j < i ==> wf_line(#[trigger] target[j]),
            decreases len - i,
        {
            proof {
                assert(wf_line(self.lines()[i as int]));
            }
            let entry = Entry::read_line(self.todo[i].as_str());
            let line = if i + 1 == n {
                entry.replace(args[1].as_str()).store_line()
            } else {
                entry.store_line()
            };
            proof {
                assert(line@ == target[i as int]);
                lemma_decoded_element_no_newline(self.lines()[i as int]);
                if i as int + 1 == n as int {
                    lemma_encoded_line_wf(decoded_checked(self.lines()[i as int]), args@[1]@);
                } else {
                    lemma_encoded_line_wf(
                        decoded_checked(self.lines()[i as int]),
                        decoded_element(self.lines()[i as int]),
                    );
                }
            }
            out.push(line);
            proof {
                assert(target.take(i as int + 1) =~~= target.take(i as int).push(
                    target[i as int],
                ));
                assert(views(out@) =~~= target.take(i as int + 1));
            }
            i = i + 1;
        }
        proof {
            assert(target.take(len as int) =~~= target);
        }
        Ok(Todo { todo: out, path: self.path.clone() })
    }

    /// Removes the entry at the given 1-based position; every later entry
    /// moves up one place, and the remaining list is rewritten. Exactly one
    /// argument is accepted.
    #[verifier::loop_isolation(false)]
    pub fn remove(&self, args: &[String]) -> (r: Result<Todo, TodoError>)
        requires
            self.wf(),
        ensures
            args@.len() != 1 ==> r == Err::<Todo, TodoError>(TodoError::ArgCount),
            args@.len() == 1 && !index_arg_ok(args@[0]@) ==> r == Err::<Todo, TodoError>(
                TodoError::NotANumber,
            ),
            args@.len() == 1 && index_arg_ok(args@[0]@) && (index_arg_val(args@[0]@) == 0
                || index_arg_val(args@[0]@) > self.lines().len()) ==> r == Err::<Todo, TodoError>(
                TodoError::OutOfBounds,
            ),
            args@.len() == 1 && index_arg_ok(args@[0]@) && 1 <= index_arg_val(args@[0]@)
                <= self.lines().len() ==> (r matches Ok(t) && t.lines() == remove_lines(
                self.lines(),
                index_arg_val(args@[0]@) as int,
            ) && t.path == self.path && t.wf()),
    {
        if args.len() != 1 {
            return Err(TodoError::ArgCount);
        }
        let n = match self.verify_number(args) {
            Ok(n) => n,
            Err(e) => {
                return Err(e);
            },
        };
        let len = self.todo.len();
        let mut out: Vec<String> = Vec::new();
        let mut i: usize = 0;
        let ghost target = remove_lines(self.lines(), n as int);
        proof {
            normalize_all(self.lines()).remove_ensures(n as int - 1);
        }
        while i < len
            invariant
                0 <= i <= len,
                1 <= n <= len,
                len == self.lines().len(),
                target == remove_lines(self.lines(), n as int),
                target.len() == len - 1,
                forall|j: int|
                    0 <= j < n - 1 ==> #[trigger] target[j] == normalize_all(self.lines())[j],
                forall|j: int|
                    n - 1 <= j < len - 1 ==> #[trigger] target[j] == normalize_all(
                        self.lines(),
                    )[j + 1],
                views(out@) == (if i < n {
                    target.take(i as int)
                } else {
                    target.take(i as int - 1)
                }),
                forall|j: int| 0 <= j < views(out@).len() ==> wf_line(#[trigger] target[j]),
            decreases len - i,
        {
            proof {
                assert(wf_line(self.lines()[i as int]));
            }
            if i + 1 != n {
                let entry = Entry::read_line(self.todo[i].as_str());
                let line = entry.store_line();
                proof {
                    lemma_decoded_element_no_newline(self.lines()[i as int]);
                    lemma_encoded_line_wf(
                        decoded_checked(self.lines()[i as int]),
                        decoded_element(self.lines()[i as int]),
                    );
                    assert(line@ == normalize_all(self.lines())[i as int]);
                    if i < n {
                        assert(line@ == target[i as int]);
                    } else {
                        assert(line@ == target[i as int - 1]);
                    }
                }
                out.push(line);
                proof {
                    if i < n {
                        assert(target.take(i as int + 1) =~~= target.take(i as int).push(
                            target[i as int],
                        ));
                        assert(views(out@) =~~= target.take(i as int + 1));
                    } else {
                        assert(target.take(i as int) =~~= target.take(i as int - 1).push(
                            target[i as int - 1],
                        ));
                        assert(views(out@) =~~= target.take(i as int));
                    }
                }
            }
            i = i + 1;
        }
        proof {
            assert(target.take(len as int - 1) =~~= target);
        }
        Ok(Todo { todo: out, path: self.path.clone() })
    }

    /// Empties the list unconditionally; the caller truncates the store.
    pub fn reset(&self) -> (r: Todo)
        ensures
            r.lines().len() == 0,
            r.path == self.path,
            r.wf(),
    {
        let out: Vec<String> = Vec::new();
        Todo { todo: out, path: self.path.clone() }
    }

    /// Emits the unmodified stored lines of one completion state, joined by
    /// single terminators with nothing appended, for machine consumption.
    /// Exactly one argument is accepted: the word naming the state.
    #[verifier::loop_isolation(false)]
    pub fn raw(&self, args: &[String]) -> (r: Result<String, TodoError>)
        requires
            self.wf(),
        ensures
            args@.len() != 1 ==> r == Err::<String, TodoError>(TodoError::RawArgCount),
            args@.len() == 1 && args@[0]@ == "done"@ ==> (r matches Ok(s) && s@ == join_sep(
                checked_lines(self.lines()),
                seq!['\n'],
            )),
            args@.len() == 1 && args@[0]@ == "todo"@ ==> (r matches Ok(s) && s@ == join_sep(
                unchecked_lines(self.lines()),
                seq!['\n'],
            )),
            args@.len() == 1 && args@[0]@ != "done"@ && args@[0]@ != "todo"@ ==> r == Err::<
                String,
                TodoError,
            >(TodoError::BadFilter),
    {
        if args.len() != 1 {
            return Err(TodoError::RawArgCount);
        }
        let done_word = String::from_str("done");
        let todo_word = String::from_str("todo");
        let want: bool = if args[0].eq(&done_word) {
            true
        } else if args[0].eq(&todo_word) {
            false
        } else {
            return Err(TodoError::BadFilter);
        };
        let len = self.todo.len();
        let mut out = String::new();
        let mut any = false;
        let mut i: usize = 0;
        let ghost mut fs: Seq<Seq<char>> = Seq::empty();
        proof {
            assert(fs =~~= checked_lines(self.lines().take(0)));
            assert(fs =~~= unchecked_lines(self.lines().take(0)));
            assert(out@ =~= join_sep(fs, seq!['\n']));
        }
        while i < len
            invariant
                0 <= i <= len,
                len == self.lines().len(),
                want ==> fs == checked_lines(self.lines().take(i as int)),
                !want ==> fs == unchecked_lines(self.lines().take(i as int)),
                out@ == join_sep(fs, seq!['\n']),
                any == (fs.len() > 0),
            decreases len - i,
        {
            proof {
                assert(wf_line(self.lines()[i as int]));
                lemma_checked_lines_push(self.lines(), i as int);
            }
            let entry = Entry::read_line(self.todo[i].as_str());
            if entry.checked == want {
                let ghost prev = fs;
                proof {
                    fs = fs.push(self.lines()[i as int]);
                    assert(fs.drop_last() =~~= prev);
                    assert(fs.last() == self.lines()[i as int]);
                }
                if any {
                    out.append("\n");
                    out.append(self.todo[i].as_str());
                    proof {
                        reveal_strlit("\n");
                        assert(out@ =~= join_sep(prev, seq!['\n']) + seq!['\n'] + fs.last());
                        assert(out@ =~= join_sep(fs, seq!['\n']));
                    }
                } else {
                    out.append(self.todo[i].as_str());
                    proof {
                        assert(prev.len() == 0);
                        assert(out@ =~= self.lines()[i as int]);
                        assert(out@ =~= join_sep(fs, seq!['\n']));
                    }
                }
                any = true;
            }
            i = i + 1;
        }
        proof {
            reveal_strlit("done");
            reveal_strlit("todo");
            assert(self.lines().take(len as int) =~~= self.lines());
            assert("done"@[0] != "todo"@[0]);
        }
        Ok(out)
    }

    /// Prints the entries in sorted order — open entries first, then
    /// completed ones, each group in lexicographic order of text — and
    /// leaves the list, and so the store, untouched.
    #[verifier::loop_isolation(false)]
    pub fn sort(&self) -> (r: String)
        requires
            self.wf(),
        ensures
            r@ == sort_output(self.lines()),
    {
        proof {
            lemma_entry_le_total_ordering();
        }
        let len = self.todo.len();
        let mut sorted: Vec<Entry> = Vec::new();
        let mut i: usize = 0;
        proof {
            assert(entry_keys(sorted@) =~~= decoded_all(self.lines().take(0)));
        }
        while i < len
            invariant
                0 <= i <= len,
                len == self.lines().len(),
                sorted@.len() == i,
                sorted_by(entry_keys(sorted@), entry_le()),
                entry_keys(sorted@).to_multiset() == decoded_all(
                    self.lines().take(i as int),
                ).to_multiset(),
            decreases len - i,
        {
            proof {
                assert(wf_line(self.lines()[i as int]));
            }
            let e = Entry::read_line(self.todo[i].as_str());
            let ghost k = (e.checked, e.element@);
            let slen = sorted.len();
            let mut p: usize = 0;
            while p < slen && entry_le_exec(&sorted[p], &e)
                invariant
                    0 <= p <= slen,
                    slen == sorted@.len(),
                    forall|q: int| 0 <= q < p ==> entry_le()(#[trigger] entry_keys(sorted@)[q], k),
                decreases slen - p,
            {
                p = p + 1;
            }
            let ghost prevkeys = entry_keys(sorted@);
            let ghost prev = sorted@;
            sorted.insert(p, e);
            proof {
                lemma_sorted_insert(prevkeys, p as int, k);
                prev.insert_ensures(p as int, e);
                prevkeys.insert_ensures(p as int, k);
                assert(entry_keys(sorted@) =~~= prevkeys.insert(p as int, k));
                lemma_insert_multiset(prevkeys, p as int, k);
                assert(decoded_all(self.lines().take(i as int + 1)) =~~= decoded_all(
                    self.lines().take(i as int),
                ).push(entry_key(self.lines()[i as int])));
                lemma_push_multiset(
                    decoded_all(self.lines().take(i as int)),
                    entry_key(self.lines()[i as int]),
                );
                assert(k == entry_key(self.lines()[i as int]));
            }
            i = i + 1;
        }
        proof {
            assert(self.lines().take(len as int) =~~= self.lines());
            decoded_all(self.lines()).lemma_sort_by_ensures(entry_le());
            lemma_sorted_unique(entry_keys(sorted@), sorted_entries(self.lines()), entry_le());
            assert(entry_keys(sorted@) =~~= sorted_entries(self.lines()));
        }
        let mut out = String::new();
        let n = sorted.len();
        let mut j: usize = 0;
        proof {
            assert(out@ =~= records_of(entry_keys(sorted@).take(0)));
        }
        while j < n
            invariant
                0 <= j <= n,
                n == sorted@.len(),
                entry_keys(sorted@) == sorted_entries(self.lines()),
                out@ == records_of(entry_keys(sorted@).take(j as int)),
            decreases n - j,
        {
            let line = sorted[j].store_line();
            out.append(line.as_str());
            out.append("\n");
            proof {
                reveal_strlit("\n");
                let ks = entry_keys(sorted@);
                assert(ks.take(j as int + 1).drop_last() =~~= ks.take(j as int));
                assert(ks.take(j as int + 1).last() == ks[j as int]);
                assert(ks[j as int] == (sorted@[j as int].checked, sorted@[j as int].element@));
                assert(out@ =~= records_of(ks.take(j as int)) + encoded_record(
                    ks[j as int].0,
                    ks[j as int].1,
                ));
                assert(out@ =~= records_of(ks.take(j as int + 1)));
            }
            j = j + 1;
        }
        proof {
            assert(entry_keys(sorted@).take(n as int) =~~= entry_keys(sorted@));
        }
        out
    }

    /// Checks the index argument: it must be a decimal numeral, at least one,
    /// and at most the entry count.
    fn verify_number(&self, args: &[String]) -> (r: Result<usize, TodoError>)
        requires
            args@.len() >= 1,
        ensures
            !index_arg_ok(args@[0]@) ==> r == Err::<usize, TodoError>(TodoError::NotANumber),
            index_arg_ok(args@[0]@) && (index_arg_val(args@[0]@) == 0 || index_arg_val(args@[0]@)
                > self.lines().len()) ==> r == Err::<usize, TodoError>(TodoError::OutOfBounds),
            index_arg_ok(args@[0]@) && 1 <= index_arg_val(args@[0]@) <= self.lines().len() ==> r
                == Ok::<usize, TodoError>(index_arg_val(args@[0]@) as usize),
    {
        let parsed = parse_usize(args[0].as_str());
        match parsed {
            None => Err(TodoError::NotANumber),
            Some(line_number) => {
                if line_number == 0 || line_number > self.todo.len() {
                    Err(TodoError::OutOfBounds)
                } else {
                    Ok(line_number)
                }
            },
        }
    }

    /// Toggles the completion flag at the given 1-based position and rewrites
    /// the whole list. Exactly one argument is accepted; the flag at the index
    /// flips, every other entry is rewritten unchanged.
    #[verifier::loop_isolation(false)]
    pub fn done(&self, args: &[String]) -> (r: Result<Todo, TodoError>)
        requires
            self.wf(),
        ensures
            args@.len() != 1 ==> r == Err::<Todo, TodoError>(TodoError::ArgCount),
            args@.len() == 1 && !index_arg_ok(args@[0]@) ==> r == Err::<Todo, TodoError>(
                TodoError::NotANumber,
            ),
            args@.len() == 1 && index_arg_ok(args@[0]@) && (index_arg_val(args@[0]@) == 0
                || index_arg_val(args@[0]@) > self.lines().len()) ==> r == Err::<Todo, TodoError>(
                TodoError::OutOfBounds,
            ),
            args@.len() == 1 && index_arg_ok(args@[0]@) && 1 <= index_arg_val(args@[0]@)
                <= self.lines().len() ==> (r matches Ok(t) && t.lines() == done_lines(
                self.lines(),
                index_arg_val(args@[0]@) as int,
            ) && t.path == self.path && t.wf()),
    {
        if args.len() != 1 {
            return Err(TodoError::ArgCount);
        }
        let n = match self.verify_number(args) {
            Ok(n) => n,
            Err(e) => {
                return Err(e);
            },
        };
        let len = self.todo.len();
        let mut out: Vec<String> = Vec::new();
        let mut i: usize = 0;
        let ghost target = done_lines(self.lines(), n as int);
        while i < len
            invariant
                0 <= i <= len,
                1 <= n <= len,
                len == self.lines().len(),
                target == done_lines(self.lines(), n as int),
                views(out@) == target.take(i as int),
                forall|j: int| 0 <= j < i ==> wf_line(#[trigger] target[j]),
            decreases len - i,
        {
            proof {
                assert(wf_line(self.lines()[i as int]));
            }
            let entry = Entry::read_line(self.todo[i].as_str());
            let line = if i + 1 == n {
                Entry::new(entry.element, !entry.checked).store_line()
            } else {
                entry.store_line()
            };
            proof {
                assert(line@ == target[i as int]);
                lemma_decoded_element_no_newline(self.lines()[i as int]);
                lemma_encoded_line_wf(
                    decoded_checked(self.lines()[i as int]) != (i as int + 1 == n as int),
                    decoded_element(self.lines()[i as int]),
                );
            }
            out.push(line);
            proof {
                assert(target.take(i as int + 1) =~~= target.take(i as int).push(
                    target[i as int],
                ));
                assert(views(out@) =~~= target.take(i as int + 1));
            }
            i = i + 1;
        }
        proof {
            assert(target.take(len as int) =~~= target);
        }
        Ok(Todo { todo: out, path: self.path.clone() })
    }
}

} // verus!
