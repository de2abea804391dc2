//! The laws the task list obeys, stated over the same specifications that
//! the operations' contracts use.
use vstd::prelude::*;

use crate::entry::decoded_checked;
use crate::entry::decoded_element;
use crate::entry::encoded_line;
use crate::entry::encoded_record;
use crate::entry::lemma_decode_encode;
use crate::todo::all_unchecked;
use crate::todo::checked_lines;
use crate::todo::decoded_all;
use crate::todo::done_lines;
use crate::todo::entry_le;
use crate::todo::lemma_entry_le_total_ordering;
use crate::todo::normalize_all;
use crate::todo::normalize_line;
use crate::todo::plain_shown;
use crate::todo::remove_lines;
use crate::todo::render_all;
use crate::todo::sorted_entries;
use crate::todo::unchecked_lines;
use vstd::relations::sorted_by;

verus! {

/// Round trip: decoding the record written for an entry restores the entry,
/// for any task text that holds no line terminator.
pub proof fn lemma_round_trip(checked: bool, element: Seq<char>)
    requires
        !element.contains('\n'),
    ensures
        decoded_checked(encoded_record(checked, element).drop_last()) == checked,
        decoded_element(encoded_record(checked, element).drop_last()) == element,
{
    assert(encoded_record(checked, element).drop_last() =~= encoded_line(checked, element));
    lemma_decode_encode(checked, element);
}

/// Listing is read-only; on a store with no completed entry it is a pure
/// function of the stored lines, so two listings of one store are equal.
/// A completed entry's decoration follows a process-global colour switch,
/// which is why that case is left out here.
pub proof fn lemma_list_idempotent(lines: Seq<Seq<char>>, out1: Seq<char>, out2: Seq<char>)
    requires
        all_unchecked(lines),
        out1 == render_all(plain_shown(lines)),
        out2 == render_all(plain_shown(lines)),
    ensures
        out1 == out2,
{
}

/// Positional shift: after the entry at 1-based position `k` is removed,
/// every entry that stood at a later position `j` is addressable at `j - 1`,
/// in its rewritten form.
pub proof fn lemma_positional_shift(lines: Seq<Seq<char>>, k: int, j: int)
    requires
        1 <= k <= lines.len(),
        k < j <= lines.len(),
    ensures
        remove_lines(lines, k)[j - 2] == normalize_line(lines[j - 1]),
{
    normalize_all(lines).remove_ensures(k - 1);
}

/// Toggling the same 1-based position twice restores every decoded entry:
/// each flag and each text reads back as before.
pub proof fn lemma_toggle_twice(lines: Seq<Seq<char>>, n: int)
    requires
        1 <= n <= lines.len(),
    ensures
        decoded_all(done_lines(done_lines(lines, n), n)) == decoded_all(lines),
{
    let once = done_lines(lines, n);
    let twice = done_lines(once, n);
    assert forall|i: int| 0 <= i < lines.len() implies decoded_all(twice)[i] == decoded_all(
        lines,
    )[i] by {
        lemma_decode_encode(decoded_checked(lines[i]), decoded_element(lines[i]));
        lemma_decode_encode(!decoded_checked(lines[i]), decoded_element(lines[i]));
        lemma_decode_encode(decoded_checked(once[i]), decoded_element(once[i]));
        lemma_decode_encode(!decoded_checked(once[i]), decoded_element(once[i]));
    }
    assert(decoded_all(twice) =~~= decoded_all(lines));
}

/// Raw filter exhaustiveness: the completed and the open lines together are
/// exactly the stored lines, each with its multiplicity, and none is in both
/// piles; each filter keeps the store's order.
pub proof fn lemma_raw_partition(lines: Seq<Seq<char>>)
    ensures
        checked_lines(lines).len() + unchecked_lines(lines).len() == lines.len(),
        checked_lines(lines).to_multiset().add(unchecked_lines(lines).to_multiset())
            == lines.to_multiset(),
    decreases lines.len(),
{
    broadcast use vstd::seq_lib::group_to_multiset_ensures;
    broadcast use vstd::multiset::group_multiset_axioms;

    reveal(Seq::filter);
    if lines.len() == 0 {
        assert(checked_lines(lines).to_multiset().add(unchecked_lines(lines).to_multiset())
            =~= lines.to_multiset());
    } else {
        let l = lines.drop_last();
        let x = lines.last();
        lemma_raw_partition(l);
        assert(lines =~~= l.push(x));
        assert(lines.to_multiset() =~= l.to_multiset().insert(x));
        if decoded_checked(x) {
            assert(checked_lines(lines) == checked_lines(l).push(x));
            assert(unchecked_lines(lines) == unchecked_lines(l));
            assert(checked_lines(lines).to_multiset() =~= checked_lines(l).to_multiset().insert(
                x,
            ));
            assert(checked_lines(lines).to_multiset().add(unchecked_lines(lines).to_multiset())
                =~= lines.to_multiset());
        } else {
            assert(unchecked_lines(lines) == unchecked_lines(l).push(x));
            assert(checked_lines(lines) == checked_lines(l));
            assert(unchecked_lines(lines).to_multiset() =~= unchecked_lines(
                l,
            ).to_multiset().insert(x));
            assert(checked_lines(lines).to_multiset().add(unchecked_lines(lines).to_multiset())
                =~= lines.to_multiset());
        }
    }
}

/// What the sort operation prints is a permutation of the decoded store, in
/// the composite order: open entries first, texts lexicographic within each
/// flag. Entries with equal flag and text re-encode identically, so the
/// printed order of ties is indistinguishable from the store's; the store
/// itself is never written by a sort.
pub proof fn lemma_sort_properties(lines: Seq<Seq<char>>)
    ensures
        sorted_entries(lines).to_multiset() == decoded_all(lines).to_multiset(),
        sorted_by(sorted_entries(lines), entry_le()),
        sorted_entries(lines).len() == decoded_all(lines).len(),
{
    broadcast use vstd::seq_lib::group_to_multiset_ensures;

    lemma_entry_le_total_ordering();
    decoded_all(lines).lemma_sort_by_ensures(entry_le());
    assert(sorted_entries(lines).to_multiset().len() == sorted_entries(lines).len());
    assert(decoded_all(lines).to_multiset().len() == decoded_all(lines).len());
}

} // verus!
