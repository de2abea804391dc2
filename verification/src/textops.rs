//! Text operations the task list is built on: lexicographic order on
//! character sequences, whitespace trimming, and splitting and joining on a
//! separator character.
use vstd::prelude::*;

verus! {

/// Lexicographic order on character sequences by scalar value; a proper
/// prefix comes before every sequence that extends it.
pub open spec fn lex_le(a: Seq<char>, b: Seq<char>) -> bool
    decreases a.len(),
{
    if a.len() == 0 {
        true
    } else if b.len() == 0 {
        false
    } else if a[0] == b[0] {
        lex_le(a.skip(1), b.skip(1))
    } else {
        a[0] < b[0]
    }
}

pub proof fn lemma_lex_le_reflexive(a: Seq<char>)
    ensures
        lex_le(a, a),
    decreases a.len(),
{
    if a.len() > 0 {
        lemma_lex_le_reflexive(a.skip(1));
    }
}

pub proof fn lemma_lex_le_antisymmetric(a: Seq<char>, b: Seq<char>)
    requires
        lex_le(a, b),
        lex_le(b, a),
    ensures
        a == b,
    decreases a.len(),
{
    if a.len() == 0 {
        assert(b.len() == 0);
        assert(a =~= b);
    } else {
        assert(b.len() > 0);
        assert(a[0] == b[0]);
        lemma_lex_le_antisymmetric(a.skip(1), b.skip(1));
        assert forall|i: int| 0 <= i < a.len() implies a[i] == b[i] by {
            if i > 0 {
                assert(a[i] == a.skip(1)[i - 1]);
                assert(b[i] == b.skip(1)[i - 1]);
            }
        }
        assert(a =~= b);
    }
}

pub proof fn lemma_lex_le_transitive(a: Seq<char>, b: Seq<char>, c: Seq<char>)
    requires
        lex_le(a, b),
        lex_le(b, c),
    ensures
        lex_le(a, c),
    decreases a.len(),
{
    if a.len() > 0 && b.len() > 0 && c.len() > 0 {
        if a[0] == b[0] && b[0] == c[0] {
            lemma_lex_le_transitive(a.skip(1), b.skip(1), c.skip(1));
        }
    }
}

pub proof fn lemma_lex_le_connected(a: Seq<char>, b: Seq<char>)
    ensures
        lex_le(a, b) || lex_le(b, a),
    decreases a.len(),
{
    if a.len() > 0 && b.len() > 0 {
        if a[0] == b[0] {
            lemma_lex_le_connected(a.skip(1), b.skip(1));
        }
    }
}

/// Dropping an equal prefix of both sequences does not change their order.
proof fn lemma_lex_le_skip(a: Seq<char>, b: Seq<char>, i: int)
    requires
        0 <= i <= a.len(),
        i <= b.len(),
        forall|k: int| 0 <= k < i ==> a[k] == b[k],
    ensures
        lex_le(a, b) == lex_le(a.skip(i), b.skip(i)),
    decreases i,
{
    if i == 0 {
        assert(a.skip(0) =~= a);
        assert(b.skip(0) =~= b);
    } else {
        assert(a[0] == b[0]);
        assert(a.skip(1).skip(i - 1) =~= a.skip(i));
        assert(b.skip(1).skip(i - 1) =~= b.skip(i));
        lemma_lex_le_skip(a.skip(1), b.skip(1), i - 1);
    }
}

/// Decides the lexicographic order of two texts.
#[verifier::loop_isolation(false)]
pub fn lex_le_exec(a: &str, b: &str) -> (r: bool)
    ensures
        r == lex_le(a@, b@),
{
    let alen = a.unicode_len();
    let blen = b.unicode_len();
    let mut i: usize = 0;
    loop
        invariant
            0 <= i <= alen,
            i <= blen,
            forall|k: int| 0 <= k < i ==> a@[k] == b@[k],
        decreases alen - i,
    {
        proof {
            lemma_lex_le_skip(a@, b@, i as int);
        }
        if i == alen {
            return true;
        }
        if i == blen {
            return false;
        }
        let ca = a.get_char(i);
        let cb = b.get_char(i);
        if ca != cb {
            return ca < cb;
        }
        i = i + 1;
    }
}

/// Exactly the characters that count as whitespace when an argument is
/// trimmed.
pub open spec fn is_space(c: char) -> bool {
    c == ' ' || c == '\t' || c == '\n' || c == '\r' || c == '\u{b}' || c == '\u{c}' || c
        == '\u{85}' || c == '\u{a0}' || c == '\u{1680}' || c == '\u{2000}' || c == '\u{2001}' || c
        == '\u{2002}' || c == '\u{2003}' || c == '\u{2004}' || c == '\u{2005}' || c == '\u{2006}'
        || c == '\u{2007}' || c == '\u{2008}' || c == '\u{2009}' || c == '\u{200a}' || c
        == '\u{2028}' || c == '\u{2029}' || c == '\u{202f}' || c == '\u{205f}' || c == '\u{3000}'
}

fn is_space_exec(c: char) -> (r: bool)
    ensures
        r == is_space(c),
{
    match c {
        ' ' | '\t' | '\n' | '\r' | '\u{b}' | '\u{c}' | '\u{85}' | '\u{a0}' | '\u{1680}'
            | '\u{2000}' | '\u{2001}' | '\u{2002}' | '\u{2003}' | '\u{2004}' | '\u{2005}'
            | '\u{2006}' | '\u{2007}' | '\u{2008}' | '\u{2009}' | '\u{200a}' | '\u{2028}'
            | '\u{2029}' | '\u{202f}' | '\u{205f}' | '\u{3000}' => true,
        _ => false,
    }
}

pub open spec fn trim_start_spec(s: Seq<char>) -> Seq<char>
    decreases s.len(),
{
    if s.len() > 0 && is_space(s[0]) {
        trim_start_spec(s.skip(1))
    } else {
        s
    }
}

pub open spec fn trim_end_spec(s: Seq<char>) -> Seq<char>
    decreases s.len(),
{
    if s.len() > 0 && is_space(s.last()) {
        trim_end_spec(s.drop_last())
    } else {
        s
    }
}

/// A text with its leading and trailing whitespace removed.
pub open spec fn trim_spec(s: Seq<char>) -> Seq<char> {
    trim_end_spec(trim_start_spec(s))
}

proof fn lemma_trim_start_at(s: Seq<char>, k: int)
    requires
        0 <= k <= s.len(),
        forall|j: int| 0 <= j < k ==> is_space(s[j]),
        k == s.len() || !is_space(s[k]),
    ensures
        trim_start_spec(s) == s.skip(k),
    decreases k,
{
    if k == 0 {
        assert(s.skip(0) =~= s);
    } else {
        assert(is_space(s[0]));
        assert(s.skip(1).skip(k - 1) =~= s.skip(k));
        lemma_trim_start_at(s.skip(1), k - 1);
    }
}

proof fn lemma_trim_end_at(s: Seq<char>, m: int)
    requires
        0 <= m <= s.len(),
        forall|j: int| m <= j < s.len() ==> is_space(s[j]),
        m == 0 || !is_space(s[m - 1]),
    ensures
        trim_end_spec(s) == s.take(m),
    decreases s.len() - m,
{
    if m == s.len() {
        assert(s.take(m) =~= s);
    } else {
        assert(is_space(s.last()));
        assert(s.drop_last().take(m) =~= s.take(m));
        lemma_trim_end_at(s.drop_last(), m);
    }
}

/// Removes leading and trailing whitespace from a text.
#[verifier::loop_isolation(false)]
pub fn trim_exec(s: &str) -> (r: String)
    ensures
        r@ == trim_spec(s@),
{
    let len = s.unicode_len();
    let mut st: usize = 0;
    while st < len && is_space_exec(s.get_char(st))
        invariant
            0 <= st <= len,
            forall|j: int| 0 <= j < st ==> is_space(s@[j]),
        decreases len - st,
    {
        st = st + 1;
    }
    proof {
        lemma_trim_start_at(s@, st as int);
    }
    let mut en: usize = len;
    while en > st && is_space_exec(s.get_char(en - 1))
        invariant
            st <= en <= len,
            forall|j: int| en <= j < len ==> is_space(s@[j]),
        decreases en,
    {
        en = en - 1;
    }
    let r = s.substring_char(st, en);
    proof {
        let t = s@.skip(st as int);
        assert(forall|j: int| en - st <= j < t.len() ==> is_space(#[trigger] t[j]));
        lemma_trim_end_at(t, en - st);
        assert(t.take(en - st) =~= s@.subrange(st as int, en as int));
    }
    String::from_str(r)
}

/// The views of a sequence of owned strings.
pub open spec fn views(ss: Seq<String>) -> Seq<Seq<char>> {
    ss.map_values(|t: String| t@)
}

/// Splits a text at every occurrence of the separator; `n` separators yield
/// `n + 1` segments, so the empty text yields one empty segment.
pub open spec fn split_sep(s: Seq<char>, sep: char) -> Seq<Seq<char>>
    decreases s.len(),
{
    if s.len() == 0 {
        seq![s]
    } else if s[0] == sep {
        seq![Seq::<char>::empty()] + split_sep(s.skip(1), sep)
    } else {
        let r = split_sep(s.skip(1), sep);
        seq![seq![s[0]] + r[0]] + r.skip(1)
    }
}

pub proof fn lemma_split_sep_pos(s: Seq<char>, sep: char)
    ensures
        split_sep(s, sep).len() >= 1,
{
}

/// Splits a text at every occurrence of one separator character.
#[verifier::loop_isolation(false)]
pub fn split_char(s: &str, sep: char) -> (r: Vec<String>)
    ensures
        views(r@) == split_sep(s@, sep),
{
    let len = s.unicode_len();
    let mut out: Vec<String> = Vec::new();
    let mut cur: String = String::new();
    let mut j: usize = 0;
    proof {
        lemma_split_sep_pos(s@, sep);
        assert(s@.skip(0) =~= s@);
        assert(cur@ + split_sep(s@, sep)[0] =~= split_sep(s@, sep)[0]);
        assert(split_sep(s@, sep) =~~= views(out@) + seq![cur@ + split_sep(s@.skip(0), sep)[0]]
            + split_sep(s@.skip(0), sep).skip(1));
    }
    while j < len
        invariant
            0 <= j <= len,
            split_sep(s@, sep) == views(out@) + seq![cur@ + split_sep(s@.skip(j as int), sep)[0]]
                + split_sep(s@.skip(j as int), sep).skip(1),
        decreases len - j,
    {
        let ghost rem = s@.skip(j as int);
        let ghost rem2 = s@.skip(j as int + 1);
        let c = s.get_char(j);
        proof {
            lemma_split_sep_pos(rem2, sep);
            assert(rem[0] == c);
            assert(rem.skip(1) =~= rem2);
        }
        if c == sep {
            out.push(cur);
            cur = String::new();
            proof {
                assert(split_sep(rem, sep) =~~= seq![Seq::<char>::empty()] + split_sep(rem2, sep));
                assert(split_sep(rem2, sep) =~~= seq![split_sep(rem2, sep)[0]] + split_sep(
                    rem2,
                    sep,
                ).skip(1));
                assert(cur@ + split_sep(rem2, sep)[0] =~= split_sep(rem2, sep)[0]);
                assert(split_sep(s@, sep) =~~= views(out@) + seq![cur@ + split_sep(rem2, sep)[0]]
                    + split_sep(rem2, sep).skip(1));
            }
        } else {
            let piece = s.substring_char(j, j + 1);
            cur.append(piece);
            proof {
                assert(piece@ =~= seq![c]);
                assert(split_sep(rem, sep) =~~= seq![seq![c] + split_sep(rem2, sep)[0]] + split_sep(
                    rem2,
                    sep,
                ).skip(1));
                assert(split_sep(s@, sep) =~~= views(out@) + seq![cur@ + split_sep(rem2, sep)[0]]
                    + split_sep(rem2, sep).skip(1));
            }
        }
        j = j + 1;
    }
    proof {
        assert(s@.skip(len as int) =~= Seq::<char>::empty());
        assert(cur@ + split_sep(s@.skip(len as int), sep)[0] =~= cur@);
        assert(split_sep(s@, sep) =~~= views(out@).push(cur@));
    }
    out.push(cur);
    proof {
        assert(views(out@) =~~= split_sep(s@, sep));
    }
    out
}

/// Joins the segments with the separator between each adjacent pair.
pub open spec fn join_sep(ls: Seq<Seq<char>>, sep: Seq<char>) -> Seq<char>
    decreases ls.len(),
{
    if ls.len() == 0 {
        Seq::empty()
    } else if ls.len() == 1 {
        ls[0]
    } else {
        join_sep(ls.drop_last(), sep) + sep + ls.last()
    }
}

/// Joins owned strings with a separator between each adjacent pair.
#[verifier::loop_isolation(false)]
pub fn join_exec(items: &[String], sep: &str) -> (r: String)
    ensures
        r@ == join_sep(views(items@), sep@),
{
    let mut r = String::new();
    let n = items.len();
    let mut k: usize = 0;
    proof {
        assert(r@ =~= join_sep(views(items@).take(0), sep@));
    }
    while k < n
        invariant
            0 <= k <= n,
            r@ == join_sep(views(items@).take(k as int), sep@),
        decreases n - k,
    {
        let ghost vs = views(items@);
        if k > 0 {
            r.append(sep);
        }
        r.append(items[k].as_str());
        proof {
            assert(vs.take(k as int + 1).drop_last() =~= vs.take(k as int));
            assert(vs.take(k as int + 1).last() == vs[k as int]);
            if k == 0 {
                assert(r@ =~= join_sep(vs.take(1), sep@));
            } else {
                assert(r@ =~= join_sep(vs.take(k as int + 1), sep@));
            }
        }
        k = k + 1;
    }
    proof {
        assert(views(items@).take(n as int) =~= views(items@));
    }
    r
}

/// No segment of a split holds the separator it was split at.
pub proof fn lemma_split_sep_no_sep(s: Seq<char>, sep: char, j: int)
    requires
        0 <= j < split_sep(s, sep).len(),
    ensures
        !split_sep(s, sep)[j].contains(sep),
    decreases s.len(),
{
    if s.len() == 0 {
        assert(!(exists|k: int| 0 <= k < s.len() && s[k] == sep));
    } else if s[0] == sep {
        if j == 0 {
            let e = Seq::<char>::empty();
            assert(!(exists|k: int| 0 <= k < e.len() && e[k] == sep));
        } else {
            lemma_split_sep_no_sep(s.skip(1), sep, j - 1);
            assert(split_sep(s, sep)[j] == split_sep(s.skip(1), sep)[j - 1]);
        }
    } else {
        let r = split_sep(s.skip(1), sep);
        lemma_split_sep_pos(s.skip(1), sep);
        if j == 0 {
            lemma_split_sep_no_sep(s.skip(1), sep, 0);
            let seg = seq![s[0]] + r[0];
            assert forall|k: int| 0 <= k < seg.len() implies seg[k] != sep by {
                if k > 0 {
                    assert(seg[k] == r[0][k - 1]);
                    assert(!(exists|m: int| 0 <= m < r[0].len() && r[0][m] == sep));
                }
            }
            assert(!(exists|k: int| 0 <= k < seg.len() && seg[k] == sep));
            assert(split_sep(s, sep)[0] == seg);
        } else {
            lemma_split_sep_no_sep(s.skip(1), sep, j);
            assert(split_sep(s, sep)[j] == r.skip(1)[j - 1]);
            assert(r.skip(1)[j - 1] == r[j]);
        }
    }
}

/// No line of a stored text holds a line terminator.
pub proof fn lemma_lines_no_newline(s: Seq<char>, i: int)
    requires
        0 <= i < lines_spec(s).len(),
    ensures
        !lines_spec(s)[i].contains('\n'),
{
    let body = if s.last() == '\n' {
        s.drop_last()
    } else {
        s
    };
    let segs = split_sep(body, '\n');
    lemma_split_sep_no_sep(body, '\n', i);
    let seg = segs[i];
    let line = lines_spec(s)[i];
    assert(line == strip_cr(seg));
    assert forall|k: int| 0 <= k < line.len() implies line[k] != '\n' by {
        assert(line[k] == seg[k]);
        assert(!(exists|m: int| 0 <= m < seg.len() && seg[m] == '\n'));
    }
    assert(!(exists|k: int| 0 <= k < line.len() && line[k] == '\n'));
}

/// A segment with one trailing carriage return removed, as a line terminator
/// is stripped whole.
pub open spec fn strip_cr(t: Seq<char>) -> Seq<char> {
    if t.len() > 0 && t.last() == '\r' {
        t.drop_last()
    } else {
        t
    }
}

/// Every segment with its trailing carriage return stripped.
pub open spec fn strip_all(ls: Seq<Seq<char>>) -> Seq<Seq<char>> {
    ls.map_values(|t: Seq<char>| strip_cr(t))
}

/// The lines of a stored text: split at every line feed, one optional final
/// terminator not opening an extra empty line, and one trailing carriage
/// return stripped from each line.
pub open spec fn lines_spec(s: Seq<char>) -> Seq<Seq<char>> {
    if s.len() == 0 {
        Seq::empty()
    } else if s.last() == '\n' {
        strip_all(split_sep(s.drop_last(), '\n'))
    } else {
        strip_all(split_sep(s, '\n'))
    }
}

/// Splits a stored text into its lines.
#[verifier::loop_isolation(false)]
pub fn split_lines(s: &str) -> (r: Vec<String>)
    ensures
        views(r@) == lines_spec(s@),
{
    let len = s.unicode_len();
    if len == 0 {
        let r: Vec<String> = Vec::new();
        proof {
            assert(views(r@) =~~= lines_spec(s@));
        }
        return r;
    }
    let last = s.get_char(len - 1);
    let body: &str = if last == '\n' {
        s.substring_char(0, len - 1)
    } else {
        s
    };
    proof {
        if last == '\n' {
            assert(body@ =~= s@.drop_last());
        }
    }
    let segs = split_char(body, '\n');
    let ghost segviews = views(segs@);
    let mut out: Vec<String> = Vec::new();
    let n = segs.len();
    let mut k: usize = 0;
    while k < n
        invariant
            0 <= k <= n,
            n == segs@.len(),
            views(segs@) == segviews,
            views(out@) == strip_all(segviews).take(k as int),
        decreases n - k,
    {
        let t = &segs[k];
        proof {
            assert(segviews[k as int] == t@);
        }
        let tl = t.as_str().unicode_len();
        if tl > 0 && t.as_str().get_char(tl - 1) == '\r' {
            out.push(String::from_str(t.as_str().substring_char(0, tl - 1)));
            proof {
                assert(strip_cr(t@) =~= t@.subrange(0, tl - 1));
            }
        } else {
            out.push(t.clone());
            proof {
                assert(strip_cr(t@) =~= t@);
            }
        }
        proof {
            assert(strip_all(segviews)[k as int] == strip_cr(segviews[k as int]));
            assert(strip_all(segviews).take(k as int + 1) =~~= strip_all(segviews).take(
                k as int,
            ).push(strip_all(segviews)[k as int]));
            assert(views(out@) =~~= strip_all(segviews).take(k as int + 1));
        }
        k = k + 1;
    }
    proof {
        assert(strip_all(segviews).take(n as int) =~~= strip_all(segviews));
        assert(views(out@) =~~= lines_spec(s@));
    }
    out
}

} // verus!
