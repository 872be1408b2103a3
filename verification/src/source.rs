//! Finding lines in source text for error messages. Lines are what
//! `str::lines` yields: the text split after each `\n`, each line without
//! its `\n` or `\r\n` ending, and no empty line after a final ending.
//! Positions are byte offsets, each line counted with one byte for its
//! ending.
use vstd::prelude::*;
use vstd::string::StrSliceExecFns;
use crate::text::chars_of;

verus! {

/// The index of the first `\n` at or after `p`.
pub open spec fn newline_at_or_after(s: Seq<char>, p: int) -> Option<int>
    decreases s.len() - p,
{
    if p < 0 || p >= s.len() {
        None
    } else if s[p] == '\n' {
        Some(p)
    } else {
        newline_at_or_after(s, p + 1)
    }
}

/// The pieces of `s` from `p` on, each ending just after a `\n` except
/// possibly the last.
pub open spec fn pieces(s: Seq<char>, p: int) -> Seq<Seq<char>>
    decreases s.len() - p,
{
    if p < 0 || p >= s.len() {
        Seq::empty()
    } else {
        match newline_at_or_after(s, p) {
            Some(e) => if p <= e < s.len() {
                seq![s.subrange(p, e + 1)] + pieces(s, e + 1)
            } else {
                Seq::empty()
            },
            None => seq![s.subrange(p, s.len() as int)],
        }
    }
}

/// A piece without its `\n` or `\r\n` ending.
pub open spec fn strip_ending(l: Seq<char>) -> Seq<char> {
    if l.len() > 0 && l.last() == '\n' {
        let m = l.drop_last();
        if m.len() > 0 && m.last() == '\r' {
            m.drop_last()
        } else {
            m
        }
    } else {
        l
    }
}

/// The lines of `s`.
pub open spec fn lines_of(s: Seq<char>) -> Seq<Seq<char>> {
    pieces(s, 0).map_values(|l: Seq<char>| strip_ending(l))
}

/// How many bytes UTF-8 takes for `c`.
pub open spec fn utf8_width(c: char) -> nat {
    if (c as u32) < 0x80 {
        1
    } else if (c as u32) < 0x800 {
        2
    } else if (c as u32) < 0x10000 {
        3
    } else {
        4
    }
}

/// How many bytes UTF-8 takes for `s`.
pub open spec fn utf8_len(s: Seq<char>) -> nat
    decreases s.len(),
{
    if s.len() == 0 {
        0
    } else {
        utf8_len(s.drop_last()) + utf8_width(s.last())
    }
}

/// Where line `i` starts: the bytes of the lines before it, one more for
/// each line's ending.
pub open spec fn line_start(ls: Seq<Seq<char>>, i: int) -> int
    decreases i,
{
    if i <= 0 {
        0
    } else {
        line_start(ls, i - 1) + utf8_len(ls[i - 1]) + 1
    }
}

/// The first line from `i` on that ends (ending byte included) past
/// `index`.
pub open spec fn line_holding(ls: Seq<Seq<char>>, index: int, i: int) -> Option<int>
    decreases ls.len() - i,
{
    if i < 0 || i >= ls.len() {
        None
    } else if line_start(ls, i + 1) > index {
        Some(i)
    } else {
        line_holding(ls, index, i + 1)
    }
}

pub(crate) fn char_width(c: char) -> (r: usize)
    ensures
        r == utf8_width(c),
{
    let v = c as u32;
    if v < 0x80 {
        1
    } else if v < 0x800 {
        2
    } else if v < 0x10000 {
        3
    } else {
        4
    }
}

pub proof fn lemma_utf8_len_push(s: Seq<char>, c: char)
    ensures
        utf8_len(s.push(c)) == utf8_len(s) + utf8_width(c),
{
    assert(s.push(c).drop_last() =~= s);
}

pub proof fn lemma_utf8_len_bound(s: Seq<char>)
    ensures
        utf8_len(s) <= 4 * s.len(),
    decreases s.len(),
{
    if s.len() > 0 {
        lemma_utf8_len_bound(s.drop_last());
    }
}

/// The line of `cs` that starts at `p` (not past the end): its end
/// without the line ending, and where the next line starts.
fn line_from(cs: &Vec<char>, p: usize) -> (r: (usize, usize))
    requires
        p < cs@.len(),
    ensures
        p <= r.0 <= r.1 <= cs@.len(),
        r.1 > p,
        pieces(cs@, p as int) == seq![cs@.subrange(p as int, r.1 as int)] + pieces(cs@, r.1 as int),
        strip_ending(cs@.subrange(p as int, r.1 as int)) == cs@.subrange(p as int, r.0 as int),
{
    let n = cs.len();
    let mut e = p;
    while e < n && cs[e] != '\n'
        invariant
            p <= e <= n,
            n == cs@.len(),
            newline_at_or_after(cs@, p as int) == newline_at_or_after(cs@, e as int),
            forall|k: int| p <= k < e ==> cs@[k] != '\n',
        decreases n - e,
    {
        e = e + 1;
    }
    if e < n {
        let next = e + 1;
        let mut end = e;
        if e > p && cs[e - 1] == '\r' {
            end = e - 1;
        }
        proof {
            let l = cs@.subrange(p as int, next as int);
            assert(l.drop_last() =~= cs@.subrange(p as int, e as int));
            if e > p && cs@[e - 1] == '\r' {
                assert(l.drop_last().drop_last() =~= cs@.subrange(p as int, end as int));
            }
        }
        (end, next)
    } else {
        proof {
            assert(pieces(cs@, n as int) == Seq::<Seq<char>>::empty());
            assert(seq![cs@.subrange(p as int, n as int)] + Seq::<Seq<char>>::empty() =~= seq![cs@.subrange(p as int, n as int)]);
            let l = cs@.subrange(p as int, n as int);
            assert(l.last() == cs@[n - 1]);
        }
        (n, n)
    }
}

proof fn lemma_pieces_from(s: Seq<char>, p: int)
    requires
        0 <= p <= s.len(),
    ensures
        forall|k: int| 0 <= k < pieces(s, p).len() ==> (#[trigger] pieces(s, p)[k]).len() > 0,
    decreases s.len() - p,
{
    if p < s.len() {
        match newline_at_or_after(s, p) {
            Some(e) => {
                lemma_newline_bounds(s, p);
                lemma_pieces_from(s, e + 1);
                assert forall|k: int| 0 <= k < pieces(s, p).len() implies (#[trigger] pieces(s, p)[k]).len() > 0 by {
                    if k > 0 {
                        assert(pieces(s, p)[k] == pieces(s, e + 1)[k - 1]);
                    }
                }
            },
            None => {},
        }
    }
}

pub proof fn lemma_newline_bounds(s: Seq<char>, p: int)
    ensures
        newline_at_or_after(s, p) matches Some(e) ==> 0 <= p <= e < s.len() && s[e] == '\n',
    decreases s.len() - p,
{
    if 0 <= p < s.len() && s[p] != '\n' {
        lemma_newline_bounds(s, p + 1);
    }
}

/// The bytes of `cs[a..b]`.
fn bytes_between(cs: &Vec<char>, a: usize, b: usize) -> (r: usize)
    requires
        a <= b <= cs@.len(),
        4 * cs@.len() < usize::MAX,
    ensures
        r == utf8_len(cs@.subrange(a as int, b as int)),
{
    let mut total: usize = 0;
    let mut k = a;
    while k < b
        invariant
            a <= k <= b <= cs@.len(),
            4 * cs@.len() < usize::MAX,
            total == utf8_len(cs@.subrange(a as int, k as int)),
        decreases b - k,
    {
        proof {
            lemma_utf8_len_push(cs@.subrange(a as int, k as int), cs@[k as int]);
            assert(cs@.subrange(a as int, k + 1) =~= cs@.subrange(a as int, k as int).push(cs@[k as int]));
            lemma_utf8_len_bound(cs@.subrange(a as int, k + 1));
        }
        total = total + char_width(cs[k]);
        k = k + 1;
    }
    total
}

/// The line that holds byte `index` of `value`, with its number; past the
/// last line, an empty line numbered with the count of lines.
pub fn line_at_index(value: &str, index: usize) -> (r: Option<(&str, usize)>)
    requires
        8 * value@.len() + 8 < usize::MAX,
    ensures
        r matches Some((line, i)) && match line_holding(lines_of(value@), index as int, 0) {
            Some(k) => i == k && line@ == lines_of(value@)[k],
            None => i == lines_of(value@).len() && line@.len() == 0,
        },
{
    let cs = chars_of(value);
    let n = cs.len();
    let ghost ls = lines_of(value@);
    let mut p: usize = 0;
    let mut i: usize = 0;
    let mut index_counter: usize = 0;
    proof {
        lemma_pieces_from(cs@, 0);
    }
    while p < n
        invariant
            cs@ == value@,
            n == cs@.len(),
            8 * n + 8 < usize::MAX,
            p <= n,
            ls == lines_of(value@),
            pieces(cs@, 0).len() == i + pieces(cs@, p as int).len(),
            forall|k: int| 0 <= k < pieces(cs@, p as int).len() ==> ls[i + k] == strip_ending(#[trigger] pieces(cs@, p as int)[k]),
            index_counter == line_start(ls, i as int),
            index_counter <= 4 * p + p,
            i <= p,
            line_holding(ls, index as int, 0) == line_holding(ls, index as int, i as int),
        decreases n - p,
    {
        let (end, next) = line_from(&cs, p);
        proof {
            assert(ls[i as int] == strip_ending(pieces(cs@, p as int)[0]));
            assert(pieces(cs@, p as int)[0] == cs@.subrange(p as int, next as int));
            lemma_utf8_len_bound(cs@.subrange(p as int, end as int));
        }
        let width = bytes_between(&cs, p, end);
        index_counter = index_counter + width + 1;
        if index_counter > index {
            let line = value.substring_char(p, end);
            return Some((line, i));
        }
        proof {
            assert forall|k: int| 0 <= k < pieces(cs@, next as int).len()
                implies ls[i + 1 + k] == strip_ending(#[trigger] pieces(cs@, next as int)[k]) by {
                assert(pieces(cs@, p as int)[k + 1] == pieces(cs@, next as int)[k]);
            }
        }
        i = i + 1;
        p = next;
    }
    proof {
        assert(pieces(cs@, n as int).len() == 0);
        assert(i == ls.len());
    }
    let empty = value.substring_char(n, n);
    Some((empty, i))
}

/// Where line `line_number` of `value` starts, in bytes; past the last
/// line, one past the end of the text as `line_start` counts it.
pub fn start_of_line(value: &str, line_number: usize) -> (r: usize)
    requires
        8 * value@.len() + 8 < usize::MAX,
    ensures
        r == line_start(lines_of(value@), if line_number <= lines_of(value@).len() { line_number as int } else { lines_of(value@).len() as int }),
{
    let cs = chars_of(value);
    let n = cs.len();
    let ghost ls = lines_of(value@);
    let mut p: usize = 0;
    let mut i: usize = 0;
    let mut counter: usize = 0;
    while p < n && i != line_number
        invariant
            cs@ == value@,
            n == cs@.len(),
            8 * n + 8 < usize::MAX,
            p <= n,
            ls == lines_of(value@),
            pieces(cs@, 0).len() == i + pieces(cs@, p as int).len(),
            forall|k: int| 0 <= k < pieces(cs@, p as int).len() ==> ls[i + k] == strip_ending(#[trigger] pieces(cs@, p as int)[k]),
            counter == line_start(ls, i as int),
            counter <= 4 * p + p,
            i <= p,
            i <= line_number,
        decreases n - p,
    {
        let (end, next) = line_from(&cs, p);
        proof {
            assert(ls[i as int] == strip_ending(pieces(cs@, p as int)[0]));
            assert(pieces(cs@, p as int)[0] == cs@.subrange(p as int, next as int));
            lemma_utf8_len_bound(cs@.subrange(p as int, end as int));
            assert forall|k: int| 0 <= k < pieces(cs@, next as int).len()
                implies ls[i + 1 + k] == strip_ending(#[trigger] pieces(cs@, next as int)[k]) by {
                assert(pieces(cs@, p as int)[k + 1] == pieces(cs@, next as int)[k]);
            }
        }
        let width = bytes_between(&cs, p, end);
        counter = counter + width + 1;
        i = i + 1;
        p = next;
    }
    proof {
        if p >= n {
            assert(pieces(cs@, p as int).len() == 0);
        }
    }
    counter
}

/// The lines of `value`, each as the characters it holds.
pub fn lines_vec(value: &str) -> (r: Vec<Vec<char>>)
    requires
        8 * value@.len() + 8 < usize::MAX,
    ensures
        r@.len() == lines_of(value@).len(),
        forall|k: int| 0 <= k < r@.len() ==> (#[trigger] r@[k])@ == lines_of(value@)[k],
{
    let cs = chars_of(value);
    let n = cs.len();
    let ghost ls = lines_of(value@);
    let mut out: Vec<Vec<char>> = Vec::new();
    let mut p: usize = 0;
    proof {
        lemma_pieces_from(cs@, 0);
    }
    while p < n
        invariant
            cs@ == value@,
            n == cs@.len(),
            p <= n,
            ls == lines_of(value@),
            pieces(cs@, 0).len() == out@.len() + pieces(cs@, p as int).len(),
            forall|k: int| 0 <= k < pieces(cs@, p as int).len() ==> ls[out@.len() + k] == strip_ending(#[trigger] pieces(cs@, p as int)[k]),
            forall|k: int| 0 <= k < out@.len() ==> (#[trigger] out@[k])@ == ls[k],
        decreases n - p,
    {
        let (end, next) = line_from(&cs, p);
        proof {
            assert(ls[out@.len() as int] == strip_ending(pieces(cs@, p as int)[0]));
            assert(pieces(cs@, p as int)[0] == cs@.subrange(p as int, next as int));
        }
        let mut line: Vec<char> = Vec::new();
        let mut k = p;
        while k < end
            invariant
                p <= k <= end <= n,
                n == cs@.len(),
                line@ == cs@.subrange(p as int, k as int),
            decreases end - k,
        {
            line.push(cs[k]);
            k = k + 1;
            assert(line@ =~= cs@.subrange(p as int, k as int));
        }
        let ghost before = out@;
        out.push(line);
        proof {
            assert forall|k: int| 0 <= k < pieces(cs@, next as int).len()
                implies ls[out@.len() + k] == strip_ending(#[trigger] pieces(cs@, next as int)[k]) by {
                assert(pieces(cs@, p as int)[k + 1] == pieces(cs@, next as int)[k]);
            }
            assert forall|k: int| 0 <= k < out@.len() implies (#[trigger] out@[k])@ == ls[k] by {
                if k < before.len() {
                    assert(out@[k] == before[k]);
                }
            }
        }
        p = next;
    }
    proof {
        assert(pieces(cs@, n as int).len() == 0);
    }
    out
}

proof fn lemma_line_holding(ls: Seq<Seq<char>>, index: int, i: int)
    requires
        0 <= i,
        0 <= index,
        line_start(ls, i) <= index,
    ensures
        line_holding(ls, index, i) matches Some(k) ==> i <= k < ls.len() && line_start(ls, k) <= index
            < line_start(ls, k + 1),
    decreases ls.len() - i,
{
    if i < ls.len() && line_start(ls, i + 1) <= index {
        lemma_line_holding(ls, index, i + 1);
    }
}

/// `line_at_index` and `start_of_line` agree: the line that holds byte
/// `index` starts at or before it, and `index` lies within the line's
/// bytes or on its ending.
pub proof fn law_line_holds_index(ls: Seq<Seq<char>>, index: int)
    requires
        0 <= index,
    ensures
        line_holding(ls, index, 0) matches Some(k) ==> 0 <= k < ls.len() && line_start(ls, k) <= index
            <= line_start(ls, k) + utf8_len(ls[k]),
{
    lemma_line_holding(ls, index, 0);
}

proof fn lemma_utf8_len_concat(a: Seq<char>, b: Seq<char>)
    ensures
        utf8_len(a + b) == utf8_len(a) + utf8_len(b),
    decreases b.len(),
{
    if b.len() > 0 {
        lemma_utf8_len_concat(a, b.drop_last());
        assert((a + b).drop_last() =~= a + b.drop_last());
        assert((a + b).last() == b.last());
    } else {
        assert(a + b =~= a);
    }
}

/// The bytes the lines of `ps` count, each with one byte for its ending.
spec fn counted(ps: Seq<Seq<char>>) -> int
    decreases ps.len(),
{
    if ps.len() == 0 {
        0
    } else {
        utf8_len(strip_ending(ps[0])) + 1 + counted(ps.drop_first())
    }
}

proof fn lemma_counted_push(ps: Seq<Seq<char>>)
    requires
        ps.len() > 0,
    ensures
        counted(ps) == counted(ps.drop_last()) + utf8_len(strip_ending(ps.last())) + 1,
    decreases ps.len(),
{
    if ps.len() > 1 {
        lemma_counted_push(ps.drop_first());
        assert(ps.drop_first().drop_last() =~= ps.drop_last().drop_first());
        assert(ps.drop_last()[0] == ps[0]);
    } else {
        assert(ps.drop_first() =~= Seq::<Seq<char>>::empty());
        assert(ps.drop_last() =~= Seq::<Seq<char>>::empty());
    }
}

proof fn lemma_line_start_prefix(a: Seq<Seq<char>>, b: Seq<Seq<char>>, k: int)
    requires
        0 <= k <= a.len(),
        k <= b.len(),
        forall|j: int| 0 <= j < k ==> a[j] == b[j],
    ensures
        line_start(a, k) == line_start(b, k),
    decreases k,
{
    if k > 0 {
        lemma_line_start_prefix(a, b, k - 1);
    }
}

proof fn lemma_counted_lines(ps: Seq<Seq<char>>)
    ensures
        line_start(ps.map_values(|l: Seq<char>| strip_ending(l)), ps.len() as int) == counted(ps),
    decreases ps.len(),
{
    if ps.len() > 0 {
        let p0 = ps.drop_last();
        lemma_counted_lines(p0);
        lemma_counted_push(ps);
        let ls = ps.map_values(|l: Seq<char>| strip_ending(l));
        let l0 = p0.map_values(|l: Seq<char>| strip_ending(l));
        lemma_line_start_prefix(ls, l0, p0.len() as int);
        assert(ls[ps.len() - 1] == strip_ending(ps.last()));
    }
}

proof fn lemma_pieces_counted(s: Seq<char>, p: int)
    requires
        0 <= p <= s.len(),
        forall|k: int| 0 <= k < s.len() ==> s[k] != '\r',
    ensures
        counted(pieces(s, p)) >= utf8_len(s.subrange(p, s.len() as int)),
    decreases s.len() - p,
{
    if p >= s.len() {
        assert(s.subrange(p, s.len() as int) =~= Seq::<char>::empty());
        assert(pieces(s, p) =~= Seq::<Seq<char>>::empty());
    } else {
        lemma_newline_bounds(s, p);
        match newline_at_or_after(s, p) {
            Some(e) => {
                let l = s.subrange(p, e + 1);
                lemma_pieces_counted(s, e + 1);
                assert(pieces(s, p).drop_first() =~= pieces(s, e + 1));
                assert(pieces(s, p)[0] == l);
                assert(l.drop_last() =~= s.subrange(p, e));
                lemma_utf8_len_push(s.subrange(p, e), '\n');
                assert(s.subrange(p, e).push('\n') =~= l);
                if l.drop_last().len() > 0 {
                    assert(l.drop_last().last() == s[e - 1]);
                }
                if l.drop_last().len() > 0 {
                    assert(s[e - 1] != '\r');
                }
                assert(l.len() > 0 && l.last() == '\n');
                assert(strip_ending(l) == l.drop_last());
                assert(utf8_width('\n') == 1);
                assert(utf8_len(strip_ending(l)) + 1 == utf8_len(l));
                assert(counted(pieces(s, p)) == utf8_len(strip_ending(l)) + 1 + counted(pieces(s, e + 1)));
                lemma_utf8_len_concat(l, s.subrange(e + 1, s.len() as int));
                assert(l + s.subrange(e + 1, s.len() as int) =~= s.subrange(p, s.len() as int));
            },
            None => {
                let l = s.subrange(p, s.len() as int);
                assert(pieces(s, p) =~= seq![l]);
                assert(pieces(s, p).drop_first() =~= Seq::<Seq<char>>::empty());
                assert(counted(pieces(s, p)) == utf8_len(strip_ending(l)) + 1 + counted(Seq::<Seq<char>>::empty()));
                if l.len() > 0 && l.last() == '\n' {
                    assert(l.drop_last().push('\n') =~= l);
                    lemma_utf8_len_push(l.drop_last(), '\n');
                    assert(utf8_width('\n') == 1);
                    if l.drop_last().len() > 0 {
                        assert(l.drop_last().last() == s[s.len() - 2]);
                        assert(s[s.len() - 2] != '\r');
                    }
                    assert(strip_ending(l) == l.drop_last());
                } else {
                    assert(strip_ending(l) == l);
                }
            },
        }
    }
}

proof fn lemma_holding_found(ls: Seq<Seq<char>>, index: int, i: int)
    requires
        0 <= i <= ls.len(),
        line_start(ls, i) <= index < line_start(ls, ls.len() as int),
    ensures
        line_holding(ls, index, i) is Some,
    decreases ls.len() - i,
{
    if i < ls.len() && line_start(ls, i + 1) <= index {
        lemma_holding_found(ls, index, i + 1);
    }
}

/// Every byte of a text without carriage returns lies in one of its
/// lines (or on that line's ending): `line_at_index` finds a line for
/// every index below the text's length in bytes.
pub proof fn law_every_index_has_a_line(s: Seq<char>, index: int)
    requires
        forall|k: int| 0 <= k < s.len() ==> s[k] != '\r',
        0 <= index < utf8_len(s),
    ensures
        line_holding(lines_of(s), index, 0) is Some,
{
    lemma_pieces_counted(s, 0);
    assert(s.subrange(0, s.len() as int) =~= s);
    lemma_counted_lines(pieces(s, 0));
    let ls = lines_of(s);
    assert(ls.len() == pieces(s, 0).len());
    lemma_holding_found(ls, index, 0);
}

} // verus!
