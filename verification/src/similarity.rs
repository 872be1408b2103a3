//! Suggestions for misspelt names: the Damerau–Levenshtein distance
//! (insertions, deletions, substitutions and transpositions of adjacent
//! characters, with edits allowed between transposed characters) and the
//! nearest name below a distance threshold.
use vstd::prelude::*;
use crate::text::chars_of;

verus! {

/// The least of four numbers.
pub open spec fn spec_min4(a: int, b: int, c: int, d: int) -> int {
    let ab = if a <= b { a } else { b };
    let abc = if ab <= c { ab } else { c };
    if abc <= d { abc } else { d }
}

pub fn min4(a: usize, b: usize, c: usize, d: usize) -> (r: usize)
    ensures
        r == spec_min4(a as int, b as int, c as int, d as int),
{
    let ab = if a <= b { a } else { b };
    let abc = if ab <= c { ab } else { c };
    if abc <= d { abc } else { d }
}

/// The last row `k` in `1..i` whose character of `s` (`s[k - 1]`) is `c`,
/// or 0.
pub open spec fn last_row(s: Seq<char>, i: int, c: char) -> int
    decreases i,
{
    if i <= 0 {
        0
    } else if s[i - 1] == c {
        i
    } else {
        last_row(s, i - 1, c)
    }
}

/// The last column `l` in `1..j` whose character of `t` (`t[l - 1]`) is
/// `c`, or 0.
pub open spec fn last_col(t: Seq<char>, j: int, c: char) -> int
    decreases j,
{
    if j <= 0 {
        0
    } else if t[j - 1] == c {
        j
    } else {
        last_col(t, j - 1, c)
    }
}

pub proof fn lemma_last_bounds(s: Seq<char>, i: int, c: char)
    ensures
        0 <= last_row(s, i, c) <= if i < 0 { 0 } else { i },
        last_row(s, i, c) > 0 ==> s[last_row(s, i, c) - 1] == c,
    decreases i,
{
    if i > 0 && s[i - 1] != c {
        lemma_last_bounds(s, i - 1, c);
    }
}

pub proof fn lemma_last_col_bounds(t: Seq<char>, j: int, c: char)
    ensures
        0 <= last_col(t, j, c) <= if j < 0 { 0 } else { j },
    decreases j,
{
    if j > 0 && t[j - 1] != c {
        lemma_last_col_bounds(t, j - 1, c);
    }
}

/// The distance table of the Lowrance–Wagner recurrence, with the row and
/// column of `s` and `t` shifted by one so that a border of "infinite"
/// cost (`|s| + |t|`) sits at row and column 0: cell `(a, b)` is the
/// distance between the first `a - 1` characters of `s` and the first
/// `b - 1` characters of `t`.
pub open spec fn dl_cell(s: Seq<char>, t: Seq<char>, a: int, b: int) -> int
    decreases a, b,
{
    if a <= 0 || b <= 0 {
        (s.len() + t.len()) as int
    } else if a == 1 {
        b - 1
    } else if b == 1 {
        a - 1
    } else {
        let i = a - 1;
        let j = b - 1;
        let cost: int = if s[i - 1] == t[j - 1] { 0 } else { 1 };
        let k = last_row(s, i - 1, t[j - 1]);
        let l = last_col(t, j - 1, s[i - 1]);
        proof {
            lemma_last_bounds(s, i - 1, t[j - 1]);
            lemma_last_col_bounds(t, j - 1, s[i - 1]);
        }
        spec_min4(
            dl_cell(s, t, a, b - 1) + 1,
            dl_cell(s, t, a - 1, b) + 1,
            dl_cell(s, t, a - 1, b - 1) + cost,
            dl_cell(s, t, k, l) + (i - k - 1) + 1 + (j - l - 1),
        )
    }
}

/// The Damerau–Levenshtein distance between `s` and `t`.
pub open spec fn dl_distance(s: Seq<char>, t: Seq<char>) -> int {
    dl_cell(s, t, s.len() + 1 as int, t.len() + 1 as int)
}

proof fn lemma_dl_bounds(s: Seq<char>, t: Seq<char>, a: int, b: int)
    requires
        a >= 0,
        b >= 0,
    ensures
        0 <= dl_cell(s, t, a, b) <= s.len() + t.len() || (a >= 1 && b >= 1 && 0 <= dl_cell(s, t, a, b) <= a + b - 2),
        a >= 1 && b >= 1 ==> 0 <= dl_cell(s, t, a, b) <= a + b - 2,
        a == 0 || b == 0 ==> dl_cell(s, t, a, b) == s.len() + t.len(),
    decreases a, b,
{
    if a >= 2 && b >= 2 {
        let i = a - 1;
        let j = b - 1;
        let k = last_row(s, i - 1, t[j - 1]);
        let l = last_col(t, j - 1, s[i - 1]);
        lemma_last_bounds(s, i - 1, t[j - 1]);
        lemma_last_col_bounds(t, j - 1, s[i - 1]);
        lemma_dl_bounds(s, t, a, b - 1);
        lemma_dl_bounds(s, t, a - 1, b);
        lemma_dl_bounds(s, t, a - 1, b - 1);
        lemma_dl_bounds(s, t, k, l);
    }
}

/// The last row in `1..i` whose character of `s` is `c`, or 0.
fn find_last_row(s: &Vec<char>, i: usize, c: char) -> (r: usize)
    requires
        i <= s@.len(),
    ensures
        r == last_row(s@, i as int, c),
{
    let mut k = i;
    while k > 0
        invariant
            k <= i <= s@.len(),
            last_row(s@, i as int, c) == last_row(s@, k as int, c),
        decreases k,
    {
        if s[k - 1] == c {
            return k;
        }
        k = k - 1;
    }
    0
}

/// The Damerau–Levenshtein distance between two strings, counted in
/// characters.
pub fn damerau_levenshtein(s: &str, t: &str) -> (r: usize)
    requires
        s@.len() + t@.len() < usize::MAX / 4,
    ensures
        r == dl_distance(s@, t@),
{
    let sc = chars_of(s);
    let tc = chars_of(t);
    let len_s = sc.len();
    let len_t = tc.len();
    let max_distance = len_t + len_s;
    let ghost ss = s@;
    let ghost ts = t@;

    let mut mat: Vec<Vec<usize>> = Vec::new();
    let mut row0: Vec<usize> = Vec::new();
    let mut k: usize = 0;
    while k < len_t + 2
        invariant
            len_s + len_t < usize::MAX / 4,
            k <= len_t + 2,
            row0@.len() == k,
            forall|b: int| 0 <= b < k ==> #[trigger] row0@[b] == max_distance,
        decreases len_t + 2 - k,
    {
        row0.push(max_distance);
        k = k + 1;
    }
    let mut row1: Vec<usize> = Vec::new();
    row1.push(max_distance);
    let mut k: usize = 0;
    while k <= len_t
        invariant
            len_s + len_t < usize::MAX / 4,
            k <= len_t + 1,
            row1@.len() == k + 1,
            row1@[0] == max_distance,
            forall|b: int| 1 <= b <= k ==> #[trigger] row1@[b] == b - 1,
        decreases len_t + 1 - k,
    {
        row1.push(k);
        k = k + 1;
    }
    proof {
        assert forall|b: int| 0 <= b < len_t + 2 implies #[trigger] row0@[b] == dl_cell(ss, ts, 0, b) by {}
        assert forall|b: int| 0 <= b < len_t + 2 implies #[trigger] row1@[b] == dl_cell(ss, ts, 1, b) by {}
    }
    mat.push(row0);
    mat.push(row1);

    let mut i: usize = 1;
    while i <= len_s
        invariant
            sc@ == ss,
            tc@ == ts,
            len_s == ss.len(),
            len_t == ts.len(),
            max_distance == len_s + len_t,
            len_s + len_t < usize::MAX / 4,
            1 <= i <= len_s + 1,
            mat@.len() == i + 1,
            forall|a: int| 0 <= a < mat@.len() ==> #[trigger] mat@[a]@.len() == len_t + 2,
            forall|a: int, b: int| 0 <= a < mat@.len() && 0 <= b < len_t + 2
                ==> #[trigger] mat@[a]@[b] == dl_cell(ss, ts, a, b),
        decreases len_s + 1 - i,
    {
        let s_char = sc[i - 1];
        let mut cur: Vec<usize> = Vec::new();
        cur.push(max_distance);
        cur.push(i);
        proof {
            assert(cur@[0] == dl_cell(ss, ts, i + 1, 0));
            assert(cur@[1] == dl_cell(ss, ts, i + 1, 1));
        }
        let mut db: usize = 0;
        let mut j: usize = 1;
        while j <= len_t
            invariant
                sc@ == ss,
                tc@ == ts,
                len_s == ss.len(),
                len_t == ts.len(),
                max_distance == len_s + len_t,
                len_s + len_t < usize::MAX / 4,
                1 <= i <= len_s,
                s_char == ss[i - 1],
                1 <= j <= len_t + 1,
                cur@.len() == j + 1,
                mat@.len() == i + 1,
                forall|a: int| 0 <= a < mat@.len() ==> #[trigger] mat@[a]@.len() == len_t + 2,
                forall|a: int, b: int| 0 <= a < mat@.len() && 0 <= b < len_t + 2
                    ==> #[trigger] mat@[a]@[b] == dl_cell(ss, ts, a, b),
                forall|b: int| 0 <= b <= j ==> #[trigger] cur@[b] == dl_cell(ss, ts, i + 1, b),
                db as int == last_col(ts, j - 1, ss[i - 1]),
            decreases len_t + 1 - j,
        {
            let t_char = tc[j - 1];
            let last = find_last_row(&sc, i - 1, t_char);
            proof {
                assert(last as int == last_row(ss, i - 1, t_char));
                lemma_last_bounds(ss, i - 1, t_char);
                lemma_last_col_bounds(ts, j - 1, ss[i - 1]);
                lemma_dl_bounds(ss, ts, i + 1, j as int);
                lemma_dl_bounds(ss, ts, i as int, j + 1);
                lemma_dl_bounds(ss, ts, i as int, j as int);
                lemma_dl_bounds(ss, ts, last as int, db as int);
            }
            let cost: usize = if s_char == t_char { 0 } else { 1 };
            let v = min4(
                cur[j] + 1,
                mat[i][j + 1] + 1,
                mat[i][j] + cost,
                mat[last][db] + (i - last - 1) + 1 + (j - db - 1),
            );
            proof {
                assert(v == dl_cell(ss, ts, i + 1, j + 1));
            }
            cur.push(v);
            if cost == 0 {
                db = j;
            }
            j = j + 1;
        }
        mat.push(cur);
        i = i + 1;
    }
    mat[len_s + 1][len_t + 1]
}

/// Scans `strings` in order for the one nearest to `target`, keeping the
/// first of equally near ones: the least distance seen (starting from
/// `threshold`) and where it was seen.
pub open spec fn nearest(target: Seq<char>, strings: Seq<Seq<char>>, threshold: int) -> (int, Option<int>)
    decreases strings.len(),
{
    if strings.len() == 0 {
        (threshold, None)
    } else {
        let (best, at) = nearest(target, strings.drop_last(), threshold);
        let v = dl_distance(target, strings.last());
        if v < best {
            (v, Some(strings.len() - 1))
        } else {
            (best, at)
        }
    }
}

pub open spec fn strs_view(strings: Seq<&str>) -> Seq<Seq<char>> {
    strings.map_values(|s: &str| s@)
}

/// The name among `strings` nearest to `target`, if one is nearer than
/// `threshold`; an empty name is never suggested.
pub fn find_similar_string<'a>(target_str: &str, strings: &[&'a str], treshold: usize) -> (r: Option<&'a str>)
    requires
        forall|i: int| 0 <= i < strings@.len() ==> target_str@.len() + (#[trigger] strings@[i])@.len() < usize::MAX / 4,
    ensures
        match nearest(target_str@, strs_view(strings@), treshold as int).1 {
            Some(k) => if strings@[k]@.len() == 0 { r is None } else { r == Some(strings@[k]) },
            None => r is None,
        },
{
    let mut min = treshold;
    let mut current_str: &'a str = "";
    let ghost mut at: Option<int> = None;
    proof {
        reveal_strlit("");
    }
    let mut k: usize = 0;
    while k < strings.len()
        invariant
            k <= strings@.len(),
            forall|i: int| 0 <= i < strings@.len() ==> target_str@.len() + (#[trigger] strings@[i])@.len() < usize::MAX / 4,
            nearest(target_str@, strs_view(strings@.take(k as int)), treshold as int) == (min as int, at),
            match at {
                Some(x) => 0 <= x < k && current_str == strings@[x],
                None => current_str@.len() == 0,
            },
        decreases strings@.len() - k,
    {
        let identifier = strings[k];
        let value = damerau_levenshtein(target_str, identifier);
        proof {
            assert(strs_view(strings@.take(k + 1)).drop_last() =~= strs_view(strings@.take(k as int)));
            assert(strs_view(strings@.take(k + 1)).last() == identifier@);
        }
        if value < min {
            min = value;
            current_str = identifier;
            proof {
                at = Some(k as int);
            }
        }
        k = k + 1;
    }
    proof {
        assert(strings@.take(strings@.len() as int) =~= strings@);
    }
    if current_str.is_empty() {
        None
    } else {
        Some(current_str)
    }
}

/// `last_row` and `last_col` search a sequence in the same way.
proof fn lemma_last_row_col(s: Seq<char>, i: int, c: char)
    ensures
        last_row(s, i, c) == last_col(s, i, c),
    decreases i,
{
    if i > 0 {
        lemma_last_row_col(s, i - 1, c);
    }
}

proof fn lemma_dl_cell_symmetric(s: Seq<char>, t: Seq<char>, a: int, b: int)
    ensures
        dl_cell(s, t, a, b) == dl_cell(t, s, b, a),
    decreases a + b,
{
    if a >= 2 && b >= 2 {
        let i = a - 1;
        let j = b - 1;
        let k = last_row(s, i - 1, t[j - 1]);
        let l = last_col(t, j - 1, s[i - 1]);
        lemma_last_bounds(s, i - 1, t[j - 1]);
        lemma_last_col_bounds(t, j - 1, s[i - 1]);
        lemma_last_row_col(s, i - 1, t[j - 1]);
        lemma_last_row_col(t, j - 1, s[i - 1]);
        lemma_dl_cell_symmetric(s, t, a, b - 1);
        lemma_dl_cell_symmetric(s, t, a - 1, b);
        lemma_dl_cell_symmetric(s, t, a - 1, b - 1);
        lemma_dl_cell_symmetric(s, t, k, l);
        assert(last_row(t, j - 1, s[i - 1]) == l);
        assert(last_col(s, i - 1, t[j - 1]) == k);
    }
}

/// The distance is symmetric.
pub proof fn law_dl_symmetric(s: Seq<char>, t: Seq<char>)
    ensures
        dl_distance(s, t) == dl_distance(t, s),
{
    lemma_dl_cell_symmetric(s, t, s.len() + 1 as int, t.len() + 1 as int);
}

proof fn lemma_dl_diagonal(s: Seq<char>, a: int)
    requires
        1 <= a <= s.len() + 1,
    ensures
        dl_cell(s, s, a, a) == 0,
    decreases a,
{
    if a >= 2 {
        lemma_dl_diagonal(s, a - 1);
        let i = a - 1;
        let k = last_row(s, i - 1, s[i - 1]);
        let l = last_col(s, i - 1, s[i - 1]);
        lemma_last_bounds(s, i - 1, s[i - 1]);
        lemma_last_col_bounds(s, i - 1, s[i - 1]);
        lemma_dl_bounds(s, s, a, a - 1);
        lemma_dl_bounds(s, s, a - 1, a);
        lemma_dl_bounds(s, s, k, l);
    }
}

/// A text is at distance 0 from itself.
pub proof fn law_dl_identity(s: Seq<char>)
    ensures
        dl_distance(s, s) == 0,
{
    lemma_dl_diagonal(s, s.len() + 1 as int);
}

/// The distance from the empty text is the other text's length.
pub proof fn law_dl_from_empty(t: Seq<char>)
    ensures
        dl_distance(Seq::empty(), t) == t.len(),
        dl_distance(t, Seq::empty()) == t.len(),
{
    law_dl_symmetric(Seq::empty(), t);
}

proof fn lemma_dl_length_gap(s: Seq<char>, t: Seq<char>, a: int, b: int)
    requires
        1 <= a <= s.len() + 1,
        1 <= b <= t.len() + 1,
    ensures
        dl_cell(s, t, a, b) >= a - b,
        dl_cell(s, t, a, b) >= b - a,
    decreases a + b,
{
    if a >= 2 && b >= 2 {
        let i = a - 1;
        let j = b - 1;
        let k = last_row(s, i - 1, t[j - 1]);
        let l = last_col(t, j - 1, s[i - 1]);
        lemma_last_bounds(s, i - 1, t[j - 1]);
        lemma_last_col_bounds(t, j - 1, s[i - 1]);
        lemma_dl_length_gap(s, t, a, b - 1);
        lemma_dl_length_gap(s, t, a - 1, b);
        lemma_dl_length_gap(s, t, a - 1, b - 1);
        lemma_dl_bounds(s, t, k, l);
        if k >= 1 && l >= 1 {
            lemma_dl_length_gap(s, t, k, l);
        }
    }
}

proof fn lemma_dl_zero_diagonal(s: Seq<char>, t: Seq<char>, a: int)
    requires
        1 <= a <= s.len() + 1,
        a <= t.len() + 1,
        dl_cell(s, t, a, a) == 0,
    ensures
        s.take(a - 1) == t.take(a - 1),
    decreases a,
{
    if a >= 2 {
        let i = a - 1;
        let k = last_row(s, i - 1, t[i - 1]);
        let l = last_col(t, i - 1, s[i - 1]);
        lemma_last_bounds(s, i - 1, t[i - 1]);
        lemma_last_col_bounds(t, i - 1, s[i - 1]);
        lemma_dl_bounds(s, t, a, a - 1);
        lemma_dl_bounds(s, t, a - 1, a);
        lemma_dl_bounds(s, t, a - 1, a - 1);
        lemma_dl_bounds(s, t, k, l);
        assert(dl_cell(s, t, a - 1, a - 1) == 0 && s[i - 1] == t[i - 1]);
        lemma_dl_zero_diagonal(s, t, a - 1);
        assert(s.take(a - 1) =~= s.take(a - 2).push(s[i - 1]));
        assert(t.take(a - 1) =~= t.take(a - 2).push(t[i - 1]));
    } else {
        assert(s.take(0) =~= t.take(0));
    }
}

/// The distance is 0 only between equal texts.
pub proof fn law_dl_zero_only_on_equal(s: Seq<char>, t: Seq<char>)
    ensures
        dl_distance(s, t) == 0 ==> s == t,
{
    if dl_distance(s, t) == 0 {
        lemma_dl_length_gap(s, t, s.len() + 1 as int, t.len() + 1 as int);
        lemma_dl_zero_diagonal(s, t, s.len() + 1 as int);
        assert(s.take(s.len() as int) =~= s);
        assert(t.take(t.len() as int) =~= t);
    }
}

} // verus!
