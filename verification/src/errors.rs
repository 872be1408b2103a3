//! Compiler errors and how they are shown: a list of text and of
//! highlights, each highlight rendered as the source lines it covers with
//! a row of carets under them.
use vstd::prelude::*;
use colored::{Color, ColoredString, Colorize};
use crate::source::{lines_of, line_holding, line_start, utf8_len, utf8_width, line_at_index, start_of_line, lines_vec,
    char_width, lemma_utf8_len_push, lemma_utf8_len_bound};
use crate::text::{chars_of, push_char};
use crate::common::{colored_text, painted_input, painting_of};
use crate::types::SourceRange;

verus! {

#[verifier::external_type_specification]
#[verifier::external_body]
pub struct ExColor(Color);

/// Gives `Color::BrightRed`, the colour a highlight starts with.
#[verifier::external_body]
pub fn bright_red() -> Color {
    Color::BrightRed
}

/// Calls `Colorize::color` on a string slice: the text, marked with the
/// colour.
#[verifier::external_body]
fn paint(s: &str, colour: Color) -> (r: ColoredString)
    ensures
        painted_input(r) == s@,
{
    s.color(colour)
}

/// One part of an error: text, or a highlighted range of the source with
/// an optional note.
#[derive(Debug, PartialEq)]
pub enum ErrorOption {
    Text(String),
    Highlight { range: SourceRange, note: Option<String>, colour: Color },
}

/// An error: its parts in order.
#[derive(Debug, PartialEq)]
pub struct Error {
    body: Vec<ErrorOption>,
}

/// A part as the specifications see it.
pub enum OptionView {
    Text(Seq<char>),
    Highlight { range: SourceRange, note: Option<Seq<char>>, colour: Color },
}

pub open spec fn option_view(o: ErrorOption) -> OptionView {
    match o {
        ErrorOption::Text(s) => OptionView::Text(s@),
        ErrorOption::Highlight { range, note, colour } => OptionView::Highlight {
            range,
            note: match note {
                Some(n) => Some(n@),
                None => None,
            },
            colour,
        },
    }
}

pub open spec fn options_view(os: Seq<ErrorOption>) -> Seq<OptionView> {
    os.map_values(|o: ErrorOption| option_view(o))
}

impl Error {
    pub closed spec fn body(&self) -> Seq<OptionView> {
        options_view(self.body@)
    }

    /// The error made of `body`.
    pub fn new(body: Vec<ErrorOption>) -> (r: Error)
        ensures
            r.body() == options_view(body@),
    {
        Error { body }
    }
}

/// The body of several errors joined: each error's parts, then a newline
/// text unless the parts so far already end in one.
pub open spec fn combined(bodies: Seq<Seq<OptionView>>) -> Seq<OptionView>
    decreases bodies.len(),
{
    if bodies.len() == 0 {
        Seq::empty()
    } else {
        let before = combined(bodies.drop_last()) + bodies.last();
        if before.len() > 0 && before.last() == OptionView::Text(seq!['\n']) {
            before
        } else {
            before.push(OptionView::Text(seq!['\n']))
        }
    }
}

pub open spec fn bodies(es: Seq<Error>) -> Seq<Seq<OptionView>> {
    es.map_values(|e: Error| e.body())
}

/// Joins errors into one.
pub trait CombineIntoError: Sized {
    spec fn bodies_of(&self) -> Seq<Seq<OptionView>>;

    fn combine_into_error(self) -> (r: Error)
        ensures
            r.body() == combined(self.bodies_of());
}

fn is_newline_text(o: &ErrorOption) -> (r: bool)
    ensures
        r == (option_view(*o) == OptionView::Text(seq!['\n'])),
{
    match o {
        ErrorOption::Text(v) => {
            let cs = chars_of(v.as_str());
            let r = cs.len() == 1 && cs[0] == '\n';
            proof {
                if r {
                    assert(cs@ =~= seq!['\n']);
                } else if v@ == seq!['\n'] {
                    assert(cs@.len() == 1 && cs@[0] == '\n');
                }
            }
            r
        },
        _ => false,
    }
}

fn newline_text() -> (r: ErrorOption)
    ensures
        option_view(r) == OptionView::Text(seq!['\n']),
{
    let mut s = String::new();
    push_char(&mut s, '\n');
    assert(s@ =~= seq!['\n']);
    ErrorOption::Text(s)
}

impl CombineIntoError for Vec<Error> {
    open spec fn bodies_of(&self) -> Seq<Seq<OptionView>> {
        bodies(self@)
    }

    fn combine_into_error(self) -> (r: Error) {
        let ghost all = bodies(self@);
        let mut body: Vec<ErrorOption> = Vec::new();
        let mut errors = self;
        let n = errors.len();
        let mut k: usize = 0;
        // Take the errors out front to back.
        let mut reversed: Vec<Error> = Vec::new();
        while errors.len() > 0
            invariant
                reversed@.len() + errors@.len() == n,
                forall|i: int| 0 <= i < errors@.len() ==> bodies(errors@)[i] == all[i],
                forall|i: int| 0 <= i < reversed@.len() ==> bodies(reversed@)[i] == all[n - 1 - i],
                all.len() == n,
            decreases errors@.len(),
        {
            let ghost before_e = errors@;
            let ghost before_r = reversed@;
            let e = errors.pop().unwrap();
            reversed.push(e);
            proof {
                assert forall|i: int| 0 <= i < errors@.len() implies bodies(errors@)[i] == all[i] by {
                    assert(errors@[i] == before_e[i]);
                    assert(bodies(before_e)[i] == before_e[i].body());
                }
                assert forall|i: int| 0 <= i < reversed@.len() implies bodies(reversed@)[i] == all[n - 1 - i] by {
                    if i < before_r.len() {
                        assert(reversed@[i] == before_r[i]);
                        assert(bodies(before_r)[i] == before_r[i].body());
                    } else {
                        assert(bodies(before_e)[before_e.len() - 1] == before_e[before_e.len() - 1].body());
                    }
                }
            }
        }
        while reversed.len() > 0
            invariant
                k + reversed@.len() == n,
                k <= n,
                all.len() == n,
                forall|i: int| 0 <= i < reversed@.len() ==> bodies(reversed@)[i] == all[n - 1 - i],
                options_view(body@) == combined(all.take(k as int)),
            decreases reversed@.len(),
        {
            let ghost before_r = reversed@;
            let e = reversed.pop().unwrap();
            proof {
                assert(bodies(before_r)[before_r.len() - 1] == e.body());
                assert(e.body() == all[k as int]);
            }
            let mut part = e.body;
            let ghost prev = body@;
            body.append(&mut part);
            proof {
                assert(options_view(body@) =~= options_view(prev) + all[k as int]);
                assert(all.take(k + 1).drop_last() =~= all.take(k as int));
            }
            let ends_with_newline = body.len() > 0 && is_newline_text(&body[body.len() - 1]);
            if !ends_with_newline {
                let ghost prev2 = body@;
                body.push(newline_text());
                assert(options_view(body@) =~= options_view(prev2).push(OptionView::Text(seq!['\n'])));
            }
            k = k + 1;
            proof {
                assert forall|i: int| 0 <= i < reversed@.len() implies bodies(reversed@)[i] == all[n - 1 - i] by {
                    assert(reversed@[i] == before_r[i]);
                    assert(bodies(before_r)[i] == before_r[i].body());
                }
            }
        }
        assert(all.take(n as int) =~= all);
        Error { body }
    }
}

/// The character of decimal digit `d`.
pub open spec fn digit_char(d: nat) -> char {
    ((48 + d) as u8) as char
}

/// `n` written in decimal.
pub open spec fn decimal(n: nat) -> Seq<char>
    decreases n,
{
    if n < 10 {
        seq![digit_char(n)]
    } else {
        decimal(n / 10).push(digit_char(n % 10))
    }
}

/// Writes `n` in decimal at the end of `buf`.
fn push_decimal(buf: &mut Vec<char>, n: usize)
    ensures
        final(buf)@ == old(buf)@ + decimal(n as nat),
    decreases n,
{
    if n >= 10 {
        push_decimal(buf, n / 10);
    }
    let d = (n % 10) as u8;
    buf.push((48u8 + d) as char);
    assert(buf@ =~= old(buf)@ + decimal(n as nat));
}

/// `n` spaces.
pub open spec fn spaces(n: nat) -> Seq<char> {
    Seq::new(n, |i: int| ' ')
}

/// `s` right-aligned in `w` characters.
pub open spec fn pad_left(s: Seq<char>, w: nat) -> Seq<char> {
    if s.len() < w { spaces((w - s.len()) as nat) + s } else { s }
}

/// Where the carets of a line start: the index of the first character at
/// which the bytes counted so far reach `target`, or all the line's bytes
/// where none does.
pub open spec fn caret_col(line: Seq<char>, target: int, index: nat, count: int) -> int
    decreases line.len() - index,
{
    if index >= line.len() {
        count
    } else if count >= target {
        index as int
    } else {
        caret_col(line, target, index + 1, count + utf8_width(line[index as int]))
    }
}

/// The line that holds byte `idx`, or the count of lines past the last.
pub open spec fn line_index(ls: Seq<Seq<char>>, idx: int) -> int {
    match line_holding(ls, idx, 0) {
        Some(k) => k,
        None => ls.len() as int,
    }
}

/// Where line `n` starts, as `start_of_line` counts.
pub open spec fn sol(ls: Seq<Seq<char>>, n: int) -> int {
    line_start(ls, if n <= ls.len() { n } else { ls.len() as int })
}

/// A piece of a rendered highlight: text, or a row of carets to be shown
/// in the highlight's colour.
pub enum PartView {
    Plain(Seq<char>),
    Carets(nat),
}

/// The three pieces of line `ln` of a highlight: the line with its number,
/// the margin under it, and the carets.
pub open spec fn row_parts(ls: Seq<Seq<char>>, range: SourceRange, start_line: int, end_line: int, w: nat, ln: int) -> Seq<PartView> {
    let line = ls[ln];
    let s = sol(ls, start_line);
    let row = PartView::Plain(seq!['\n'] + pad_left(decimal(ln as nat), w) + " | "@ + line + seq!['\n']);
    let lead = pad_left(spaces(decimal(ln as nat).len()), w) + " | "@;
    if ln == start_line {
        let target = range.start - s - 1;
        let carets: int = if end_line == ln {
            if range.end - range.start >= 1 { range.end - range.start } else { 1 }
        } else {
            if utf8_len(line) - (range.start - s) >= 1 { utf8_len(line) - (range.start - s) } else { 1 }
        };
        seq![row, PartView::Plain(lead + spaces(caret_col(line, target, 0, 0) as nat)), PartView::Carets(carets as nat)]
    } else if ln == end_line {
        seq![row, PartView::Plain(lead), PartView::Carets((range.end - sol(ls, end_line)) as nat)]
    } else {
        seq![row, PartView::Plain(lead), PartView::Carets(utf8_len(line))]
    }
}

/// The pieces of the lines `ln` to `end_line` that exist.
pub open spec fn rows(ls: Seq<Seq<char>>, range: SourceRange, start_line: int, end_line: int, w: nat, ln: int) -> Seq<PartView>
    decreases end_line + 1 - ln,
{
    if ln > end_line || ln >= ls.len() || ln < 0 {
        Seq::empty()
    } else {
        row_parts(ls, range, start_line, end_line, w, ln) + rows(ls, range, start_line, end_line, w, ln + 1)
    }
}

/// A highlight rendered: where it is (file, line and column), each line it
/// covers with carets under the range, and the note.
pub open spec fn highlight_parts(source: Seq<char>, file: Seq<char>, range: SourceRange, note: Option<Seq<char>>) -> Seq<PartView> {
    let ls = lines_of(source);
    let start_line = line_index(ls, range.start as int);
    let end_line = line_index(ls, range.end - 1);
    let w = decimal(end_line as nat).len();
    seq![
        PartView::Plain(spaces(w) + "--> "@ + file + seq![':'] + decimal(start_line as nat) + seq![':']
            + decimal((range.start - sol(ls, start_line)) as nat) + seq!['\n']),
        PartView::Plain(spaces(w) + " |"@),
    ] + rows(ls, range, start_line, end_line, w, start_line) + seq![PartView::Plain(match note {
        Some(n) => seq![' '] + n + seq!['\n'],
        None => seq!['\n'],
    })]
}

/// Every subtraction that rendering the highlight does stays above zero.
pub open spec fn renderable(source: Seq<char>, range: SourceRange) -> bool {
    let ls = lines_of(source);
    let sl = line_index(ls, range.start as int);
    let el = line_index(ls, range.end - 1);
    let s = sol(ls, sl);
    &&& 8 * source.len() + 8 < usize::MAX
    &&& range.end >= 1
    &&& range.start >= s
    &&& (0 <= sl < ls.len() && sl <= el && ls[sl].len() > 0 ==> range.start >= s + 1)
    &&& (0 <= sl < ls.len() && sl == el ==> range.end >= range.start)
    &&& (0 <= sl < ls.len() && sl < el ==> utf8_len(ls[sl]) >= range.start - s)
    &&& (0 <= el < ls.len() && sl < el ==> range.end >= sol(ls, el))
}

/// A piece of a rendered error.
#[derive(Debug, PartialEq, Eq)]
pub enum Part {
    Plain(String),
    Carets(usize),
}

pub open spec fn part_view(p: Part) -> PartView {
    match p {
        Part::Plain(s) => PartView::Plain(s@),
        Part::Carets(n) => PartView::Carets(n as nat),
    }
}

pub open spec fn parts_view(ps: Seq<Part>) -> Seq<PartView> {
    ps.map_values(|p: Part| part_view(p))
}

fn push_str(buf: &mut Vec<char>, s: &str)
    ensures
        final(buf)@ == old(buf)@ + s@,
{
    let cs = chars_of(s);
    push_chars(buf, &cs);
}

fn push_chars(buf: &mut Vec<char>, cs: &Vec<char>)
    ensures
        final(buf)@ == old(buf)@ + cs@,
{
    let mut k: usize = 0;
    while k < cs.len()
        invariant
            k <= cs@.len(),
            buf@ == old(buf)@ + cs@.take(k as int),
        decreases cs@.len() - k,
    {
        buf.push(cs[k]);
        k = k + 1;
        assert(buf@ =~= old(buf)@ + cs@.take(k as int));
    }
    assert(cs@.take(cs@.len() as int) =~= cs@);
}

fn push_spaces(buf: &mut Vec<char>, n: usize)
    ensures
        final(buf)@ == old(buf)@ + spaces(n as nat),
{
    let mut k: usize = 0;
    while k < n
        invariant
            k <= n,
            buf@ == old(buf)@ + spaces(k as nat),
        decreases n - k,
    {
        buf.push(' ');
        k = k + 1;
        assert(buf@ =~= old(buf)@ + spaces(k as nat));
    }
}

/// Appends `s` right-aligned in `w` characters.
fn push_padded(buf: &mut Vec<char>, s: &Vec<char>, w: usize)
    ensures
        final(buf)@ == old(buf)@ + pad_left(s@, w as nat),
{
    if s.len() < w {
        push_spaces(buf, w - s.len());
    }
    push_chars(buf, s);
    assert(buf@ =~= old(buf)@ + pad_left(s@, w as nat));
}

fn text_of(cs: &Vec<char>) -> (r: String)
    ensures
        r@ == cs@,
{
    let mut s = String::new();
    let mut k: usize = 0;
    while k < cs.len()
        invariant
            k <= cs@.len(),
            s@ == cs@.take(k as int),
        decreases cs@.len() - k,
    {
        push_char(&mut s, cs[k]);
        k = k + 1;
        assert(s@ =~= cs@.take(k as int));
    }
    assert(cs@.take(cs@.len() as int) =~= cs@);
    s
}

fn bytes_of(line: &Vec<char>) -> (r: usize)
    requires
        4 * line@.len() < usize::MAX,
    ensures
        r == utf8_len(line@),
{
    let mut total: usize = 0;
    let mut k: usize = 0;
    while k < line.len()
        invariant
            k <= line@.len(),
            4 * line@.len() < usize::MAX,
            total == utf8_len(line@.take(k as int)),
        decreases line@.len() - k,
    {
        proof {
            lemma_utf8_len_push(line@.take(k as int), line@[k as int]);
            assert(line@.take(k + 1) =~= line@.take(k as int).push(line@[k as int]));
            lemma_utf8_len_bound(line@.take(k + 1));
        }
        total = total + char_width(line[k]);
        k = k + 1;
    }
    assert(line@.take(line@.len() as int) =~= line@);
    total
}

/// Where the carets of a line start.
fn caret_column(line: &Vec<char>, range_start: usize, line_start: usize) -> (r: usize)
    requires
        4 * line@.len() < usize::MAX,
        line@.len() > 0 ==> range_start >= line_start + 1,
    ensures
        r == caret_col(line@, range_start - line_start - 1, 0, 0),
{
    let mut count: usize = 0;
    let mut index: usize = 0;
    while index < line.len()
        invariant
            index <= line@.len(),
            4 * line@.len() < usize::MAX,
            line@.len() > 0 ==> range_start >= line_start + 1,
            count == utf8_len(line@.take(index as int)),
            caret_col(line@, range_start - line_start - 1, 0, 0) == caret_col(line@, range_start - line_start - 1, index as nat, count as int),
        decreases line@.len() - index,
    {
        if count >= range_start - line_start - 1 {
            return index;
        }
        proof {
            lemma_utf8_len_push(line@.take(index as int), line@[index as int]);
            assert(line@.take(index + 1) =~= line@.take(index as int).push(line@[index as int]));
            lemma_utf8_len_bound(line@.take(index + 1));
        }
        count = count + char_width(line[index]);
        index = index + 1;
    }
    count
}

pub open spec fn note_view(n: Option<String>) -> Option<Seq<char>> {
    match n {
        Some(s) => Some(s@),
        None => None,
    }
}

fn plain(buf: &Vec<char>) -> (r: Part)
    ensures
        part_view(r) == PartView::Plain(buf@),
{
    Part::Plain(text_of(buf))
}

/// A line is no longer than the text.
proof fn lemma_line_len(s: Seq<char>, k: int)
    requires
        0 <= k < lines_of(s).len(),
    ensures
        lines_of(s)[k].len() <= s.len(),
{
    lemma_pieces_len(s, 0);
    assert(lines_of(s)[k] == crate::source::strip_ending(crate::source::pieces(s, 0)[k]));
}

proof fn lemma_pieces_len(s: Seq<char>, p: int)
    ensures
        forall|k: int| 0 <= k < crate::source::pieces(s, p).len() ==> (#[trigger] crate::source::pieces(s, p)[k]).len() <= s.len(),
    decreases s.len() - p,
{
    if 0 <= p < s.len() {
        match crate::source::newline_at_or_after(s, p) {
            Some(e) => {
                crate::source::lemma_newline_bounds(s, p);
                lemma_pieces_len(s, e + 1);
                assert forall|k: int| 0 <= k < crate::source::pieces(s, p).len()
                    implies (#[trigger] crate::source::pieces(s, p)[k]).len() <= s.len() by {
                    if k > 0 {
                        assert(crate::source::pieces(s, p)[k] == crate::source::pieces(s, e + 1)[k - 1]);
                    }
                }
            },
            None => {},
        }
    }
}

/// The pieces of a highlight of `range` in `source`, from file `file`.
fn render_highlight(file: &str, source: &str, range: SourceRange, note: &Option<String>) -> (r: Vec<Part>)
    requires
        renderable(source@, range),
    ensures
        parts_view(r@) == highlight_parts(source@, file@, range, note_view(*note)),
{
    let ghost ls = lines_of(source@);
    let lines = lines_vec(source);
    let start_line = match line_at_index(source, range.start) {
        Some((_, i)) => i,
        None => 0,
    };
    let end_line = match line_at_index(source, range.end - 1) {
        Some((_, i)) => i,
        None => 0,
    };
    assert(start_line == line_index(ls, range.start as int));
    assert(end_line == line_index(ls, range.end - 1));
    let mut end_digits: Vec<char> = Vec::new();
    push_decimal(&mut end_digits, end_line);
    let w = end_digits.len();
    let s_start = start_of_line(source, start_line);
    assert(s_start == sol(ls, start_line as int));
    let mut out: Vec<Part> = Vec::new();

    let mut head: Vec<char> = Vec::new();
    push_spaces(&mut head, w);
    push_str(&mut head, "--> ");
    push_str(&mut head, file);
    head.push(':');
    push_decimal(&mut head, start_line);
    head.push(':');
    push_decimal(&mut head, range.start - s_start);
    head.push('\n');
    assert(head@ =~= spaces(w as nat) + "--> "@ + file@ + seq![':'] + decimal(start_line as nat) + seq![':']
        + decimal((range.start - sol(ls, start_line as int)) as nat) + seq!['\n']);
    out.push(plain(&head));
    let mut bar: Vec<char> = Vec::new();
    push_spaces(&mut bar, w);
    push_str(&mut bar, " |");
    out.push(plain(&bar));
    let ghost prefix = parts_view(out@);
    proof {
        assert(prefix =~= seq![
            PartView::Plain(spaces(w as nat) + "--> "@ + file@ + seq![':'] + decimal(start_line as nat) + seq![':']
                + decimal((range.start - sol(ls, start_line as int)) as nat) + seq!['\n']),
            PartView::Plain(spaces(w as nat) + " |"@),
        ]);
        assert(prefix + rows(ls, range, start_line as int, end_line as int, w as nat, start_line as int)
            =~= parts_view(out@) + rows(ls, range, start_line as int, end_line as int, w as nat, start_line as int));
    }
    let mut ln = start_line;
    while ln <= end_line && ln < lines.len()
        invariant
            renderable(source@, range),
            ls == lines_of(source@),
            lines@.len() == ls.len(),
            forall|k: int| 0 <= k < lines@.len() ==> (#[trigger] lines@[k])@ == ls[k],
            start_line == line_index(ls, range.start as int),
            end_line == line_index(ls, range.end - 1),
            w == decimal(end_line as nat).len(),
            s_start == sol(ls, start_line as int),
            start_line <= ln,
            prefix + rows(ls, range, start_line as int, end_line as int, w as nat, start_line as int)
                == parts_view(out@) + rows(ls, range, start_line as int, end_line as int, w as nat, ln as int),
        decreases lines@.len() - ln,
    {
        let line = &lines[ln];
        assert(line@ == ls[ln as int]);
        proof {
            lemma_line_len(source@, ln as int);
        }
        let ghost before = parts_view(out@);
        let mut digits: Vec<char> = Vec::new();
        push_decimal(&mut digits, ln);
        let mut row: Vec<char> = Vec::new();
        row.push('\n');
        push_padded(&mut row, &digits, w);
        push_str(&mut row, " | ");
        push_chars(&mut row, line);
        row.push('\n');
        assert(row@ =~= seq!['\n'] + pad_left(decimal(ln as nat), w as nat) + " | "@ + ls[ln as int] + seq!['\n']);
        out.push(plain(&row));
        let mut spaces_of: Vec<char> = Vec::new();
        push_spaces(&mut spaces_of, digits.len());
        let mut lead: Vec<char> = Vec::new();
        push_padded(&mut lead, &spaces_of, w);
        push_str(&mut lead, " | ");
        let ghost lead0 = lead@;
        assert(lead0 =~= pad_left(spaces(decimal(ln as nat).len()), w as nat) + " | "@);
        let carets: usize;
        if ln == start_line {
            let col = caret_column(line, range.start, s_start);
            push_spaces(&mut lead, col);
            assert(lead@ =~= lead0 + spaces(caret_col(ls[ln as int], range.start - s_start - 1, 0, 0) as nat));
            carets = if end_line == ln {
                if range.end - range.start >= 1 { range.end - range.start } else { 1 }
            } else {
                let b = bytes_of(line);
                if b - (range.start - s_start) >= 1 { b - (range.start - s_start) } else { 1 }
            };
        } else if ln == end_line {
            let s_end = start_of_line(source, end_line);
            carets = range.end - s_end;
        } else {
            carets = bytes_of(line);
        }
        out.push(plain(&lead));
        out.push(Part::Carets(carets));
        proof {
            assert(parts_view(out@) =~= before + row_parts(ls, range, start_line as int, end_line as int, w as nat, ln as int));
        }
        ln = ln + 1;
    }
    let mut tail: Vec<char> = Vec::new();
    match note {
        Some(n) => {
            tail.push(' ');
            push_str(&mut tail, n.as_str());
            tail.push('\n');
        },
        None => {
            tail.push('\n');
        },
    }
    let ghost nv = note_view(*note);
    assert(tail@ =~= match nv {
        Some(n) => seq![' '] + n + seq!['\n'],
        None => seq!['\n'],
    });
    let ghost before = parts_view(out@);
    out.push(plain(&tail));
    proof {
        assert(rows(ls, range, start_line as int, end_line as int, w as nat, ln as int) =~= Seq::<PartView>::empty());
        assert(parts_view(out@) =~= before.push(part_view(out@.last())));
        assert(before =~= prefix + rows(ls, range, start_line as int, end_line as int, w as nat, start_line as int));
        assert(parts_view(out@) =~= highlight_parts(source@, file@, range, nv));
    }
    out
}

/// The pieces an error part renders to: a text as it is, a highlight as
/// `highlight_parts` says.
pub open spec fn option_parts(o: OptionView, source: Seq<char>, file: Seq<char>) -> Seq<PartView> {
    match o {
        OptionView::Text(t) => seq![PartView::Plain(t)],
        OptionView::Highlight { range, note, .. } => highlight_parts(source, file, range, note),
    }
}

/// A highlight can be rendered against `source`; a text always can.
pub open spec fn option_renderable(o: OptionView, source: Seq<char>) -> bool {
    match o {
        OptionView::Highlight { range, .. } => renderable(source, range),
        OptionView::Text(_) => true,
    }
}

/// The row of `n` carets.
pub open spec fn caret_row(n: nat) -> Seq<char> {
    Seq::new(n, |j: int| '^')
}

/// Each row of carets among `parts` shows as its carets, painted.
pub open spec fn carets_painted(parts: Seq<PartView>, painted: Seq<Seq<char>>) -> bool {
    forall|i: int| 0 <= i < parts.len() ==> match #[trigger] parts[i] {
        PartView::Carets(n) => painting_of(caret_row(n), painted[i]),
        PartView::Plain(_) => true,
    }
}

/// The text shown for `parts` where the `i`-th row of carets, once
/// painted, showed as `painted[i]`.
pub open spec fn shown(parts: Seq<PartView>, painted: Seq<Seq<char>>) -> Seq<char>
    decreases parts.len(),
{
    if parts.len() == 0 {
        Seq::empty()
    } else {
        shown(parts.drop_last(), painted) + match parts.last() {
            PartView::Plain(t) => t,
            PartView::Carets(_) => painted[parts.len() - 1],
        }
    }
}

fn append_text(s: &mut String, t: &String)
    ensures
        final(s)@ == old(s)@ + t@,
{
    let cs = chars_of(t.as_str());
    let mut k: usize = 0;
    while k < cs.len()
        invariant
            k <= cs@.len(),
            cs@ == t@,
            s@ == old(s)@ + cs@.take(k as int),
        decreases cs@.len() - k,
    {
        push_char(s, cs[k]);
        k = k + 1;
        assert(s@ =~= old(s)@ + cs@.take(k as int));
    }
    assert(cs@.take(cs@.len() as int) =~= cs@);
}

impl ErrorOption {
    /// A highlight of `range` with the note, in the colour highlights
    /// start with.
    pub fn highlight(range: SourceRange, note: Option<String>) -> (r: ErrorOption)
        ensures
            r matches ErrorOption::Highlight { range: r2, note: n2, .. } && r2 == range && n2 == note,
    {
        ErrorOption::Highlight { range, note, colour: bright_red() }
    }

    /// The pieces this part renders to against `source` of file `file`.
    pub fn parts(&self, file: &str, source: &str) -> (r: Vec<Part>)
        requires
            option_renderable(option_view(*self), source@),
        ensures
            parts_view(r@) == option_parts(option_view(*self), source@, file@),
    {
        match self {
            ErrorOption::Text(t) => {
                let mut v: Vec<Part> = Vec::new();
                v.push(Part::Plain(t.clone()));
                assert(parts_view(v@) =~= seq![PartView::Plain(t@)]);
                v
            },
            ErrorOption::Highlight { range, note, .. } => {
                assert(note_view(*note) == match option_view(*self) {
                    OptionView::Highlight { note, .. } => note,
                    _ => None,
                });
                render_highlight(file, source, *range, note)
            },
        }
    }

    /// The text this part shows for `source` of file `file`: each row of
    /// carets painted in the highlight's colour.
    pub fn build(self, fs: (&str, &str)) -> (r: String)
        requires
            option_renderable(option_view(self), fs.1@),
        ensures
            exists|painted: Seq<Seq<char>>| r@ == shown(option_parts(option_view(self), fs.1@, fs.0@), painted) && carets_painted(
                option_parts(option_view(self), fs.1@, fs.0@),
                painted,
            ),
    {
        let (file, source) = fs;
        let parts = self.parts(file, source);
        let colour = match self {
            ErrorOption::Highlight { colour, .. } => colour,
            ErrorOption::Text(t) => {
                proof {
                    let e: Seq<Seq<char>> = seq![Seq::empty()];
                    let ps = seq![PartView::Plain(t@)];
                    assert(ps.drop_last() =~= Seq::<PartView>::empty());
                    assert(shown(Seq::<PartView>::empty(), e) =~= Seq::<char>::empty());
                    assert(shown(ps, e) == shown(ps.drop_last(), e) + t@);
                    assert(shown(ps, e) =~= t@);
                    assert(carets_painted(ps, e));
                }
                return t;
            },
        };
        let ghost all = parts_view(parts@);
        let mut out = String::new();
        let ghost mut painted: Seq<Seq<char>> = Seq::empty();
        let mut k: usize = 0;
        while k < parts.len()
            invariant
                k <= parts@.len(),
                all == parts_view(parts@),
                painted.len() == k,
                out@ == shown(all.take(k as int), painted),
                forall|i: int| 0 <= i < k ==> match #[trigger] all[i] {
                    PartView::Carets(n) => painting_of(caret_row(n), painted[i]),
                    PartView::Plain(_) => true,
                },
            decreases parts@.len() - k,
        {
            let ghost before = painted;
            match &parts[k] {
                Part::Plain(t) => {
                    append_text(&mut out, t);
                    proof {
                        painted = painted.push(Seq::empty());
                    }
                },
                Part::Carets(n) => {
                    let mut cs: Vec<char> = Vec::new();
                    let mut i: usize = 0;
                    while i < *n
                        invariant
                            i <= *n,
                            cs@ == caret_row(i as nat),
                        decreases *n - i,
                    {
                        cs.push('^');
                        i = i + 1;
                        assert(cs@ =~= caret_row(i as nat));
                    }
                    let carets = text_of(&cs);
                    let shown_text = colored_text(paint(carets.as_str(), colour));
                    append_text(&mut out, &shown_text);
                    proof {
                        assert(!carets@.contains('\x1B')) by {
                            if carets@.contains('\x1B') {
                                let j = choose|j: int| 0 <= j < carets@.len() && carets@[j] == '\x1B';
                                assert(caret_row(*n as nat)[j] == '^');
                            }
                        }
                        assert(all[k as int] == PartView::Carets(*n as nat));
                        painted = painted.push(shown_text@);
                    }
                },
            }
            proof {
                let p = all.take(k + 1);
                assert(p.drop_last() =~= all.take(k as int));
                lemma_shown_prefix(p.drop_last(), before, painted);
            }
            k = k + 1;
        }
        assert(all.take(parts@.len() as int) =~= all);
        assert(carets_painted(all, painted));
        out
    }
}

/// What parts show depends only on the paintings of their own rows.
proof fn lemma_shown_prefix(parts: Seq<PartView>, a: Seq<Seq<char>>, b: Seq<Seq<char>>)
    requires
        a.len() >= parts.len(),
        b.len() >= parts.len(),
        forall|i: int| 0 <= i < parts.len() ==> a[i] == b[i],
    ensures
        shown(parts, a) == shown(parts, b),
    decreases parts.len(),
{
    if parts.len() > 0 {
        lemma_shown_prefix(parts.drop_last(), a, b);
    }
}

/// The text an error's parts show, the `i`-th part with the paintings
/// `painted[i]`.
pub open spec fn shown_body(body: Seq<OptionView>, source: Seq<char>, file: Seq<char>, painted: Seq<Seq<Seq<char>>>) -> Seq<char>
    decreases body.len(),
{
    if body.len() == 0 {
        Seq::empty()
    } else {
        shown_body(body.drop_last(), source, file, painted)
            + shown(option_parts(body.last(), source, file), painted[body.len() - 1])
    }
}

proof fn lemma_shown_body_prefix(body: Seq<OptionView>, source: Seq<char>, file: Seq<char>, a: Seq<Seq<Seq<char>>>, b: Seq<Seq<Seq<char>>>)
    requires
        a.len() >= body.len(),
        b.len() >= body.len(),
        forall|i: int| 0 <= i < body.len() ==> a[i] == b[i],
    ensures
        shown_body(body, source, file, a) == shown_body(body, source, file, b),
    decreases body.len(),
{
    if body.len() > 0 {
        lemma_shown_body_prefix(body.drop_last(), source, file, a, b);
    }
}

impl Error {
    /// The text the error shows for `source` of file `file`: its parts'
    /// texts one after the other.
    pub fn build(self, fs: (&str, &str)) -> (r: String)
        requires
            forall|i: int| 0 <= i < self.body().len() ==> option_renderable(#[trigger] self.body()[i], fs.1@),
        ensures
            exists|painted: Seq<Seq<Seq<char>>>| r@ == shown_body(self.body(), fs.1@, fs.0@, painted) && forall|i: int|
                0 <= i < self.body().len() ==> carets_painted(option_parts(#[trigger] self.body()[i], fs.1@, fs.0@), painted[i]),
    {
        let ghost all = self.body();
        let mut body = self.body;
        let mut reversed: Vec<ErrorOption> = Vec::new();
        let n = body.len();
        while body.len() > 0
            invariant
                reversed@.len() + body@.len() == n,
                all.len() == n,
                forall|i: int| 0 <= i < body@.len() ==> option_view(#[trigger] body@[i]) == all[i],
                forall|i: int| 0 <= i < reversed@.len() ==> option_view(#[trigger] reversed@[i]) == all[n - 1 - i],
            decreases body@.len(),
        {
            let o = body.pop().unwrap();
            reversed.push(o);
        }
        let mut out = String::new();
        let ghost mut painted: Seq<Seq<Seq<char>>> = Seq::empty();
        let mut k: usize = 0;
        while reversed.len() > 0
            invariant
                k + reversed@.len() == n,
                all.len() == n,
                forall|i: int| 0 <= i < reversed@.len() ==> option_view(#[trigger] reversed@[i]) == all[n - 1 - i],
                forall|i: int| 0 <= i < all.len() ==> option_renderable(#[trigger] all[i], fs.1@),
                painted.len() == k,
                out@ == shown_body(all.take(k as int), fs.1@, fs.0@, painted),
                forall|i: int| 0 <= i < k ==> carets_painted(option_parts(#[trigger] all[i], fs.1@, fs.0@), painted[i]),
            decreases reversed@.len(),
        {
            let o = reversed.pop().unwrap();
            assert(option_view(o) == all[k as int]);
            let text = o.build(fs);
            let ghost p = choose|p: Seq<Seq<char>>| text@ == shown(option_parts(all[k as int], fs.1@, fs.0@), p) && carets_painted(
                option_parts(all[k as int], fs.1@, fs.0@),
                p,
            );
            let ghost before = painted;
            append_text(&mut out, &text);
            proof {
                painted = painted.push(p);
                let b = all.take(k + 1);
                assert(b.drop_last() =~= all.take(k as int));
                lemma_shown_body_prefix(b.drop_last(), fs.1@, fs.0@, before, painted);
            }
            k = k + 1;
        }
        assert(all.take(n as int) =~= all);
        out
    }
}

} // verus!
