//! Reports in a box that fits the terminal.
use vstd::prelude::*;
use vstd::string::*;

use crate::error::Error;
use crate::list::{flat, last_index, last_place, lemma_last_index, select};
use crate::text::{
    char_is_upper, chars_of, contains, first_at, is_space, is_upper, leading_spaces, occurs_at,
    repeat, repeated, text_between, texts, trim_end, trim_start, trimmed_end, trimmed_start,
};

verus! {

/// The width of the widest box.
pub const MAX_BOX_WIDTH: usize = 92;

// ---------------------------------------------------------------------------
// Lines with a label
// ---------------------------------------------------------------------------
/// `s` with spaces behind it up to `n` characters.
pub open spec fn padded(s: Seq<char>, n: nat) -> Seq<char> {
    if s.len() < n {
        s + repeat(' ', (n - s.len()) as nat)
    } else {
        s
    }
}

/// A line with a label in front.
pub open spec fn label_line(label: Seq<char>, value: Seq<char>) -> Seq<char> {
    padded(label, 11) + "  "@ + value
}

/// A line with a label in front.
pub fn labeled(label: &str, value: &str) -> (r: String)
    ensures
        r@ == label_line(label@, value@),
{
    let n: usize = chars_of(label).len();
    let mut r = label.to_owned();
    if n < 11 {
        r.append(repeated(' ', 11 - n).as_str());
    }
    r.append("  ");
    r.append(value);
    r
}

// ---------------------------------------------------------------------------
// How wide a box is
// ---------------------------------------------------------------------------
/// How wide a box is where the output goes: as wide as the terminal, from 5 to 92
/// columns, and 92 where there is no terminal or its width is not known.
pub open spec fn box_width(is_terminal: bool, columns: Option<u16>) -> int {
    match columns {
        Some(n) => if !is_terminal || n > 92 {
            92
        } else if n < 5 {
            5
        } else {
            n as int
        },
        None => 92,
    }
}

/// How wide a box is where the output goes.
pub fn output_width(is_terminal: bool, columns: Option<u16>) -> (r: usize)
    ensures
        r == box_width(is_terminal, columns),
{
    if !is_terminal {
        return MAX_BOX_WIDTH;
    }
    match columns {
        Some(n) => {
            let width: usize = n as usize;
            if width < 5 {
                5
            } else if width > MAX_BOX_WIDTH {
                MAX_BOX_WIDTH
            } else {
                width
            }
        },
        None => MAX_BOX_WIDTH,
    }
}

// ---------------------------------------------------------------------------
// Wrapping
// ---------------------------------------------------------------------------
/// Where `t` first stands in `s`.
pub open spec fn first_occurrence(s: Seq<char>, t: Seq<char>) -> Option<int> {
    if contains(s, t) {
        Some(
            choose|i: int|
                occurs_at(s, t, i) && forall|j: int| 0 <= j < i ==> !#[trigger] occurs_at(s, t, j),
        )
    } else {
        None
    }
}

/// Whether `s` reads as a label: capital letters and spaces, at most eleven.
pub open spec fn is_label(s: Seq<char>) -> bool {
    &&& 0 < s.len() <= 11
    &&& forall|i: int| 0 <= i < s.len() ==> #[trigger] s[i] == ' ' || is_upper(s[i])
}

/// Whether `text` begins with a label and two spaces.
pub open spec fn has_label(text: Seq<char>) -> bool {
    match first_occurrence(text, "  "@) {
        Some(i) => is_label(text.take(i)),
        None => false,
    }
}

/// The whitespace with which `text` begins.
pub open spec fn indent(text: Seq<char>) -> Seq<char> {
    text.take(text.len() - trim_start(text).len())
}

/// `s`, cut off where it is longer than `n` characters.
pub open spec fn at_most(s: Seq<char>, n: int) -> Seq<char> {
    if s.len() <= n {
        s
    } else {
        s.take(n)
    }
}

/// What stands in front of the lines behind the first: room for the label, or the
/// whitespace with which the text begins. It leaves at least one column.
pub open spec fn continuation(text: Seq<char>, width: nat) -> Seq<char> {
    at_most(
        if has_label(text) {
            repeat(' ', 13)
        } else {
            indent(text)
        },
        if width > 0 {
            width - 1
        } else {
            0
        },
    )
}

/// How many columns a prefix leaves, at least one.
pub open spec fn room(width: nat, prefix: Seq<char>) -> nat {
    if width > prefix.len() {
        (width - prefix.len()) as nat
    } else {
        1
    }
}

/// Accepts a space.
pub open spec fn blank() -> spec_fn(char) -> bool {
    |c: char| c == ' '
}

/// Where a text is cut that is longer than `n`: at the last space among its first
/// `n` characters that leaves at least half of them, else behind them.
pub open spec fn cut(text: Seq<char>, n: nat) -> int {
    match last_index(text.take(n as int), blank()) {
        Some(i) => if i >= n / 2 {
            i
        } else {
            n as int
        },
        None => n as int,
    }
}

/// What is left of a text that is cut.
pub open spec fn after_cut(text: Seq<char>, n: nat) -> Seq<char> {
    trim_start(text.skip(cut(text, n)))
}

/// The lines of `text`, the first with `prefix` in front, the others with `next`.
pub open spec fn wrapped(text: Seq<char>, width: nat, prefix: Seq<char>, next: Seq<char>) -> Seq<
    Seq<char>,
>
    decreases text.len(),
    via wrapped_decreases
{
    let n = room(width, prefix);
    if text.len() == 0 {
        Seq::empty()
    } else if text.len() <= n {
        seq![prefix + text]
    } else {
        seq![prefix + trim_end(text.take(cut(text, n)))] + wrapped(
            after_cut(text, n),
            width,
            next,
            next,
        )
    }
}

#[via_fn]
proof fn wrapped_decreases(text: Seq<char>, width: nat, prefix: Seq<char>, next: Seq<char>) {
    let n = room(width, prefix);
    if text.len() > n {
        lemma_cut(text, n);
    }
}

/// Trimming makes no text longer.
pub proof fn lemma_trim_len(s: Seq<char>)
    ensures
        trim_start(s).len() <= s.len(),
        trim_end(s).len() <= s.len(),
    decreases s.len(),
{
    if s.len() > 0 {
        lemma_trim_len(s.drop_first());
        lemma_trim_len(s.drop_last());
    }
}

/// A cut leaves less.
proof fn lemma_cut(text: Seq<char>, n: nat)
    requires
        1 <= n < text.len(),
    ensures
        0 <= cut(text, n) <= n,
        after_cut(text, n).len() < text.len(),
{
    let front = text.take(n as int);
    lemma_last_index(front, blank());
    let at = cut(text, n);
    let rest = text.skip(at);
    lemma_trim_len(rest);
    if at == 0 {
        assert(front[0] == ' ');
        assert(rest.first() == ' ');
        assert(is_space(rest.first()));
        lemma_trim_len(rest.drop_first());
    }
}

/// The lines of `text` in a box with room for `width` columns.
pub open spec fn wrapped_lines(text: Seq<char>, width: nat) -> Seq<Seq<char>> {
    if text.len() == 0 {
        seq![Seq::empty()]
    } else {
        wrapped(trim_end(text), width, Seq::empty(), continuation(text, width))
    }
}

/// Whether the first `n` characters of `text` read as a label.
fn reads_as_label(text: &Vec<char>, n: usize) -> (r: bool)
    requires
        n <= text@.len(),
    ensures
        r == is_label(text@.take(n as int)),
{
    let ghost label = text@.take(n as int);
    if n == 0 || n > 11 {
        return false;
    }
    let mut i: usize = 0;
    while i < n
        invariant
            0 < n <= 11,
            i <= n <= text@.len(),
            label == text@.take(n as int),
            forall|k: int| 0 <= k < i ==> #[trigger] label[k] == ' ' || is_upper(label[k]),
        decreases n - i,
    {
        if text[i] != ' ' && !char_is_upper(text[i]) {
            assert(label[i as int] == text@[i as int]);
            return false;
        }
        i = i + 1;
    }
    true
}

/// Whether `text` begins with a label and two spaces.
fn begins_with_label(text: &Vec<char>) -> (r: bool)
    ensures
        r == has_label(text@),
{
    match first_at(text, &chars_of("  ")) {
        Some(at) => {
            proof {
                let i = first_occurrence(text@, "  "@)->0;
                assert(occurs_at(text@, "  "@, at as int));
                assert(occurs_at(text@, "  "@, i) && forall|j: int|
                    0 <= j < i ==> !#[trigger] occurs_at(text@, "  "@, j));
                assert(i == at);
            }
            reads_as_label(text, at)
        },
        None => false,
    }
}

/// What stands in front of the lines behind the first.
pub fn continuation_prefix(text: &str, width: usize) -> (r: String)
    ensures
        r@ == continuation(text@, width as nat),
{
    let chars = chars_of(text);
    let limit: usize = if width > 0 {
        width - 1
    } else {
        0
    };
    if begins_with_label(&chars) {
        let n: usize = if limit < 13 {
            limit
        } else {
            13
        };
        let r = repeated(' ', n);
        assert(r@ =~= at_most(repeat(' ', 13), limit as int));
        r
    } else {
        let spaces: usize = leading_spaces(&chars);
        let n: usize = if limit < spaces {
            limit
        } else {
            spaces
        };
        let r = text_between(&chars, 0, n);
        assert(r@ =~= at_most(indent(text@), limit as int));
        r
    }
}

/// Where a text is cut that is longer than `n`.
fn cut_at(text: &Vec<char>, n: usize) -> (r: usize)
    requires
        1 <= n < text@.len(),
    ensures
        r == cut(text@, n as nat),
        r <= n,
{
    let accepts = |k: usize| -> (b: bool)
        requires
            k < text@.len(),
        ensures
            b == (text@[k as int] == ' '),
    { text[k] == ' ' };
    let ghost front = text@.take(n as int);
    match last_place::<char, _>(n, accepts, Ghost(front), Ghost(blank())) {
        Some(i) => {
            if i >= n / 2 {
                i
            } else {
                n
            }
        },
        None => n,
    }
}

/// The lines of `text` in a box with room for `width` columns.
pub fn wrap_line(text: &str, width: usize) -> (r: Vec<String>)
    ensures
        texts(r@) == wrapped_lines(text@, width as nat),
{
    let mut r: Vec<String> = Vec::new();
    if text.is_empty() {
        r.push(String::new());
        assert(texts(r@) =~= seq![Seq::empty()]);
        return r;
    }
    let next = continuation_prefix(text, width);
    let next_length: usize = chars_of(next.as_str()).len();
    let mut remaining = trimmed_end(text);
    let mut first = true;
    let ghost whole = wrapped_lines(text@, width as nat);
    assert(texts(r@) + wrapped(remaining@, width as nat, Seq::empty(), next@) =~= whole);
    while !remaining.as_str().is_empty()
        invariant
            whole == wrapped_lines(text@, width as nat),
            next@ == continuation(text@, width as nat),
            next_length == next@.len(),
            whole == texts(r@) + wrapped(
                remaining@,
                width as nat,
                if first {
                    Seq::empty()
                } else {
                    next@
                },
                next@,
            ),
        decreases remaining@.len(),
    {
        let ghost prefix = if first {
            Seq::empty()
        } else {
            next@
        };
        let mut line = if first {
            String::new()
        } else {
            next.clone()
        };
        assert(line@ == prefix);
        let taken: usize = if first {
            0
        } else {
            next_length
        };
        let n: usize = if width > taken {
            width - taken
        } else {
            1
        };
        assert(n == room(width as nat, prefix));
        let chars = chars_of(remaining.as_str());
        let ghost before = r@;
        if chars.len() <= n {
            line.append(remaining.as_str());
            r.push(line);
            assert(texts(r@) =~= texts(before) + seq![prefix + remaining@]);
            assert(texts(r@) =~= whole);
            return r;
        }
        let at: usize = cut_at(&chars, n);
        let head = text_between(&chars, 0, at);
        let tail = text_between(&chars, at, chars.len());
        proof {
            lemma_cut(remaining@, n as nat);
            assert(head@ =~= remaining@.take(at as int));
            assert(tail@ =~= remaining@.skip(at as int));
        }
        line.append(trimmed_end(head.as_str()).as_str());
        r.push(line);
        assert(texts(r@) =~= texts(before).push(line@));
        assert(texts(r@) + wrapped(
            after_cut(remaining@, n as nat),
            width as nat,
            next@,
            next@,
        ) =~= whole);
        remaining = trimmed_start(tail.as_str());
        first = false;
    }
    assert(texts(r@) =~= whole);
    r
}

// ---------------------------------------------------------------------------
// The box
// ---------------------------------------------------------------------------
/// The upper, middle or lower edge of a box.
pub open spec fn edge(left: char, right: char, width: nat) -> Seq<char> {
    seq![left] + repeat('─', (width - 2) as nat) + seq![right]
}

/// A line inside a box.
pub open spec fn inside(text: Seq<char>, width: nat) -> Seq<char> {
    "│ "@ + padded(text, width) + " │"@
}

/// Lines inside a box.
pub open spec fn inside_all(lines: Seq<Seq<char>>, width: nat) -> Seq<Seq<char>> {
    lines.map_values(|line: Seq<char>| inside(line, width))
}

/// The width of a box that is asked to be `width` wide.
pub open spec fn full_width(width: nat) -> nat {
    if width < 5 {
        5
    } else {
        width
    }
}

/// The lines of all of `lines`, each wrapped.
pub open spec fn all_wrapped(lines: Seq<Seq<char>>, width: nat) -> Seq<Seq<char>> {
    flat(lines.map_values(|line: Seq<char>| wrapped_lines(line, width)))
}

/// The rows of a box: its edges, its title, and its lines.
pub open spec fn box_rows(title: Seq<char>, lines: Seq<Seq<char>>, width: nat) -> Seq<Seq<char>> {
    let full = full_width(width);
    let inner = (full - 4) as nat;
    seq![edge('╭', '╮', full)] + inside_all(wrapped_lines("RZ :: "@ + title, inner), inner)
        + seq![edge('├', '┤', full)] + inside_all(all_wrapped(lines, inner), inner) + seq![
        edge('╰', '╯', full),
    ]
}

/// Rows as text, each with its line break.
pub open spec fn rows_text(rows: Seq<Seq<char>>) -> Seq<char> {
    flat(rows.map_values(|row: Seq<char>| row.push('\n')))
}

/// A box.
pub open spec fn box_of(title: Seq<char>, lines: Seq<Seq<char>>, width: nat) -> Seq<char> {
    rows_text(box_rows(title, lines, width))
}

proof fn lemma_rows_text_push(rows: Seq<Seq<char>>, row: Seq<char>)
    ensures
        rows_text(rows.push(row)) == rows_text(rows) + row.push('\n'),
{
    let f = |row: Seq<char>| row.push('\n');
    assert(rows.push(row).map_values(f).drop_last() =~= rows.map_values(f));
}

/// Adds an edge.
fn push_edge(output: &mut String, left: char, right: char, width: usize, Ghost(rows): Ghost<
    Seq<Seq<char>>,
>)
    requires
        width >= 2,
        old(output)@ == rows_text(rows),
    ensures
        final(output)@ == rows_text(rows.push(edge(left, right, width as nat))),
{
    let ghost before = output@;
    output.push(left);
    output.append(repeated('─', width - 2).as_str());
    output.push(right);
    output.push('\n');
    proof {
        lemma_rows_text_push(rows, edge(left, right, width as nat));
        assert(output@ =~= before + edge(left, right, width as nat).push('\n'));
    }
}

/// Adds a line inside a box.
pub fn push_box_line(output: &mut String, text: &str, width: usize)
    ensures
        final(output)@ == old(output)@ + inside(text@, width as nat).push('\n'),
{
    let ghost before = output@;
    let n: usize = chars_of(text).len();
    output.append("│ ");
    output.append(text);
    if n < width {
        output.append(repeated(' ', width - n).as_str());
    }
    output.append(" │\n");
    proof {
        reveal_strlit(" │\n");
        reveal_strlit(" │");
        assert(output@ =~= before + inside(text@, width as nat).push('\n'));
    }
}

/// Adds the lines of `text` inside a box.
fn push_wrapped(output: &mut String, text: &str, width: usize, Ghost(rows): Ghost<Seq<Seq<char>>>)
    requires
        old(output)@ == rows_text(rows),
    ensures
        final(output)@ == rows_text(
            rows + inside_all(wrapped_lines(text@, width as nat), width as nat),
        ),
{
    let parts = wrap_line(text, width);
    let ghost all = inside_all(wrapped_lines(text@, width as nat), width as nat);
    let mut i: usize = 0;
    assert(rows + all.take(0) =~= rows);
    while i < parts.len()
        invariant
            texts(parts@) == wrapped_lines(text@, width as nat),
            all == inside_all(wrapped_lines(text@, width as nat), width as nat),
            i <= parts@.len(),
            output@ == rows_text(rows + all.take(i as int)),
        decreases parts@.len() - i,
    {
        push_box_line(output, parts[i].as_str(), width);
        proof {
            assert(all[i as int] == inside(parts@[i as int]@, width as nat));
            lemma_rows_text_push(rows + all.take(i as int), all[i as int]);
            assert((rows + all.take(i as int)).push(all[i as int]) =~= rows + all.take(i + 1));
        }
        i = i + 1;
    }
    assert(all.take(i as int) == all);
}

/// A box with a title and lines.
pub fn box_text(title: &str, lines: &Vec<String>, width: usize) -> (r: String)
    ensures
        r@ == box_of(title@, texts(lines@), width as nat),
{
    let full: usize = if width < 5 {
        5
    } else {
        width
    };
    let inner: usize = full - 4;
    let ghost n = inner as nat;
    let ghost model = texts(lines@);
    let mut output = String::new();
    let ghost none = Seq::<Seq<char>>::empty();
    assert(output@ =~= rows_text(none));
    push_edge(&mut output, '╭', '╮', full, Ghost(none));
    let ghost top = none.push(edge('╭', '╮', full as nat));
    let mut heading = "RZ :: ".to_owned();
    heading.append(title);
    push_wrapped(&mut output, heading.as_str(), inner, Ghost(top));
    let ghost titled = top + inside_all(wrapped_lines("RZ :: "@ + title@, n), n);
    push_edge(&mut output, '├', '┤', full, Ghost(titled));
    let ghost middle = titled.push(edge('├', '┤', full as nat));
    let mut i: usize = 0;
    assert(middle + inside_all(all_wrapped(model.take(0), n), n) =~= middle);
    while i < lines.len()
        invariant
            model == texts(lines@),
            n == inner,
            i <= lines@.len(),
            output@ == rows_text(middle + inside_all(all_wrapped(model.take(i as int), n), n)),
        decreases lines@.len() - i,
    {
        let ghost before = middle + inside_all(all_wrapped(model.take(i as int), n), n);
        push_wrapped(&mut output, lines[i].as_str(), inner, Ghost(before));
        proof {
            let f = |line: Seq<char>| wrapped_lines(line, n);
            assert(model[i as int] == lines@[i as int]@);
            assert(model.take(i + 1).map_values(f).drop_last() =~= model.take(i as int).map_values(
                f,
            ));
            assert(before + inside_all(wrapped_lines(model[i as int], n), n) =~= middle
                + inside_all(all_wrapped(model.take(i + 1), n), n));
        }
        i = i + 1;
    }
    assert(model.take(i as int) == model);
    let ghost filled = middle + inside_all(all_wrapped(model, n), n);
    push_edge(&mut output, '╰', '╯', full, Ghost(filled));
    assert(filled.push(edge('╰', '╯', full as nat)) =~= box_rows(title@, model, width as nat));
    output
}

/// What is printed for a report: a box that is as wide as the output.
pub fn print_box(title: &str, lines: &Vec<String>, is_terminal: bool, columns: Option<u16>) -> (r:
    String)
    ensures
        r@ == box_of(title@, texts(lines@), box_width(is_terminal, columns) as nat),
{
    box_text(title, lines, output_width(is_terminal, columns))
}

/// What is printed for a failure.
pub fn print_error(error: &Error, is_terminal: bool, columns: Option<u16>) -> (r: String)
    ensures
        r@ == box_of("ERROR"@, seq![error@], box_width(is_terminal, columns) as nat),
{
    let lines = vec![error.message.clone()];
    assert(texts(lines@) =~= seq![error@]);
    print_box("ERROR", &lines, is_terminal, columns)
}

// ---------------------------------------------------------------------------
// What holds of every box
// ---------------------------------------------------------------------------
proof fn lemma_wrapped_fits(text: Seq<char>, width: nat, prefix: Seq<char>, next: Seq<char>)
    requires
        prefix.len() < width,
        next.len() < width,
    ensures
        forall|i: int|
            0 <= i < wrapped(text, width, prefix, next).len() ==> (
            #[trigger] wrapped(text, width, prefix, next)[i]).len() <= width,
    decreases text.len(),
{
    let n = room(width, prefix);
    if text.len() > n {
        lemma_cut(text, n);
        lemma_trim_len(text.take(cut(text, n)));
        lemma_wrapped_fits(after_cut(text, n), width, next, next);
        let rest = wrapped(after_cut(text, n), width, next, next);
        let all = wrapped(text, width, prefix, next);
        assert forall|i: int| 0 <= i < all.len() implies (#[trigger] all[i]).len() <= width by {
            if i > 0 {
                assert(all[i] == rest[i - 1]);
            }
        }
    }
}

/// Every line of a wrapped text fits.
pub proof fn wrapped_lines_fit(text: Seq<char>, width: nat)
    requires
        width > 0,
    ensures
        forall|i: int|
            0 <= i < wrapped_lines(text, width).len() ==> (#[trigger] wrapped_lines(
                text,
                width,
            )[i]).len() <= width,
{
    if text.len() > 0 {
        lemma_trim_len(text);
        lemma_wrapped_fits(trim_end(text), width, Seq::empty(), continuation(text, width));
    }
}

proof fn lemma_all_wrapped_fit(lines: Seq<Seq<char>>, width: nat)
    requires
        width > 0,
    ensures
        forall|i: int|
            0 <= i < all_wrapped(lines, width).len() ==> (#[trigger] all_wrapped(
                lines,
                width,
            )[i]).len() <= width,
    decreases lines.len(),
{
    if lines.len() > 0 {
        let f = |line: Seq<char>| wrapped_lines(line, width);
        lemma_all_wrapped_fit(lines.drop_last(), width);
        wrapped_lines_fit(lines.last(), width);
        assert(lines.map_values(f).drop_last() =~= lines.drop_last().map_values(f));
        let front = all_wrapped(lines.drop_last(), width);
        let all = all_wrapped(lines, width);
        assert(all == front + wrapped_lines(lines.last(), width));
        assert forall|i: int| 0 <= i < all.len() implies (#[trigger] all[i]).len() <= width by {
            if i < front.len() {
                assert(all[i] == front[i]);
            } else {
                assert(all[i] == wrapped_lines(lines.last(), width)[i - front.len()]);
            }
        }
    }
}

/// Every row of a box is as wide as the box.
pub proof fn box_rows_are_even(title: Seq<char>, lines: Seq<Seq<char>>, width: nat)
    ensures
        forall|i: int|
            0 <= i < box_rows(title, lines, width).len() ==> (#[trigger] box_rows(
                title,
                lines,
                width,
            )[i]).len() == full_width(width),
{
    reveal_strlit("│ ");
    reveal_strlit(" │");
    let full = full_width(width);
    let inner = (full - 4) as nat;
    let head = wrapped_lines("RZ :: "@ + title, inner);
    let body = all_wrapped(lines, inner);
    wrapped_lines_fit("RZ :: "@ + title, inner);
    lemma_all_wrapped_fit(lines, inner);
    let rows = box_rows(title, lines, width);
    assert forall|i: int| 0 <= i < rows.len() implies (#[trigger] rows[i]).len() == full by {
        if i == 0 {
            assert(rows[i] == edge('╭', '╮', full));
        } else if i < 1 + head.len() {
            assert(rows[i] == inside(head[i - 1], inner));
        } else if i == 1 + head.len() {
            assert(rows[i] == edge('├', '┤', full));
        } else if i < 2 + head.len() + body.len() {
            assert(rows[i] == inside(body[i - 2 - head.len()], inner));
        } else {
            assert(rows[i] == edge('╰', '╯', full));
        }
    }
}

/// Accepts what is not whitespace.
pub open spec fn visible() -> spec_fn(char) -> bool {
    |c: char| !is_space(c)
}

/// `s` without whitespace.
pub open spec fn squeezed(s: Seq<char>) -> Seq<char> {
    select(s, visible())
}

proof fn lemma_squeezed_concat(a: Seq<char>, b: Seq<char>)
    ensures
        squeezed(a + b) == squeezed(a) + squeezed(b),
    decreases b.len(),
{
    if b.len() == 0 {
        assert(a + b =~= a);
        assert(squeezed(a) + squeezed(b) =~= squeezed(a));
    } else {
        lemma_squeezed_concat(a, b.drop_last());
        assert((a + b).drop_last() =~= a + b.drop_last());
        assert((a + b).last() == b.last());
        assert(squeezed(a + b) =~= squeezed(a) + squeezed(b));
    }
}

proof fn lemma_squeezed_blank(s: Seq<char>)
    requires
        forall|i: int| 0 <= i < s.len() ==> is_space(#[trigger] s[i]),
    ensures
        squeezed(s) == Seq::<char>::empty(),
    decreases s.len(),
{
    if s.len() > 0 {
        assert(is_space(s[s.len() - 1]));
        assert forall|i: int| 0 <= i < s.len() - 1 implies is_space(
            #[trigger] s.drop_last()[i],
        ) by {
            assert(is_space(s[i]));
        }
        lemma_squeezed_blank(s.drop_last());
    }
}

proof fn lemma_squeezed_trim(s: Seq<char>)
    ensures
        squeezed(trim_start(s)) == squeezed(s),
        squeezed(trim_end(s)) == squeezed(s),
    decreases s.len(),
{
    if s.len() > 0 {
        lemma_squeezed_trim(s.drop_first());
        lemma_squeezed_trim(s.drop_last());
        if is_space(s.first()) {
            let head = seq![s.first()];
            assert(s =~= head + s.drop_first());
            lemma_squeezed_concat(head, s.drop_first());
            lemma_squeezed_blank(head);
            assert(squeezed(head) + squeezed(s.drop_first()) =~= squeezed(s.drop_first()));
        }
    }
}

/// What the lines hold, without whitespace.
pub open spec fn squeezed_lines(lines: Seq<Seq<char>>) -> Seq<char> {
    flat(lines.map_values(|line: Seq<char>| squeezed(line)))
}

proof fn lemma_squeezed_lines_first(first: Seq<char>, rest: Seq<Seq<char>>)
    ensures
        squeezed_lines(seq![first] + rest) == squeezed(first) + squeezed_lines(rest),
    decreases rest.len(),
{
    let f = |line: Seq<char>| squeezed(line);
    let all = seq![first] + rest;
    if rest.len() == 0 {
        assert(all.map_values(f).drop_last() =~= Seq::empty());
        assert(all.map_values(f).last() == squeezed(first));
        assert(flat(Seq::<Seq<char>>::empty()) =~= Seq::<char>::empty());
        assert(rest.map_values(f) =~= Seq::empty());
        assert(squeezed_lines(all) =~= squeezed(first) + squeezed_lines(rest));
    } else {
        lemma_squeezed_lines_first(first, rest.drop_last());
        assert(all.map_values(f).drop_last() =~= (seq![first] + rest.drop_last()).map_values(f));
        assert(rest.map_values(f).drop_last() =~= rest.drop_last().map_values(f));
        assert(squeezed_lines(all) =~= squeezed(first) + squeezed_lines(rest));
    }
}

proof fn lemma_wrapped_keeps(text: Seq<char>, width: nat, prefix: Seq<char>, next: Seq<char>)
    requires
        forall|i: int| 0 <= i < prefix.len() ==> is_space(#[trigger] prefix[i]),
        forall|i: int| 0 <= i < next.len() ==> is_space(#[trigger] next[i]),
    ensures
        squeezed_lines(wrapped(text, width, prefix, next)) == squeezed(text),
    decreases text.len(),
{
    let n = room(width, prefix);
    let none = Seq::<Seq<char>>::empty();
    let f = |line: Seq<char>| squeezed(line);
    assert(none.map_values(f) =~= Seq::empty());
    assert(squeezed_lines(none) =~= Seq::empty());
    lemma_squeezed_blank(prefix);
    if text.len() == 0 {
        assert(squeezed(text) =~= Seq::empty());
    } else if text.len() <= n {
        lemma_squeezed_concat(prefix, text);
        lemma_squeezed_lines_first(prefix + text, none);
        assert(seq![prefix + text] + none =~= seq![prefix + text]);
        assert(squeezed(prefix) + squeezed(text) =~= squeezed(text));
        assert(squeezed(prefix + text) + squeezed_lines(none) =~= squeezed(text));
    } else {
        lemma_cut(text, n);
        let at = cut(text, n);
        let head = text.take(at);
        let tail = text.skip(at);
        assert(text =~= head + tail);
        lemma_squeezed_concat(head, tail);
        lemma_squeezed_trim(head);
        lemma_squeezed_trim(tail);
        lemma_squeezed_concat(prefix, trim_end(head));
        assert(squeezed(prefix) + squeezed(head) =~= squeezed(head));
        lemma_wrapped_keeps(after_cut(text, n), width, next, next);
        lemma_squeezed_lines_first(
            prefix + trim_end(head),
            wrapped(after_cut(text, n), width, next, next),
        );
    }
}

/// Wrapping loses and adds nothing but whitespace.
pub proof fn wrapping_keeps_the_text(text: Seq<char>, width: nat)
    ensures
        squeezed_lines(wrapped_lines(text, width)) == squeezed(text),
{
    if text.len() == 0 {
        let none = Seq::<Seq<char>>::empty();
        let f = |line: Seq<char>| squeezed(line);
        assert(none.map_values(f) =~= Seq::empty());
        lemma_squeezed_lines_first(Seq::empty(), none);
        assert(seq![Seq::<char>::empty()] + none =~= seq![Seq::<char>::empty()]);
        assert(squeezed(Seq::empty()) =~= Seq::<char>::empty());
        assert(squeezed_lines(none) =~= Seq::<char>::empty());
        assert(squeezed(text) =~= Seq::<char>::empty());
        assert(squeezed_lines(wrapped_lines(text, width)) =~= Seq::<char>::empty());
    } else {
        let next = continuation(text, width);
        lemma_indent_blank(text);
        lemma_squeezed_trim(text);
        lemma_wrapped_keeps(trim_end(text), width, Seq::empty(), next);
    }
}

/// What `trim_start` drops is whitespace.
proof fn lemma_indent_blank(text: Seq<char>)
    ensures
        trim_start(text).len() <= text.len(),
        forall|i: int| 0 <= i < indent(text).len() ==> is_space(#[trigger] indent(text)[i]),
    decreases text.len(),
{
    lemma_trim_len(text);
    if text.len() > 0 && is_space(text.first()) {
        let rest = text.drop_first();
        lemma_indent_blank(rest);
        lemma_trim_len(rest);
        assert forall|i: int| 0 <= i < indent(text).len() implies is_space(
            #[trigger] indent(text)[i],
        ) by {
            if i > 0 {
                assert(indent(text)[i] == indent(rest)[i - 1]);
            }
        }
    }
}

} // verus!
