//! How lines and boxes look.
use vstd::prelude::*;
use vstd::string::*;

use crate::list::{last_index, lemma_last_index};
use crate::text::{
    contains, is_space, is_upper, occurs_at, repeat, starts_with, trim_end, trim_start,
};
use crate::ui::{
    after_cut, all_wrapped, blank, box_of, box_rows, box_width, continuation, cut, edge,
    first_occurrence, full_width, has_label, indent, inside, label_line, lemma_trim_len, padded,
    room, rows_text, wrapped, wrapped_lines,
};

verus! {

// ---------------------------------------------------------------------------
// Lines with a label
// ---------------------------------------------------------------------------
/// The values of labels of up to eleven characters stand below each other, in the
/// fourteenth column; a longer label keeps two spaces behind it.
pub proof fn values_stand_below_each_other(label: Seq<char>, value: Seq<char>)
    ensures
        label.len() <= 11 ==> {
            let line = label_line(label, value);
            &&& line.len() == 13 + value.len()
            &&& line.take(label.len() as int) == label
            &&& line.skip(13) == value
            &&& forall|i: int| label.len() <= i < 13 ==> #[trigger] line[i] == ' '
        },
        label.len() > 11 ==> label_line(label, value) == label + "  "@ + value,
{
    reveal_strlit("  ");
    if label.len() <= 11 {
        let line = label_line(label, value);
        assert(padded(label, 11).len() == 11);
        assert(line.take(label.len() as int) =~= label);
        assert(line.skip(13) =~= value);
    }
}

/// Two lines with the same label differ where their values do.
pub proof fn lines_tell_their_values(label: Seq<char>, a: Seq<char>, b: Seq<char>)
    requires
        a != b,
    ensures
        label_line(label, a) != label_line(label, b),
{
    let front = padded(label, 11) + "  "@;
    if label_line(label, a) == label_line(label, b) {
        assert(a =~= (front + a).skip(front.len() as int));
        assert(b =~= (front + b).skip(front.len() as int));
    }
}

// ---------------------------------------------------------------------------
// How wide a box is
// ---------------------------------------------------------------------------
/// A box is as wide as its terminal, but no narrower than 5 and no wider than 92
/// columns; without a terminal, or where its width is not known, it has 92.
pub proof fn boxes_fit_their_terminal(n: u16, columns: Option<u16>)
    ensures
        5 <= n <= 92 ==> box_width(true, Some(n)) == n,
        n < 5 ==> box_width(true, Some(n)) == 5,
        n > 92 ==> box_width(true, Some(n)) == 92,
        box_width(true, None) == 92,
        box_width(false, columns) == 92,
{
}

// ---------------------------------------------------------------------------
// Wrapping
// ---------------------------------------------------------------------------
/// A text that fits into a line stays one, without the whitespace at its end.
pub proof fn short_lines_are_not_wrapped(text: Seq<char>, width: nat)
    requires
        trim_end(text).len() <= width,
    ensures
        text.len() == 0 ==> wrapped_lines(text, width) == seq![Seq::<char>::empty()],
        trim_end(text).len() > 0 ==> wrapped_lines(text, width) == seq![trim_end(text)],
{
    lemma_trim_len(text);
    let none = Seq::<char>::empty();
    assert(none + trim_end(text) =~= trim_end(text));
}

/// A line that is too long is cut at the last space that leaves it at least half of
/// its room, and within a word only where there is no such space. What follows the cut
/// begins without whitespace.
pub proof fn long_lines_are_cut_at_spaces(text: Seq<char>, n: nat, i: int)
    requires
        1 <= n < text.len(),
        0 <= i < n,
        text[i] == ' ',
    ensures
        n / 2 <= i ==> i <= cut(text, n) < n && text[cut(text, n)] == ' ',
        (forall|j: int| n / 2 <= j < n ==> #[trigger] text[j] != ' ') ==> cut(text, n) == n,
{
    let front = text.take(n as int);
    lemma_last_index(front, blank());
    assert(front[i] == ' ');
    assert(blank()(front[i]));
    let k = last_index(front, blank())->0;
    assert(blank()(front[k]));
    assert(front[k] == text[k]);
    if k < i {
        assert(!blank()(front[i]));
    }
}

/// Where there is no space, a line is cut where its room ends.
pub proof fn words_are_cut_where_they_must_be(text: Seq<char>, n: nat)
    requires
        1 <= n < text.len(),
        forall|j: int| 0 <= j < n ==> #[trigger] text[j] != ' ',
    ensures
        cut(text, n) == n,
{
    let front = text.take(n as int);
    lemma_last_index(front, blank());
    if last_index(front, blank()) is Some {
        let k = last_index(front, blank())->0;
        assert(blank()(front[k]));
        assert(front[k] == text[k]);
    }
}

/// The first line of a text begins as the text does, the others begin with the
/// continuation.
proof fn lemma_wrapped_starts(
    text: Seq<char>,
    width: nat,
    prefix: Seq<char>,
    next: Seq<char>,
    i: int,
)
    requires
        0 <= i < wrapped(text, width, prefix, next).len(),
    ensures
        i == 0 ==> starts_with(wrapped(text, width, prefix, next)[i], prefix),
        i > 0 ==> starts_with(wrapped(text, width, prefix, next)[i], next),
    decreases i,
{
    let n = room(width, prefix);
    let all = wrapped(text, width, prefix, next);
    if text.len() <= n {
        assert((prefix + text).subrange(0, prefix.len() as int) =~= prefix);
    } else {
        let first = prefix + trim_end(text.take(cut(text, n)));
        let rest = wrapped(after_cut(text, n), width, next, next);
        assert(all == seq![first] + rest);
        assert(first.subrange(0, prefix.len() as int) =~= prefix);
        if i > 0 {
            assert(all[i] == rest[i - 1]);
            lemma_wrapped_starts(after_cut(text, n), width, next, next, i - 1);
        }
    }
}

/// The lines behind the first begin with the continuation of the text.
pub proof fn further_lines_are_indented(text: Seq<char>, width: nat, i: int)
    requires
        0 < i < wrapped_lines(text, width).len(),
    ensures
        starts_with(wrapped_lines(text, width)[i], continuation(text, width)),
{
    lemma_wrapped_starts(trim_end(text), width, Seq::empty(), continuation(text, width), i);
}

/// The value of a line with a label goes on below itself: behind thirteen spaces.
pub proof fn values_go_on_below_themselves(label: Seq<char>, value: Seq<char>, width: nat)
    requires
        0 < label.len() <= 9,
        forall|i: int| 0 <= i < label.len() ==> is_upper(#[trigger] label[i]),
        width >= 14,
    ensures
        continuation(label_line(label, value), width) == "             "@,
{
    reveal_strlit("  ");
    let text = label_line(label, value);
    let n = label.len() as int;
    values_stand_below_each_other(label, value);
    assert(text[n] == ' ' && text[n + 1] == ' ');
    assert(text.subrange(n, n + 2) =~= "  "@);
    assert(occurs_at(text, "  "@, n));
    assert forall|j: int| 0 <= j < n implies !#[trigger] occurs_at(text, "  "@, j) by {
        assert(text.take(n)[j] == label[j]);
        assert(is_upper(label[j]));
        if occurs_at(text, "  "@, j) {
            assert(text.subrange(j, j + 2)[0] == ' ');
        }
    }
    let at = first_occurrence(text, "  "@)->0;
    assert(occurs_at(text, "  "@, at) && forall|j: int|
        0 <= j < at ==> !#[trigger] occurs_at(text, "  "@, j));
    assert(at == n) by {
        if at < n {
            assert(!occurs_at(text, "  "@, at));
        } else if at > n {
            assert(!occurs_at(text, "  "@, n));
        }
    }
    assert(text.take(at) == label);
    assert(has_label(text));
    reveal_strlit("             ");
    assert(repeat(' ', 13) =~= "             "@);
}

/// A text without a label goes on below itself: behind the whitespace with which it
/// begins, as far as that leaves a column.
pub proof fn indented_text_goes_on_below_itself(text: Seq<char>, width: nat)
    requires
        !contains(text, "  "@),
        text.len() > 0,
        width >= 2,
    ensures
        text[0] != ' ' && !is_space(text[0]) ==> continuation(text, width).len() == 0,
        text[0] == ' ' && text.len() > 1 && !is_space(text[1]) ==> continuation(text, width)
            == " "@,
{
    reveal_strlit(" ");
    if text[0] == ' ' && text.len() > 1 && !is_space(text[1]) {
        let rest = text.drop_first();
        assert(is_space(text.first()));
        assert(!is_space(rest.first()));
        assert(trim_start(rest) == rest);
        assert(indent(text) =~= " "@);
    }
}

// ---------------------------------------------------------------------------
// The box
// ---------------------------------------------------------------------------
/// An edge has its corners at its ends and a line between them.
pub proof fn edges_have_their_corners(left: char, right: char, width: nat, i: int)
    requires
        width >= 2,
    ensures
        edge(left, right, width).len() == width,
        edge(left, right, width)[0] == left,
        edge(left, right, width)[width - 1] == right,
        0 < i < width - 1 ==> edge(left, right, width)[i] == '─',
{
}

/// A line inside a box stands between its sides, with spaces behind it.
pub proof fn lines_stand_between_the_sides(text: Seq<char>, width: nat, i: int)
    requires
        text.len() <= width,
    ensures
        inside(text, width).len() == width + 4,
        inside(text, width)[0] == '│',
        inside(text, width)[1] == ' ',
        0 <= i < text.len() ==> inside(text, width)[2 + i] == text[i],
        text.len() <= i < width ==> inside(text, width)[2 + i] == ' ',
        inside(text, width)[width + 2int] == ' ',
        inside(text, width)[width + 3int] == '│',
{
    reveal_strlit("│ ");
    reveal_strlit(" │");
}

/// A box has an upper edge, its title, a middle edge, its lines, and a lower edge.
/// It is at least five columns wide, and four of them are its sides.
pub proof fn boxes_hold_title_and_lines(
    title: Seq<char>,
    lines: Seq<Seq<char>>,
    width: nat,
    i: int,
)
    requires
        width >= 5,
    ensures
        ({
            let inner = (width - 4) as nat;
            let rows = box_rows(title, lines, width);
            let head = wrapped_lines("RZ :: "@ + title, inner);
            let body = all_wrapped(lines, inner);
            &&& rows.len() == 3 + head.len() + body.len()
            &&& rows[0] == edge('╭', '╮', width)
            &&& 0 <= i < head.len() ==> rows[1 + i] == inside(head[i], inner)
            &&& rows[1int + head.len()] == edge('├', '┤', width)
            &&& 0 <= i < body.len() ==> rows[2 + head.len() + i] == inside(body[i], inner)
            &&& rows.last() == edge('╰', '╯', width)
        }),
        full_width(width) == width,
{
}

/// A box that is asked to be narrower than five columns has five.
pub proof fn narrow_boxes_have_five_columns(title: Seq<char>, lines: Seq<Seq<char>>, width: nat)
    requires
        width < 5,
    ensures
        box_of(title, lines, width) == box_of(title, lines, 5),
{
}

/// The lines of a box are those of its first lines and of each one behind them; each
/// of its rows ends in a line break.
pub proof fn boxes_are_written_row_by_row(
    lines: Seq<Seq<char>>,
    line: Seq<char>,
    rows: Seq<Seq<char>>,
    row: Seq<char>,
    width: nat,
)
    ensures
        all_wrapped(Seq::empty(), width).len() == 0,
        all_wrapped(lines.push(line), width) == all_wrapped(lines, width) + wrapped_lines(
            line,
            width,
        ),
        rows_text(Seq::empty()).len() == 0,
        rows_text(rows.push(row)) == rows_text(rows) + row.push('\n'),
{
    let f = |line: Seq<char>| wrapped_lines(line, width);
    let g = |row: Seq<char>| row.push('\n');
    assert(lines.push(line).map_values(f).drop_last() =~= lines.map_values(f));
    assert(rows.push(row).map_values(g).drop_last() =~= rows.map_values(g));
    assert(Seq::<Seq<char>>::empty().map_values(f).len() == 0);
    assert(Seq::<Seq<char>>::empty().map_values(g).len() == 0);
}

} // verus!
