//! What is asked of Ghostty, and what is read from its replies.
use vstd::prelude::*;
use vstd::string::*;

use crate::command::{ReplyModel, answer, optional_answer};
use crate::ghostty::{
    capture_of, capture_request_for, captured_reply, captured_row, captured_rows, columns,
    coordinate_field, filled, flag_field, front_window, index_field,
};
use crate::list::select;
use crate::model::RowModel;
use crate::number::{
    decimal, decimal_reads_back, lemma_decimal_digits, signed_decimal, signed_decimal_reads_back,
};
use crate::random::{hex_byte, hex_text};
use crate::text::{join, lines, lower, splitting_undoes_joining, trim};
use crate::text_laws::{is_blank, is_trim, trimming_takes_whitespace};

verus! {

// ---------------------------------------------------------------------------
// Replies
// ---------------------------------------------------------------------------
/// What a program wrote is taken without the whitespace around it, first what it wrote
/// to its output and then its errors; one that failed tells them, and one that could
/// not be started tells its name.
pub proof fn replies_are_taken_without_whitespace(
    program: Seq<char>,
    before: Seq<char>,
    text: Seq<char>,
    after: Seq<char>,
    stdout: Seq<char>,
    stderr: Seq<char>,
)
    requires
        is_blank(before),
        is_blank(after),
        is_trim(text),
        stdout + stderr == before + text + after,
    ensures
        answer(program, Some(ReplyModel { stdout, stderr, success: true })) == Ok::<
            Seq<char>,
            Seq<char>,
        >(text),
        answer(program, Some(ReplyModel { stdout, stderr, success: false })) == Err::<
            Seq<char>,
            Seq<char>,
        >(program + " failed: "@ + text),
        answer(program, None) == Err::<Seq<char>, Seq<char>>("failed to run "@ + program),
        optional_answer(Some(ReplyModel { stdout, stderr, success: true })) == Some(text),
        optional_answer(Some(ReplyModel { stdout, stderr, success: false })) is None,
        optional_answer(None) is None,
{
    trimming_takes_whitespace(before, text, after);
}

/// The window in front is the one that is told; where nothing is told there is none.
pub proof fn the_window_in_front_is_told(id: Seq<char>, stderr: Seq<char>)
    requires
        is_trim(id),
    ensures
        id.len() > 0 ==> front_window(
            Some(ReplyModel { stdout: id, stderr: Seq::empty(), success: true }),
        ) == Ok::<Seq<char>, Seq<char>>(id),
        id.len() == 0 ==> front_window(
            Some(ReplyModel { stdout: id, stderr: Seq::empty(), success: true }),
        ) == Err::<Seq<char>, Seq<char>>("Ghostty has no current window"@),
        front_window(Some(ReplyModel { stdout: id, stderr, success: false })) is Err,
        front_window(None) is Err,
{
    let none = Seq::<char>::empty();
    assert(id + none =~= none + id + none);
    trimming_takes_whitespace(none, id, none);
}

/// A capture that failed holds no rows.
pub proof fn failed_captures_hold_nothing(stdout: Seq<char>, stderr: Seq<char>)
    ensures
        captured_reply(Some(ReplyModel { stdout, stderr, success: false })) == Err::<
            Seq<RowModel>,
            Seq<char>,
        >("osascript"@ + " failed: "@ + trim(stdout + stderr)),
        captured_reply(None) == Err::<Seq<RowModel>, Seq<char>>("failed to run "@ + "osascript"@),
        captured_reply(Some(ReplyModel { stdout, stderr, success: true })) == capture_of(
            trim(stdout + stderr),
        ),
{
}

// ---------------------------------------------------------------------------
// What is asked
// ---------------------------------------------------------------------------
/// The script is told to leave the scrollback where none is asked for, and only there;
/// and the window where one is asked for, and only there.
pub proof fn captures_are_asked_for(script: Seq<char>, id: Seq<char>)
    ensures
        capture_request_for(script, true, None) == seq![script],
        capture_request_for(script, false, None) == seq![script, "--no-scrollback"@],
        capture_request_for(script, true, Some(id)) == seq![script, "--window-id"@, id],
        capture_request_for(script, false, Some(id)) == seq![
            script,
            "--no-scrollback"@,
            "--window-id"@,
            id,
        ],
{
    assert(capture_request_for(script, true, None) =~= seq![script]);
    assert(capture_request_for(script, false, None) =~= seq![script, "--no-scrollback"@]);
    assert(capture_request_for(script, true, Some(id)) =~= seq![script, "--window-id"@, id]);
    assert(capture_request_for(script, false, Some(id)) =~= seq![
        script,
        "--no-scrollback"@,
        "--window-id"@,
        id,
    ]);
}

// ---------------------------------------------------------------------------
// Rows
// ---------------------------------------------------------------------------
/// The columns of a line are read in their order: the window with its place and its
/// size, the tab, and the terminal.
pub proof fn columns_are_read_in_order(
    values: Seq<Seq<char>>,
    window: usize,
    x: i64,
    y: i64,
    width: i64,
    height: i64,
    tab: usize,
    terminal: usize,
)
    requires
        values.len() == 17,
        forall|i: int| 0 <= i < 17 ==> !(#[trigger] values[i]).contains('\t'),
        values[0] == decimal(window as nat),
        values[3] == signed_decimal(x as int),
        values[4] == signed_decimal(y as int),
        values[5] == signed_decimal(width as int),
        values[6] == signed_decimal(height as int),
        values[7] == decimal(tab as nat),
        values[11] == decimal(terminal as nat),
    ensures
        captured_row(join(values, seq!['\t'])) matches Ok(row) && {
            &&& row.window_index == window
            &&& row.window_id == values[1]
            &&& row.window_name == values[2]
            &&& row.window_x == Some(x)
            &&& row.window_y == Some(y)
            &&& row.window_width == Some(width)
            &&& row.window_height == Some(height)
            &&& row.tab_index == tab
            &&& row.tab_id == values[8]
            &&& row.tab_name == values[9]
            &&& row.tab_selected == (lower(values[10]) == "true"@)
            &&& row.terminal_index == terminal
            &&& row.terminal_id == values[12]
            &&& row.terminal_name == values[13]
            &&& row.terminal_focused == (lower(values[14]) == "true"@)
            &&& row.working_directory == values[15]
            &&& values[16].len() > 0 ==> row.scrollback_path == Some(values[16])
            &&& values[16].len() == 0 ==> row.scrollback_path is None
            &&& row.scrollback_file is None
            &&& row.agent_session is None
        },
{
    let line = join(values, seq!['\t']);
    splitting_undoes_joining(values, '\t');
    assert(columns(line) == values);
    decimal_reads_back(window as nat, usize::MAX as nat);
    decimal_reads_back(tab as nat, usize::MAX as nat);
    decimal_reads_back(terminal as nat, usize::MAX as nat);
    lemma_coordinate(x);
    lemma_coordinate(y);
    lemma_coordinate(width);
    lemma_coordinate(height);
}

proof fn lemma_coordinate(n: i64)
    ensures
        coordinate_field(signed_decimal(n as int), "window x"@) == Ok::<Option<i64>, Seq<char>>(
            Some(n),
        ),
        coordinate_field(signed_decimal(n as int), "window y"@) == Ok::<Option<i64>, Seq<char>>(
            Some(n),
        ),
        coordinate_field(signed_decimal(n as int), "window width"@) == Ok::<
            Option<i64>,
            Seq<char>,
        >(Some(n)),
        coordinate_field(signed_decimal(n as int), "window height"@) == Ok::<
            Option<i64>,
            Seq<char>,
        >(Some(n)),
{
    signed_decimal_reads_back(n);
    if n >= 0 {
        lemma_decimal_digits(n as nat);
    } else {
        lemma_decimal_digits((-n) as nat);
    }
}

/// A place or a size that is left out is not known.
pub proof fn places_may_be_left_out(label: Seq<char>)
    ensures
        coordinate_field(Seq::empty(), label) == Ok::<Option<i64>, Seq<char>>(None),
{
}

/// A line that lacks its last column is read as if that were empty; one with fewer
/// columns or more is refused.
pub proof fn rows_have_their_columns(values: Seq<Seq<char>>)
    requires
        values.len() > 0,
        forall|i: int| 0 <= i < values.len() ==> !(#[trigger] values[i]).contains('\t'),
    ensures
        values.len() == 16 ==> captured_row(join(values, seq!['\t'])) == captured_row(
            join(values.push(Seq::empty()), seq!['\t']),
        ),
        values.len() != 16 && values.len() != 17 ==> captured_row(join(values, seq!['\t'])) == Err::<
            RowModel,
            Seq<char>,
        >("malformed Ghostty capture row"@),
{
    splitting_undoes_joining(values, '\t');
    let more = values.push(Seq::empty());
    assert forall|i: int| 0 <= i < more.len() implies !(#[trigger] more[i]).contains('\t') by {
        if i < values.len() {
            assert(more[i] == values[i]);
        }
    }
    splitting_undoes_joining(more, '\t');
}

/// A number that cannot be read is told by the name of its column.
pub proof fn unreadable_numbers_are_told(values: Seq<Seq<char>>, label: Seq<char>)
    requires
        values.len() == 17,
        forall|i: int| 0 <= i < 17 ==> !(#[trigger] values[i]).contains('\t'),
    ensures
        index_field(values[0], label) is Err ==> captured_row(join(values, seq!['\t'])) == Err::<
            RowModel,
            Seq<char>,
        >("invalid "@ + "window index"@),
        index_field(values[7], label) is Err ==> captured_row(join(values, seq!['\t'])) is Err,
        index_field(values[11], label) is Err ==> captured_row(join(values, seq!['\t'])) is Err,
        coordinate_field(values[3], label) is Err ==> captured_row(join(values, seq!['\t'])) is Err,
        coordinate_field(values[4], label) is Err ==> captured_row(join(values, seq!['\t'])) is Err,
        coordinate_field(values[5], label) is Err ==> captured_row(join(values, seq!['\t'])) is Err,
        coordinate_field(values[6], label) is Err ==> captured_row(join(values, seq!['\t'])) is Err,
{
    splitting_undoes_joining(values, '\t');
}

/// What a line names as a number or a truth value is read so.
pub proof fn fields_are_read(n: usize, label: Seq<char>, value: Seq<char>)
    ensures
        index_field(decimal(n as nat), label) == Ok::<usize, Seq<char>>(n),
        index_field(value, label) is Err ==> index_field(value, label) == Err::<usize, Seq<char>>(
            "invalid "@ + label,
        ),
        coordinate_field(value, label) is Err ==> coordinate_field(value, label) == Err::<
            Option<i64>,
            Seq<char>,
        >("invalid "@ + label),
        flag_field(value) <==> lower(value) == "true"@,
{
    decimal_reads_back(n as nat, usize::MAX as nat);
}

/// Each line holds one row, in the order of the lines; one that cannot be read stops
/// the capture.
pub proof fn rows_are_read_line_by_line(before: Seq<Seq<char>>, line: Seq<char>)
    ensures
        captured_rows(Seq::empty()) == Ok::<Seq<RowModel>, Seq<char>>(Seq::empty()),
        captured_rows(before) matches Ok(rows) ==> captured_row(line) matches Ok(row)
            ==> captured_rows(before.push(line)) == Ok::<Seq<RowModel>, Seq<char>>(rows.push(row)),
        captured_rows(before) matches Ok(rows) ==> captured_row(line) matches Err(e)
            ==> captured_rows(before.push(line)) == Err::<Seq<RowModel>, Seq<char>>(e),
        captured_rows(before) matches Err(e) ==> captured_rows(before.push(line)) == Err::<
            Seq<RowModel>,
            Seq<char>,
        >(e),
{
    assert(before.push(line).drop_last() =~= before);
}

/// A capture begins with the names of its columns, and every line behind them that
/// holds something is a row; without these names it is refused.
pub proof fn captures_begin_with_their_columns(
    output: Seq<char>,
    header: Seq<char>,
    rows: Seq<Seq<char>>,
)
    requires
        header
            == "window_index\twindow_id\twindow_name\twindow_x\twindow_y\twindow_width\twindow_height\ttab_index\ttab_id\ttab_name\ttab_selected\tterminal_index\tterminal_id\tterminal_name\tterminal_focused\tworking_directory\tscrollback_path"@,
    ensures
        lines(output) == seq![header] + rows && (forall|i: int|
            0 <= i < rows.len() ==> (#[trigger] rows[i]).len() > 0) ==> capture_of(output)
            == captured_rows(rows),
        lines(output).len() == 0 ==> capture_of(output) == Err::<Seq<RowModel>, Seq<char>>(
            "unexpected Ghostty capture format"@,
        ),
        lines(output).len() > 0 && lines(output)[0].len() > 0 && lines(output)[0] != header
            ==> capture_of(output) == Err::<Seq<RowModel>, Seq<char>>(
            "unexpected Ghostty capture format"@,
        ),
{
    reveal_strlit(
        "window_index\twindow_id\twindow_name\twindow_x\twindow_y\twindow_width\twindow_height\ttab_index\ttab_id\ttab_name\ttab_selected\tterminal_index\tterminal_id\tterminal_name\tterminal_focused\tworking_directory\tscrollback_path",
    );
    assert(header.len() > 0);
    let all = lines(output);
    if all == seq![header] + rows && (forall|i: int|
        0 <= i < rows.len() ==> (#[trigger] rows[i]).len() > 0) {
        assert forall|i: int| 0 <= i < all.len() implies (#[trigger] all[i]).len() > 0 by {
            if i > 0 {
                assert(all[i] == rows[i - 1]);
            }
        }
        lemma_all_filled(all);
        assert(all.skip(1) =~= rows);
    }
    if all.len() > 0 && all[0].len() > 0 {
        lemma_first_filled(all);
    }
}

/// Where every line holds something, all are taken.
proof fn lemma_all_filled(all: Seq<Seq<char>>)
    requires
        forall|i: int| 0 <= i < all.len() ==> (#[trigger] all[i]).len() > 0,
    ensures
        select(all, filled()) == all,
    decreases all.len(),
{
    if all.len() > 0 {
        let front = all.drop_last();
        assert forall|i: int| 0 <= i < front.len() implies (#[trigger] front[i]).len() > 0 by {
            assert(front[i] == all[i]);
        }
        lemma_all_filled(front);
        assert(all[all.len() - 1].len() > 0);
        assert(filled()(all.last()));
        assert(front.push(all.last()) =~= all);
    }
}

/// A first line that holds something is the first that is taken.
proof fn lemma_first_filled(all: Seq<Seq<char>>)
    requires
        all.len() > 0,
        all[0].len() > 0,
    ensures
        select(all, filled()).len() > 0,
        select(all, filled())[0] == all[0],
    decreases all.len(),
{
    let front = all.drop_last();
    if all.len() == 1 {
        assert(select(front, filled()).len() == 0);
        assert(filled()(all.last()));
    } else {
        lemma_first_filled(front);
    }
}

/// Empty lines hold no row.
pub proof fn empty_lines_hold_nothing(before: Seq<Seq<char>>, line: Seq<char>)
    ensures
        select(before.push(Seq::empty()), filled()) == select(before, filled()),
        line.len() > 0 ==> select(before.push(line), filled()) == select(before, filled()).push(
            line,
        ),
{
    assert(before.push(Seq::empty()).drop_last() =~= before);
    assert(before.push(line).drop_last() =~= before);
}

// ---------------------------------------------------------------------------
// Random text
// ---------------------------------------------------------------------------
/// Each byte is written as two digits in lower case, the higher first, one byte after
/// the other.
pub proof fn bytes_are_written_in_order(bytes: Seq<u8>, byte: u8)
    ensures
        hex_text(Seq::empty()).len() == 0,
        hex_text(bytes.push(byte)) == hex_text(bytes) + hex_byte(byte),
        byte / 16 < 10 ==> hex_byte(byte)[0] as int == '0' as int + byte / 16,
        byte / 16 >= 10 ==> hex_byte(byte)[0] as int == 'a' as int + byte / 16 - 10,
        byte % 16 < 10 ==> hex_byte(byte)[1] as int == '0' as int + byte % 16,
        byte % 16 >= 10 ==> hex_byte(byte)[1] as int == 'a' as int + byte % 16 - 10,
        hex_byte(byte).len() == 2,
{
    let f = |b: u8| hex_byte(b);
    assert(bytes.push(byte).map_values(f).drop_last() =~= bytes.map_values(f));
    assert(Seq::<u8>::empty().map_values(f).len() == 0);
}

} // verus!
