//! What is asked of Ghostty, how its replies are read, and how a snapshot is made
//! of them.
use vstd::prelude::*;
use vstd::string::*;

use crate::command::{Reply, ReplyModel, answer, reply_view, run};
use crate::error::Error;
use crate::list::select;
use crate::model::{CaptureRow, RowModel, row_views};
use crate::number::{
    decimal, decimal_reads_back, lemma_decimal_digits, parse_signed, parse_size, read_signed,
    read_unsigned, signed_decimal, signed_decimal_reads_back,
};
use crate::text::{
    is_digit, join, lines, lines_of, lower, lowered, same, split, split_text,
    splitting_undoes_joining, texts,
};

verus! {

/// The first line of a capture: the names of the columns.
pub const CAPTURE_HEADER: &'static str =
    "window_index\twindow_id\twindow_name\twindow_x\twindow_y\twindow_width\twindow_height\ttab_index\ttab_id\ttab_name\ttab_selected\tterminal_index\tterminal_id\tterminal_name\tterminal_focused\tworking_directory\tscrollback_path";

// ---------------------------------------------------------------------------
// Reading a capture
// ---------------------------------------------------------------------------
/// What is said of a number that cannot be read.
pub open spec fn field_fault(label: Seq<char>) -> Seq<char> {
    "invalid "@ + label
}

/// The index in `value`.
pub open spec fn index_field(value: Seq<char>, label: Seq<char>) -> Result<usize, Seq<char>> {
    match read_unsigned(value, usize::MAX as nat) {
        Ok(n) => Ok(n as usize),
        Err(_) => Err(field_fault(label)),
    }
}

/// The coordinate in `value`, which may be missing.
pub open spec fn coordinate_field(value: Seq<char>, label: Seq<char>) -> Result<
    Option<i64>,
    Seq<char>,
> {
    if value.len() == 0 {
        Ok(None)
    } else {
        match read_signed(value) {
            Ok(n) => Ok(Some(n as i64)),
            Err(_) => Err(field_fault(label)),
        }
    }
}

/// Whether `value` reads `true`, in either case.
pub open spec fn flag_field(value: Seq<char>) -> bool {
    lower(value) == "true"@
}

/// The numbers of a row, in the order in which they are read.
pub struct RowNumbers {
    pub window_index: usize,
    pub window_x: Option<i64>,
    pub window_y: Option<i64>,
    pub window_width: Option<i64>,
    pub window_height: Option<i64>,
    pub tab_index: usize,
    pub terminal_index: usize,
}

/// The numbers among the columns of a row; the first that cannot be read is
/// reported.
pub open spec fn row_numbers(values: Seq<Seq<char>>) -> Result<RowNumbers, Seq<char>> {
    match index_field(values[0], "window index"@) {
        Err(e) => Err(e),
        Ok(window_index) => match coordinate_field(values[3], "window x"@) {
            Err(e) => Err(e),
            Ok(window_x) => match coordinate_field(values[4], "window y"@) {
                Err(e) => Err(e),
                Ok(window_y) => match coordinate_field(values[5], "window width"@) {
                    Err(e) => Err(e),
                    Ok(window_width) => match coordinate_field(values[6], "window height"@) {
                        Err(e) => Err(e),
                        Ok(window_height) => match index_field(values[7], "tab index"@) {
                            Err(e) => Err(e),
                            Ok(tab_index) => match index_field(values[11], "terminal index"@) {
                                Err(e) => Err(e),
                                Ok(terminal_index) => Ok(
                                    RowNumbers {
                                        window_index,
                                        window_x,
                                        window_y,
                                        window_width,
                                        window_height,
                                        tab_index,
                                        terminal_index,
                                    },
                                ),
                            },
                        },
                    },
                },
            },
        },
    }
}

/// The columns of a line. A line that ends before its last column has an empty
/// one.
pub open spec fn columns(line: Seq<char>) -> Seq<Seq<char>> {
    let values = split(line, '\t');
    if values.len() == 16 {
        values.push(Seq::empty())
    } else {
        values
    }
}

/// The row that a line of a capture holds.
pub open spec fn captured_row(line: Seq<char>) -> Result<RowModel, Seq<char>> {
    let values = columns(line);
    if values.len() != 17 {
        Err("malformed Ghostty capture row"@)
    } else {
        match row_numbers(values) {
            Err(e) => Err(e),
            Ok(numbers) => Ok(
                RowModel {
                    window_index: numbers.window_index,
                    window_id: values[1],
                    window_name: values[2],
                    window_x: numbers.window_x,
                    window_y: numbers.window_y,
                    window_width: numbers.window_width,
                    window_height: numbers.window_height,
                    tab_index: numbers.tab_index,
                    tab_id: values[8],
                    tab_name: values[9],
                    tab_selected: flag_field(values[10]),
                    terminal_index: numbers.terminal_index,
                    terminal_id: values[12],
                    terminal_name: values[13],
                    terminal_focused: flag_field(values[14]),
                    working_directory: values[15],
                    scrollback_path: if values[16].len() == 0 {
                        None
                    } else {
                        Some(values[16])
                    },
                    scrollback_file: None,
                    agent_session: None,
                },
            ),
        }
    }
}

/// The rows that the lines hold; the first line that cannot be read is reported.
pub open spec fn captured_rows(s: Seq<Seq<char>>) -> Result<Seq<RowModel>, Seq<char>>
    decreases s.len(),
{
    if s.len() == 0 {
        Ok(Seq::empty())
    } else {
        match captured_rows(s.drop_last()) {
            Err(e) => Err(e),
            Ok(rows) => match captured_row(s.last()) {
                Err(e) => Err(e),
                Ok(row) => Ok(rows.push(row)),
            },
        }
    }
}

/// Accepts lines that hold something.
pub open spec fn filled() -> spec_fn(Seq<char>) -> bool {
    |line: Seq<char>| line.len() > 0
}

/// The rows of a capture: behind the names of the columns, one in each line that
/// holds something.
pub open spec fn capture_of(output: Seq<char>) -> Result<Seq<RowModel>, Seq<char>> {
    let all = select(lines(output), filled());
    if all.len() == 0 || all[0] != CAPTURE_HEADER@ {
        Err("unexpected Ghostty capture format"@)
    } else {
        captured_rows(all.skip(1))
    }
}

/// The failure for a number that cannot be read.
fn field_error(label: &str) -> (r: Error)
    ensures
        r@ == field_fault(label@),
{
    let mut message = "invalid ".to_owned();
    message.append(label);
    Error::new(message)
}

/// Reads an index.
pub fn parse_number(value: &str, label: &str) -> (r: Result<usize, Error>)
    ensures
        match r {
            Ok(n) => index_field(value@, label@) == Ok::<usize, Seq<char>>(n),
            Err(e) => index_field(value@, label@) == Err::<usize, Seq<char>>(e@),
        },
{
    match parse_size(value) {
        Ok(n) => Ok(n),
        Err(_) => Err(field_error(label)),
    }
}

/// Reads a coordinate, which may be missing.
pub fn parse_optional_number(value: &str, label: &str) -> (r: Result<Option<i64>, Error>)
    ensures
        match r {
            Ok(n) => coordinate_field(value@, label@) == Ok::<Option<i64>, Seq<char>>(n),
            Err(e) => coordinate_field(value@, label@) == Err::<Option<i64>, Seq<char>>(e@),
        },
{
    if value.is_empty() {
        return Ok(None);
    }
    match parse_signed(value) {
        Ok(n) => Ok(Some(n)),
        Err(_) => Err(field_error(label)),
    }
}

/// Whether `value` reads `true`, in either case.
fn is_true(value: &str) -> (r: bool)
    ensures
        r == flag_field(value@),
{
    same(lowered(value).as_str(), "true")
}

/// The row that a line of a capture holds.
pub fn parse_capture_row(line: &str) -> (r: Result<CaptureRow, Error>)
    ensures
        match r {
            Ok(row) => captured_row(line@) == Ok::<RowModel, Seq<char>>(row@),
            Err(e) => captured_row(line@) == Err::<RowModel, Seq<char>>(e@),
        },
{
    let mut values = split_text(line, '\t');
    if values.len() == 16 {
        let ghost before = values@;
        values.push(String::new());
        assert(texts(values@) =~= texts(before).push(Seq::empty()));
    }
    if values.len() != 17 {
        return Err(Error::from_text("malformed Ghostty capture row"));
    }
    assert forall|k: int| 0 <= k < 17 implies #[trigger] columns(line@)[k] == values@[k]@ by {
        assert(texts(values@)[k] == values@[k]@);
    }
    let window_index: usize = match parse_number(values[0].as_str(), "window index") {
        Ok(n) => n,
        Err(e) => return Err(e),
    };
    let window_x = match parse_optional_number(values[3].as_str(), "window x") {
        Ok(n) => n,
        Err(e) => return Err(e),
    };
    let window_y = match parse_optional_number(values[4].as_str(), "window y") {
        Ok(n) => n,
        Err(e) => return Err(e),
    };
    let window_width = match parse_optional_number(values[5].as_str(), "window width") {
        Ok(n) => n,
        Err(e) => return Err(e),
    };
    let window_height = match parse_optional_number(values[6].as_str(), "window height") {
        Ok(n) => n,
        Err(e) => return Err(e),
    };
    let tab_index: usize = match parse_number(values[7].as_str(), "tab index") {
        Ok(n) => n,
        Err(e) => return Err(e),
    };
    let terminal_index: usize = match parse_number(values[11].as_str(), "terminal index") {
        Ok(n) => n,
        Err(e) => return Err(e),
    };
    Ok(
        CaptureRow {
            window_index,
            window_id: values[1].clone(),
            window_name: values[2].clone(),
            window_x,
            window_y,
            window_width,
            window_height,
            tab_index,
            tab_id: values[8].clone(),
            tab_name: values[9].clone(),
            tab_selected: is_true(values[10].as_str()),
            terminal_index,
            terminal_id: values[12].clone(),
            terminal_name: values[13].clone(),
            terminal_focused: is_true(values[14].as_str()),
            working_directory: values[15].clone(),
            scrollback_path: if values[16].as_str().is_empty() {
                None
            } else {
                Some(values[16].clone())
            },
            scrollback_file: None,
            agent_session: None,
        },
    )
}

/// The lines of `text` that hold something.
fn filled_lines(text: &str) -> (r: Vec<String>)
    ensures
        texts(r@) == select(lines(text@), filled()),
{
    let all = lines_of(text);
    let ghost model = lines(text@);
    let mut r: Vec<String> = Vec::new();
    let mut i: usize = 0;
    assert(texts(r@) =~= select(model.take(0), filled()));
    while i < all.len()
        invariant
            texts(all@) == model,
            i <= all@.len(),
            texts(r@) == select(model.take(i as int), filled()),
        decreases all@.len() - i,
    {
        proof {
            assert(model.take(i + 1).drop_last() == model.take(i as int));
            assert(model.take(i + 1).last() == all@[i as int]@);
        }
        if !all[i].as_str().is_empty() {
            let ghost before = r@;
            r.push(all[i].clone());
            assert(texts(r@) =~= texts(before).push(all@[i as int]@));
        }
        i = i + 1;
    }
    assert(model.take(all@.len() as int) == model);
    r
}

/// A line that cannot be read is reported, whatever follows it.
proof fn lemma_captured_rows_fault(s: Seq<Seq<char>>, n: int)
    requires
        0 <= n <= s.len(),
        captured_rows(s.take(n)) is Err,
    ensures
        captured_rows(s) == captured_rows(s.take(n)),
    decreases s.len() - n,
{
    if n == s.len() {
        assert(s.take(n) == s);
    } else {
        assert(s.take(n + 1).drop_last() == s.take(n));
        lemma_captured_rows_fault(s, n + 1);
    }
}

/// The rows of a capture.
pub fn parse_capture(output: &str) -> (r: Result<Vec<CaptureRow>, Error>)
    ensures
        match r {
            Ok(rows) => capture_of(output@) == Ok::<Seq<RowModel>, Seq<char>>(row_views(rows@)),
            Err(e) => capture_of(output@) == Err::<Seq<RowModel>, Seq<char>>(e@),
        },
{
    let all = filled_lines(output);
    let ghost model = select(lines(output@), filled());
    if all.len() == 0 {
        return Err(Error::from_text("unexpected Ghostty capture format"));
    }
    assert(model[0] == all@[0]@);
    if !same(all[0].as_str(), CAPTURE_HEADER) {
        return Err(Error::from_text("unexpected Ghostty capture format"));
    }
    let ghost rest = model.skip(1);
    let mut rows: Vec<CaptureRow> = Vec::new();
    let mut i: usize = 1;
    assert(rest.take(0) =~= Seq::empty());
    assert(row_views(rows@) =~= Seq::empty());
    while i < all.len()
        invariant
            texts(all@) == model,
            rest == model.skip(1),
            1 <= i <= all@.len(),
            capture_of(output@) == captured_rows(rest),
            captured_rows(rest.take(i - 1)) == Ok::<Seq<RowModel>, Seq<char>>(row_views(rows@)),
        decreases all@.len() - i,
    {
        proof {
            assert(rest.take(i as int).drop_last() == rest.take(i - 1));
            assert(rest.take(i as int).last() == all@[i as int]@);
        }
        match parse_capture_row(all[i].as_str()) {
            Ok(row) => {
                let ghost before = rows@;
                rows.push(row);
                assert(row_views(rows@) =~= row_views(before).push(row@));
            },
            Err(e) => {
                proof {
                    lemma_captured_rows_fault(rest, i as int);
                }
                return Err(e);
            },
        }
        i = i + 1;
    }
    assert(rest.take(i - 1) == rest);
    Ok(rows)
}

// ---------------------------------------------------------------------------
// Asking Ghostty
// ---------------------------------------------------------------------------
/// The arguments with which `osascript` tells the version of Ghostty.
pub fn version_request() -> (r: Vec<String>)
    ensures
        texts(r@) == seq!["-e"@, "tell application \"Ghostty\" to get version"@],
{
    let r = vec!["-e".to_owned(), "tell application \"Ghostty\" to get version".to_owned()];
    assert(texts(r@) =~= seq!["-e"@, "tell application \"Ghostty\" to get version"@]);
    r
}

/// The arguments with which `osascript` tells the window in front.
pub fn current_window_request() -> (r: Vec<String>)
    ensures
        texts(r@) == seq![
            "-e"@,
            "tell application \"Ghostty\" to return id of first window as text"@,
        ],
{
    let r = vec![
        "-e".to_owned(),
        "tell application \"Ghostty\" to return id of first window as text".to_owned(),
    ];
    assert(texts(r@) =~= seq![
        "-e"@,
        "tell application \"Ghostty\" to return id of first window as text"@,
    ]);
    r
}

/// The arguments with which `osascript` captures the terminals: of one window or
/// of all, with their scrollback or without.
pub open spec fn capture_request_for(
    script_path: Seq<char>,
    capture_scrollback: bool,
    window_id: Option<Seq<char>>,
) -> Seq<Seq<char>> {
    seq![script_path] + (if capture_scrollback {
        Seq::empty()
    } else {
        seq!["--no-scrollback"@]
    }) + match window_id {
        Some(id) => seq!["--window-id"@, id],
        None => Seq::empty(),
    }
}

/// The arguments with which `osascript` captures the terminals.
pub fn capture_request(script_path: &str, capture_scrollback: bool, window_id: Option<&str>) -> (r:
    Vec<String>)
    ensures
        texts(r@) == capture_request_for(
            script_path@,
            capture_scrollback,
            match window_id {
                Some(id) => Some(id@),
                None => None,
            },
        ),
{
    let mut r = vec![script_path.to_owned()];
    if !capture_scrollback {
        r.push("--no-scrollback".to_owned());
    }
    if let Some(id) = window_id {
        r.push("--window-id".to_owned());
        r.push(id.to_owned());
    }
    assert(texts(r@) =~= capture_request_for(
        script_path@,
        capture_scrollback,
        match window_id {
            Some(id) => Some(id@),
            None => None,
        },
    ));
    r
}

/// The version that Ghostty has told.
pub fn version(reply: &Option<Reply>) -> (r: Result<String, Error>)
    ensures
        match r {
            Ok(text) => answer("osascript"@, reply_view(*reply)) == Ok::<Seq<char>, Seq<char>>(
                text@,
            ),
            Err(e) => answer("osascript"@, reply_view(*reply)) == Err::<Seq<char>, Seq<char>>(e@),
        },
{
    run("osascript", reply)
}

/// Fails where Ghostty has not told its version: it does not run.
pub fn ensure_running(reply: &Option<Reply>) -> (r: Result<(), Error>)
    ensures
        match r {
            Ok(_) => answer("osascript"@, reply_view(*reply)) is Ok,
            Err(e) => answer("osascript"@, reply_view(*reply)) is Err && e@
                == "Ghostty must be running to save a snapshot"@,
        },
{
    match version(reply) {
        Ok(_) => Ok(()),
        Err(_) => Err(Error::from_text("Ghostty must be running to save a snapshot")),
    }
}

/// The window in front, from what was told of it.
pub open spec fn front_window(reply: Option<ReplyModel>) -> Result<Seq<char>, Seq<char>> {
    match answer("osascript"@, reply) {
        Ok(id) => if id.len() == 0 {
            Err("Ghostty has no current window"@)
        } else {
            Ok(id)
        },
        Err(e) => Err(e),
    }
}

/// The window in front, from what Ghostty has told.
pub fn current_window_id(reply: &Option<Reply>) -> (r: Result<String, Error>)
    ensures
        match r {
            Ok(id) => front_window(reply_view(*reply)) == Ok::<Seq<char>, Seq<char>>(id@),
            Err(e) => front_window(reply_view(*reply)) == Err::<Seq<char>, Seq<char>>(e@),
        },
{
    match run("osascript", reply) {
        Ok(id) => if id.as_str().is_empty() {
            Err(Error::from_text("Ghostty has no current window"))
        } else {
            Ok(id)
        },
        Err(e) => Err(e),
    }
}

/// The rows that a reply to the capture request holds.
pub open spec fn captured_reply(reply: Option<ReplyModel>) -> Result<Seq<RowModel>, Seq<char>> {
    match answer("osascript"@, reply) {
        Ok(output) => capture_of(output),
        Err(e) => Err(e),
    }
}

/// The terminals that Ghostty has told.
pub fn capture(reply: &Option<Reply>) -> (r: Result<Vec<CaptureRow>, Error>)
    ensures
        match r {
            Ok(rows) => captured_reply(reply_view(*reply)) == Ok::<Seq<RowModel>, Seq<char>>(
                row_views(rows@),
            ),
            Err(e) => captured_reply(reply_view(*reply)) == Err::<Seq<RowModel>, Seq<char>>(e@),
        },
{
    match run("osascript", reply) {
        Ok(output) => parse_capture(output.as_str()),
        Err(e) => Err(e),
    }
}

// ---------------------------------------------------------------------------
// Rows and lines
// ---------------------------------------------------------------------------
/// A coordinate as a column holds it.
pub open spec fn coordinate_column(value: Option<i64>) -> Seq<char> {
    match value {
        Some(n) => signed_decimal(n as int),
        None => Seq::empty(),
    }
}

/// A flag as a column holds it.
pub open spec fn flag_column(value: bool) -> Seq<char> {
    if value {
        "true"@
    } else {
        "false"@
    }
}

/// The columns of a row.
pub open spec fn row_columns(row: RowModel) -> Seq<Seq<char>> {
    seq![
        decimal(row.window_index as nat),
        row.window_id,
        row.window_name,
        coordinate_column(row.window_x),
        coordinate_column(row.window_y),
        coordinate_column(row.window_width),
        coordinate_column(row.window_height),
        decimal(row.tab_index as nat),
        row.tab_id,
        row.tab_name,
        flag_column(row.tab_selected),
        decimal(row.terminal_index as nat),
        row.terminal_id,
        row.terminal_name,
        flag_column(row.terminal_focused),
        row.working_directory,
        match row.scrollback_path {
            Some(path) => path,
            None => Seq::empty(),
        },
    ]
}

/// The line of a capture that holds a row.
pub open spec fn row_line(row: RowModel) -> Seq<char> {
    join(row_columns(row), seq!['\t'])
}

/// Whether a line of a capture can hold a row: no text of it holds a tab, its
/// scrollback has a name, and nothing is known yet of its conversation.
pub open spec fn fits_a_line(row: RowModel) -> bool {
    &&& !row.window_id.contains('\t')
    &&& !row.window_name.contains('\t')
    &&& !row.tab_id.contains('\t')
    &&& !row.tab_name.contains('\t')
    &&& !row.terminal_id.contains('\t')
    &&& !row.terminal_name.contains('\t')
    &&& !row.working_directory.contains('\t')
    &&& row.scrollback_path matches Some(path) ==> path.len() > 0 && !path.contains('\t')
    &&& row.scrollback_file is None
    &&& row.agent_session is None
}

/// A written number holds no tab.
proof fn lemma_number_columns(n: nat, value: Option<i64>, flag: bool)
    ensures
        !decimal(n).contains('\t'),
        !coordinate_column(value).contains('\t'),
        !flag_column(flag).contains('\t'),
        flag_field(flag_column(flag)) == flag,
        coordinate_field(coordinate_column(value), "window x"@) == Ok::<Option<i64>, Seq<char>>(
            value,
        ),
        coordinate_field(coordinate_column(value), "window y"@) == Ok::<Option<i64>, Seq<char>>(
            value,
        ),
        coordinate_field(coordinate_column(value), "window width"@) == Ok::<
            Option<i64>,
            Seq<char>,
        >(value),
        coordinate_field(coordinate_column(value), "window height"@) == Ok::<
            Option<i64>,
            Seq<char>,
        >(value),
{
    reveal_strlit("true");
    reveal_strlit("false");
    lemma_decimal_digits(n);
    if decimal(n).contains('\t') {
        let k = choose|k: int| 0 <= k < decimal(n).len() && decimal(n)[k] == '\t';
        assert(is_digit(decimal(n)[k]));
    }
    match value {
        Some(x) => {
            let m = (if x < 0 {
                -x
            } else {
                x as int
            }) as nat;
            lemma_decimal_digits(m);
            let text = signed_decimal(x as int);
            if text.contains('\t') {
                let k = choose|k: int| 0 <= k < text.len() && text[k] == '\t';
                if x < 0 {
                    if k > 0 {
                        assert(text[k] == decimal(m)[k - 1]);
                    }
                } else {
                    assert(is_digit(decimal(m)[k]));
                }
            }
            signed_decimal_reads_back(x);
        },
        None => {},
    }
    if flag {
        assert(lower("true"@) =~= "true"@);
        if flag_column(flag).contains('\t') {
            let k = choose|k: int| 0 <= k < "true"@.len() && "true"@[k] == '\t';
            assert(k == 0 || k == 1 || k == 2 || k == 3);
        }
    } else {
        assert(lower("false"@).len() == 5);
        assert("true"@.len() == 4);
        if flag_column(flag).contains('\t') {
            let k = choose|k: int| 0 <= k < "false"@.len() && "false"@[k] == '\t';
            assert(k == 0 || k == 1 || k == 2 || k == 3 || k == 4);
        }
    }
}

/// A row that is written as a line of a capture is read back from it.
pub proof fn captured_rows_read_back(row: RowModel)
    requires
        fits_a_line(row),
    ensures
        captured_row(row_line(row)) == Ok::<RowModel, Seq<char>>(row),
{
    let values = row_columns(row);
    lemma_number_columns(row.window_index as nat, row.window_x, row.tab_selected);
    lemma_number_columns(row.tab_index as nat, row.window_y, row.terminal_focused);
    lemma_number_columns(row.terminal_index as nat, row.window_width, row.tab_selected);
    lemma_number_columns(row.terminal_index as nat, row.window_height, row.tab_selected);
    assert forall|i: int| 0 <= i < values.len() implies !(#[trigger] values[i]).contains('\t') by {
        if i == 16 && row.scrollback_path is None {
            assert(values[16].len() == 0);
        }
    }
    splitting_undoes_joining(values, '\t');
    assert(columns(row_line(row)) == values);
    decimal_reads_back(row.window_index as nat, usize::MAX as nat);
    decimal_reads_back(row.tab_index as nat, usize::MAX as nat);
    decimal_reads_back(row.terminal_index as nat, usize::MAX as nat);
}

} // verus!
