use rz::command::Reply;
use rz::ghostty::{
    CAPTURE_HEADER, capture, capture_request, current_window_id, current_window_request,
    ensure_running, parse_capture, parse_capture_row, version, version_request,
};

const ROW: &str = "2\twindow-current\tWork\t100\t120\t1200\t800\t1\ttab-1\tProject\ttrue\t1\tterminal-1\tamp\ttrue\t/tmp/project\t";

fn reply(stdout: &str, success: bool) -> Option<Reply> {
    Some(Reply { stdout: stdout.to_owned(), stderr: String::new(), success })
}

#[test]
fn parses_capture_tsv() {
    let output = format!(
        "{}\n2\twindow-current\tWork\t100\t120\t1200\t800\t1\ttab-1\tProject\ttrue\t1\tterminal-1\tamp\ttrue\t/tmp/project\t\n",
        CAPTURE_HEADER
    );
    let rows = parse_capture(&output).unwrap();
    assert_eq!(rows.len(), 1);
    assert_eq!(rows[0].window_index, 2);
    assert_eq!(rows[0].working_directory, "/tmp/project");
    assert_eq!(rows[0].scrollback_path, None);
}

#[test]
fn the_header_names_the_columns() {
    assert_eq!(
        CAPTURE_HEADER.split('\t').collect::<Vec<_>>(),
        [
            "window_index",
            "window_id",
            "window_name",
            "window_x",
            "window_y",
            "window_width",
            "window_height",
            "tab_index",
            "tab_id",
            "tab_name",
            "tab_selected",
            "terminal_index",
            "terminal_id",
            "terminal_name",
            "terminal_focused",
            "working_directory",
            "scrollback_path",
        ]
    );
}

#[test]
fn every_column_is_read() {
    let row = parse_capture_row(
        "3\tw\tWork\t-5\t\t7\t8\t2\tt\tTab\tTRUE\t4\tid\tname\tno\t/tmp\t/tmp/scroll.txt",
    )
    .unwrap();
    assert_eq!((row.window_index, row.tab_index, row.terminal_index), (3, 2, 4));
    assert_eq!(
        (row.window_x, row.window_y, row.window_width, row.window_height),
        (Some(-5), None, Some(7), Some(8))
    );
    assert_eq!((row.window_id.as_str(), row.window_name.as_str()), ("w", "Work"));
    assert_eq!((row.tab_id.as_str(), row.tab_name.as_str()), ("t", "Tab"));
    assert_eq!((row.terminal_id.as_str(), row.terminal_name.as_str()), ("id", "name"));
    assert!(row.tab_selected);
    assert!(!row.terminal_focused);
    assert_eq!(row.scrollback_path.as_deref(), Some("/tmp/scroll.txt"));
    assert!(row.scrollback_file.is_none());
    assert!(row.agent_session.is_none());
    assert!(!row.has_geometry());
}

#[test]
fn a_missing_last_column_is_empty() {
    let row = parse_capture_row(ROW.trim_end()).unwrap();
    assert_eq!(row.scrollback_path, None);
    assert!(row.has_geometry());
}

#[test]
fn faults_of_rows_are_told() {
    let with = |place: usize, value: &str| {
        let mut columns = ROW.split('\t').collect::<Vec<_>>();
        columns[place] = value;
        parse_capture_row(&columns.join("\t")).unwrap_err().message
    };
    assert_eq!(with(0, ""), "invalid window index");
    assert_eq!(with(3, "x"), "invalid window x");
    assert_eq!(with(4, "1.5"), "invalid window y");
    assert_eq!(with(5, "9223372036854775808"), "invalid window width");
    assert_eq!(with(6, "-"), "invalid window height");
    assert_eq!(with(7, "-1"), "invalid tab index");
    assert_eq!(with(11, "a"), "invalid terminal index");
    assert_eq!(parse_capture_row("1\t2").unwrap_err().message, "malformed Ghostty capture row");
    assert_eq!(
        parse_capture_row(&format!("{ROW}\t")).unwrap_err().message,
        "malformed Ghostty capture row"
    );
}

#[test]
fn captures_need_their_header() {
    assert_eq!(parse_capture("").unwrap_err().message, "unexpected Ghostty capture format");
    assert_eq!(parse_capture(ROW).unwrap_err().message, "unexpected Ghostty capture format");
    let empty = parse_capture(&format!("\n\r\n{CAPTURE_HEADER}\n\n")).unwrap();
    assert!(empty.is_empty());
    let bad = format!("{CAPTURE_HEADER}\n{ROW}\nx\n");
    assert_eq!(parse_capture(&bad).unwrap_err().message, "malformed Ghostty capture row");
}

#[test]
fn ghostty_is_asked() {
    assert_eq!(version_request(), ["-e", "tell application \"Ghostty\" to get version"]);
    assert_eq!(
        current_window_request(),
        ["-e", "tell application \"Ghostty\" to return id of first window as text"]
    );
    assert_eq!(capture_request("s", true, None), ["s"]);
    assert_eq!(
        capture_request("s", false, Some("w")),
        ["s", "--no-scrollback", "--window-id", "w"]
    );
}

#[test]
fn replies_of_ghostty_are_read() {
    assert_eq!(version(&reply(" 1.3.1\n", true)).unwrap(), "1.3.1");
    assert_eq!(version(&reply("no", false)).unwrap_err().message, "osascript failed: no");
    assert!(ensure_running(&reply("1.3.1", true)).is_ok());
    assert_eq!(
        ensure_running(&None).unwrap_err().message,
        "Ghostty must be running to save a snapshot"
    );
    assert_eq!(current_window_id(&reply("w-1\n", true)).unwrap(), "w-1");
    assert_eq!(
        current_window_id(&reply(" \n", true)).unwrap_err().message,
        "Ghostty has no current window"
    );
    let output = format!("{CAPTURE_HEADER}\n{ROW}\n");
    assert_eq!(capture(&reply(&output, true)).unwrap().len(), 1);
    assert_eq!(capture(&None).unwrap_err().message, "failed to run osascript");
}
