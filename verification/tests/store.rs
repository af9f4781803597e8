use rz::clean::{
    age_decision, check_removal, clean_cutoff, clean_decision, clean_plan, clean_report, clean_span,
};
use rz::clock::{Moment, display_time, is_earlier, moment_of, shown_or_stored, stored_time};
use rz::error::Error;
use rz::model::{
    Agent, Position, Scope, SessionKey, Size, Snapshot, Tab, Terminal, Window, all_terminals,
    default_agent,
};
use rz::report::{
    content_summary, held_session_ids, human_duration, layout_summary, restore_preview,
    restored_report, saved_report, saved_tab_lines, snapshot_details, untitled, validate_name,
    validate_snapshot,
};
use rz::store::{
    Entry, TimedEntry, in_time_order, is_listed, list, newest_snapshot_id, resolve_snapshot,
    snapshot_directories,
};

fn terminal() -> Terminal {
    Terminal {
        index: 1,
        id: None,
        name: "shell".into(),
        focused: true,
        working_directory: "/tmp/project".into(),
        scrollback_file: None,
        codex_session_id: None,
        amp_thread_id: None,
    }
}

fn snapshot(name: &str, id: &str, saved_at: &str) -> Snapshot {
    Snapshot {
        version: 1,
        name: name.into(),
        id: id.into(),
        saved_at: saved_at.into(),
        timestamp: "time".into(),
        ghostty_version: "1.3.1".into(),
        tabs_count: 1,
        terminals_count: 1,
        scrollback_captured: false,
        scope: Scope::AllWindows,
        windows: vec![Window {
            index: 1,
            id: None,
            name: "Work".into(),
            position: None,
            size: None,
            tabs: vec![Tab {
                index: 1,
                id: None,
                name: "Project".into(),
                selected: true,
                terminals: vec![terminal()],
            }],
        }],
        detected_codex_sessions: Vec::new(),
        detected_amp_threads: Vec::new(),
        warnings: Vec::new(),
        limitations: Vec::new(),
    }
}

fn entry(directory: &str, name: &str, saved_at: &str) -> Entry {
    let id = directory.rsplit('/').next().unwrap();
    Entry { directory: directory.into(), snapshot: Ok(snapshot(name, id, saved_at)) }
}

fn broken(directory: &str) -> Entry {
    Entry { directory: directory.into(), snapshot: Err(Error::from_text("invalid snapshot state")) }
}

fn names(entries: &[Entry]) -> Vec<&str> {
    entries.iter().map(|entry| entry.directory.rsplit('/').next().unwrap()).collect()
}

#[test]
fn sorts_snapshot_directories_by_saved_time() {
    let directories = snapshot_directories(vec![
        entry("/snapshots/new", "work", "2026-07-21T12:00:00+03:00"),
        entry("/snapshots/old", "work", "2026-07-20T12:00:00+03:00"),
    ]);
    assert_eq!(names(&directories), ["old", "new"]);
}

#[test]
fn the_newest_snapshot_is_newest_in_time() {
    let entries = snapshot_directories(vec![
        entry("/snapshots/b", "work", "2026-07-20T10:00:00+00:00"),
        entry("/snapshots/a", "work", "2026-07-20T12:00:00+03:00"),
    ]);
    assert_eq!(names(&entries), ["a", "b"]);
    assert_eq!(resolve_snapshot(&entries, None).unwrap(), 1);
    assert_eq!(resolve_snapshot(&entries, Some("work")).unwrap(), 1);
    assert_eq!(newest_snapshot_id(&entries, "work").as_deref(), Some("b"));
    assert_eq!(list(&entries, None, "/s").unwrap().lines[0], "01  b");
    let mixed = snapshot_directories(vec![
        entry("/s/later", "work", "2026-07-20T10:00:00.5Z"),
        entry("/s/odd", "work", "9999"),
        entry("/s/twin", "work", "2026-07-20T10:00:00Z"),
        entry("/s/same", "work", "2026-07-20T13:00:00+03:00"),
        broken("/s/zzz"),
    ]);
    assert_eq!(names(&mixed), ["zzz", "twin", "same", "later", "odd"]);
}

#[test]
fn texts_order_what_times_do_not() {
    let at = |seconds: i64| Some(Moment { seconds, nanos: 0, offset: 0 });
    let timed = |directory: &str, text: &str, moment: Option<Moment>| TimedEntry {
        entry: entry(directory, "work", text),
        moment,
    };
    let ordered = in_time_order(vec![
        timed("/s/e", "5", at(10)),
        timed("/s/c", "3", None),
        timed("/s/a", "1", at(30)),
        timed("/s/d", "4", at(20)),
        timed("/s/b", "2", at(20)),
        timed("/s/f", "6", None),
    ]);
    assert_eq!(names(&ordered), ["e", "b", "c", "d", "a", "f"]);
    let by_text = in_time_order(vec![
        timed("/s/b", "same", None),
        timed("/s/c", "1", None),
        timed("/s/a", "same", None),
    ]);
    assert_eq!(names(&by_text), ["c", "a", "b"]);
    assert!(in_time_order(Vec::new()).is_empty());
}

#[test]
fn refuses_to_remove_symlinked_snapshot() {
    let error = check_removal("/snapshots/external", "/snapshots", true).unwrap_err();
    assert!(error.message.contains("refusing to remove unsafe snapshot"));
}

#[test]
fn formats_human_durations() {
    assert_eq!(human_duration(604_800), "7 days");
    assert_eq!(human_duration(3_600), "1 hour");
    assert_eq!(human_duration(12), "12 seconds");
}

#[test]
fn durations_are_in_the_largest_whole_unit() {
    assert_eq!(human_duration(86_400), "1 day");
    assert_eq!(human_duration(90_000), "25 hours");
    assert_eq!(human_duration(60), "1 minute");
    assert_eq!(human_duration(1), "1 second");
    assert_eq!(human_duration(0), "0 seconds");
    assert_eq!(human_duration(u64::MAX), "18446744073709551615 seconds");
}

#[test]
fn unreadable_snapshots_come_first_by_name() {
    let directories = snapshot_directories(vec![
        entry("/s/b", "work", "2026"),
        broken("/s/z"),
        entry("/s/a", "work", "2026"),
        broken("/s/y"),
        entry("/s/c", "work", "2025"),
    ]);
    assert_eq!(names(&directories), ["y", "z", "c", "a", "b"]);
}

#[test]
fn hidden_directories_are_not_listed() {
    assert!(!is_listed(".work_1.77.tmp"));
    assert!(is_listed("work_1"));
    assert!(is_listed(""));
}

#[test]
fn the_snapshot_that_is_meant_is_found() {
    let entries = vec![
        entry("/s/one", "work", "1"),
        entry("/s/two", "work", "2"),
        entry("/s/work", "other", "3"),
        broken("/s/four"),
    ];
    assert_eq!(resolve_snapshot(&entries, None).unwrap(), 3);
    assert_eq!(resolve_snapshot(&entries, Some("one")).unwrap(), 0);
    assert_eq!(resolve_snapshot(&entries, Some("work")).unwrap(), 2);
    assert_eq!(resolve_snapshot(&entries, Some("other")).unwrap(), 2);
    assert_eq!(resolve_snapshot(&entries, Some("time")).unwrap(), 2);
    assert_eq!(resolve_snapshot(&entries[..2].iter().map(|e| entry(&e.directory, "work", "1")).collect(), Some("work")).unwrap(), 1);
    assert_eq!(
        resolve_snapshot(&entries, Some("it's")).unwrap_err().message,
        "no saved session matches \"it's\"; run rz --list"
    );
    assert!(resolve_snapshot(&entries, Some("")).is_err());
    assert_eq!(
        resolve_snapshot(&Vec::new(), Some("one")).unwrap_err().message,
        "no saved sessions; create one with rz --save NAME"
    );
    assert_eq!(newest_snapshot_id(&entries, "work").as_deref(), Some("two"));
    assert_eq!(newest_snapshot_id(&entries, "time"), None);
}

#[test]
fn snapshots_are_listed_newest_first() {
    let entries = vec![
        entry("/s/old", "work", "2026-07-20T12:00:00+03:00"),
        entry("/s/new", "work", "not a time"),
    ];
    let report = list(&entries, None, "/s").unwrap();
    assert_eq!(report.title, "SAVED WORKSPACES");
    assert_eq!(
        report.lines,
        [
            "01  new",
            "    not a time  |  1 window(s)  |  1 tab(s)  |  1 terminal(s)",
            "02  old",
            "    2026-07-20 12:00:00 +03:00  |  1 window(s)  |  1 tab(s)  |  1 terminal(s)",
            "",
            "LOCATION     /s",
        ]
    );
    let empty = list(&Vec::new(), Some(3), "/s").unwrap();
    assert_eq!(empty.title, "SAVED WORKSPACES");
    assert_eq!(empty.lines, ["No snapshots found.", "LOCATION     /s"]);
    assert_eq!(
        list(&entries, Some(3), "/s").err().unwrap().message,
        "snapshot number 3 is out of range; choose 1-2 from rz --list"
    );
    let details = list(&entries, Some(2), "/s").unwrap();
    assert_eq!(details.title, "WORKSPACE DETAILS");
    assert_eq!(details.lines[0], "NUMBER       02");
    assert_eq!(details.lines[1], "SNAPSHOT     old");
    let faulty = vec![broken("/s/a"), entry("/s/b", "work", "1")];
    assert_eq!(list(&faulty, None, "/s").err().unwrap().message, "invalid snapshot state");
    assert_eq!(list(&faulty, Some(2), "/s").err().unwrap().message, "invalid snapshot state");
    assert!(list(&faulty, Some(1), "/s").is_ok());
}

#[test]
fn numbers_of_the_list_are_those_of_the_details() {
    let entries = vec![
        entry("/s/a", "work", "1"),
        entry("/s/b", "work", "2"),
        entry("/s/c", "work", "3"),
    ];
    let all = list(&entries, None, "/s").unwrap();
    for (n, id) in [(1, "c"), (2, "b"), (3, "a")] {
        assert_eq!(all.lines[2 * n - 2], format!("{n:02}  {id}"));
        assert_eq!(list(&entries, Some(n), "/s").unwrap().lines[1], format!("SNAPSHOT     {id}"));
    }
}

#[test]
fn unusable_snapshots_are_told() {
    let mut bad = snapshot("work", "work_1", "1");
    assert!(validate_snapshot(&bad).is_ok());
    bad.windows.clear();
    assert_eq!(validate_snapshot(&bad).unwrap_err().message, "snapshot has no windows");
    bad.version = 2;
    assert_eq!(validate_snapshot(&bad).unwrap_err().message, "unsupported snapshot version 2");
    assert!(snapshot_details(1, &bad, "/s").is_err());
    assert_eq!(default_agent(), Agent::Codex);
}

#[test]
fn names_are_checked() {
    for good in ["a", "Work", "0.x_y-z", "a..", "9"] {
        assert!(validate_name(good).is_ok());
    }
    for bad in ["", ".a", "-a", "_a", "a b", "a/b", "ä", "a\n", "a\u{661}"] {
        assert!(validate_name(bad).is_err());
    }
    assert_eq!(
        validate_name("a b").unwrap_err().message,
        "invalid snapshot name \"a b\"; use letters, numbers, dot, underscore, or dash"
    );
}

fn rich() -> Snapshot {
    let mut snapshot = snapshot("work", "work_1", "2026-07-20T12:00:00.5Z");
    snapshot.scope = Scope::Window { window_id: "w-1".into() };
    snapshot.scrollback_captured = true;
    snapshot.warnings = vec!["careful".into()];
    snapshot.limitations = vec!["limited".into()];
    snapshot.windows[0].size = Some(Size { width: 30, height: 40 });
    snapshot.windows[0].position = Some(Position { x: -1, y: 2 });
    let tab = &mut snapshot.windows[0].tabs[0];
    tab.terminals[0].scrollback_file = Some("scrollback/a.txt".into());
    tab.terminals[0].codex_session_id = Some("c-1".into());
    tab.terminals.push(Terminal {
        index: 2,
        name: " ".into(),
        focused: false,
        working_directory: String::new(),
        amp_thread_id: Some("T-1".into()),
        ..terminal()
    });
    let mut second = snapshot.windows[0].clone();
    second.index = 2;
    second.name = String::new();
    second.size = None;
    second.position = None;
    second.tabs.truncate(1);
    second.tabs[0].selected = false;
    second.tabs[0].terminals.clear();
    snapshot.windows.push(second);
    snapshot.tabs_count = 2;
    snapshot
}

#[test]
fn everything_is_told_about_a_snapshot() {
    assert_eq!(
        snapshot_details(7, &rich(), "/s/work_1").unwrap(),
        [
            "NUMBER       07",
            "SNAPSHOT     work_1",
            "SAVED        2026-07-20 12:00:00 +00:00  |  Ghostty 1.3.1",
            "SCOPE        Ghostty window w-1",
            "LAYOUT       2 window(s)  |  2 tab(s)  |  2 terminal(s)",
            "CONTENT      1 Codex session(s)  |  1 Amp thread(s)  |  1 scrollback file(s)",
            "",
            "WINDOW       1  Work  |  30x40 at -1,2",
            "TAB          1.1  Project  |  2 terminal(s)  |  selected",
            "TERM         1.1.1  shell  |  focused, scrollback",
            "CWD          /tmp/project",
            "CODEX        c-1",
            "TERM         1.1.2  (untitled)",
            "AMP          T-1",
            "",
            "WINDOW       2  (untitled)",
            "TAB          2.1  Project  |  0 terminal(s)",
            "WARNING      careful",
            "",
            "LOCATION     /s/work_1",
        ]
    );
}

#[test]
fn restores_are_previewed() {
    assert_eq!(
        restore_preview(&rich(), "/s/work_1", true),
        [
            "STATUS       Dry run - Ghostty will not be changed",
            "SNAPSHOT     work_1",
            "SAVED        2026-07-20 12:00:00 +00:00  |  Ghostty 1.3.1",
            "LAYOUT       2 window(s)  |  2 tab(s)  |  2 terminal(s)",
            "WINDOWS      Existing Ghostty windows will close after restore",
            "CODEX        1 session(s)",
            "              c-1",
            "AMP          1 thread(s)",
            "              T-1",
            "LOCATION     /s/work_1",
            "NOTE         limited",
        ]
    );
    let plain = restore_preview(&snapshot("work", "w", "1"), "/s", false);
    assert_eq!(plain[4], "WINDOWS      Existing Ghostty windows will remain open");
    assert_eq!(plain[5], "CODEX        none");
    assert_eq!(plain[6], "AMP          none");
    assert_eq!(held_session_ids(&rich(), Agent::Amp), ["T-1"]);
    assert_eq!(all_terminals(&rich()).len(), 2);
}

#[test]
fn saves_and_restores_are_reported() {
    assert_eq!(
        saved_report(&rich(), None, "/s/work_1", &vec!["odd".into()]),
        [
            "SNAPSHOT     work_1",
            "SCOPE        all Ghostty windows",
            "LAYOUT       2 window(s)  |  2 tab(s)  |  2 terminal(s)",
            "TAB 1.1      Project",
            "TAB 2.1      Project",
            "CONTENT      1 Codex session(s)  |  1 Amp thread(s)  |  1 scrollback file(s)",
            "LOCATION     /s/work_1",
            "WARNING      odd",
        ]
    );
    assert_eq!(saved_report(&rich(), Some("w"), "/s", &Vec::new())[1], "SCOPE        Ghostty window w");
    let duplicates = vec![SessionKey { agent: Agent::Amp, id: "T-1".into() }];
    assert_eq!(
        restored_report(&rich(), false, &duplicates, "said"),
        [
            "SNAPSHOT     work_1",
            "LAYOUT       2 window(s)  |  2 tab(s)  |  2 terminal(s)",
            "STATUS       Restored into new Ghostty window(s); existing windows kept",
            "WARNING      Amp thread already running; opened a shell: T-1",
            "GHOSTTY      said",
        ]
    );
    assert_eq!(
        restored_report(&rich(), true, &Vec::new(), "").last().unwrap(),
        "STATUS       Restored; previous Ghostty window(s) scheduled to close"
    );
    assert_eq!(content_summary(1, 2, 3, false), "1 Codex session(s)  |  2 Amp thread(s)  |  scrollback skipped");
    assert_eq!(layout_summary(&rich()), "2 window(s)  |  2 tab(s)  |  2 terminal(s)");
    assert_eq!(saved_tab_lines(&rich()).len(), 2);
    assert_eq!(untitled("\t x "), "x");
}

#[test]
fn times_are_read_and_shown() {
    let moment = moment_of("2026-07-20T12:00:00.25+03:00").unwrap();
    assert_eq!(moment, Moment { seconds: 1_784_538_000, nanos: 250_000_000, offset: 10_800 });
    assert_eq!(stored_time(moment).as_deref(), Some("2026-07-20T12:00:00.250+03:00"));
    assert_eq!(display_time("2026-07-20T12:00:00.25+03:00"), "2026-07-20 12:00:00 +03:00");
    assert_eq!(display_time("soon"), "soon");
    assert_eq!(shown_or_stored("soon", None), "soon");
    assert_eq!(shown_or_stored("soon", Some("now".into())), "now");
    assert_eq!(stored_time(Moment { seconds: i64::MAX, nanos: 0, offset: 0 }), None);
    assert_eq!(stored_time(Moment { seconds: 0, nanos: 0, offset: 90_000 }), None);
    assert_eq!(moment_of("").unwrap_err().message, "premature end of input");
    let utc = moment_of("2026-07-20T09:00:00.25Z").unwrap();
    assert!(!is_earlier(moment, utc) && !is_earlier(utc, moment));
    assert!(is_earlier(moment, Moment { nanos: 250_000_001, ..moment }));
    assert!(is_earlier(Moment { nanos: 999_999_999, seconds: 0, offset: 0 }, Moment { nanos: 0, seconds: 1, offset: 0 }));
}

#[test]
fn old_snapshots_are_removed() {
    let cutoff = moment_of("2026-07-20T12:00:00+03:00").unwrap();
    let entries = vec![
        entry("/s/older", "work", "2026-07-20T08:59:59Z"),
        entry("/s/same", "work", "2026-07-20T12:00:00+03:00"),
        entry("/s/stuck", "work", "2026-07-20T11:00:00+03:00"),
        entry("/s/odd", "work", "yesterday"),
        broken("/s/broken"),
    ];
    assert_eq!(clean_plan(&entries, cutoff), [true, false, true, false, false]);
    assert_eq!(clean_decision(&entries[1], cutoff).unwrap(), None);
    assert_eq!(clean_decision(&entries[4], cutoff).unwrap_err().message, "invalid snapshot state");
    let saved = moment_of("2026-07-20T08:59:59Z").unwrap();
    assert_eq!(age_decision(saved, cutoff), Some(saved));
    assert_eq!(age_decision(cutoff, cutoff), None);
    let failures = vec![None, None, Some(Error::from_text("busy")), None, None];
    let report = clean_report(604_800, cutoff, "CUT", "/s", &entries, &failures);
    assert_eq!(report.title, "SNAPSHOTS CLEANED");
    assert_eq!(
        report.lines,
        [
            "OLDER THAN   7 days",
            "CUTOFF       CUT",
            "REMOVED      1 snapshot(s)",
            "KEPT         1 newer snapshot(s)",
            "LOCATION     /s",
            "PURGED       older  |  2026-07-20 08:59:59 +00:00",
            "WARNING      kept stuck: busy",
            "WARNING      kept odd: premature end of input",
            "WARNING      kept broken: invalid snapshot state",
        ]
    );
    assert_eq!(clean_span(7).unwrap(), 7);
    assert_eq!(
        clean_span(9_223_372_036_854_775_808).unwrap_err().message,
        "out of range integral type conversion attempted"
    );
}

#[test]
fn only_snapshots_are_removed() {
    assert!(check_removal("/s/snapshots/work_1", "/s/snapshots", false).is_ok());
    assert!(check_removal("/s/snapshots//work_1/", "/s/snapshots/", false).is_ok());
    assert!(check_removal("/s/snapshots", "/s/snapshots", false).is_err());
    assert!(check_removal("/s/snapshots/a/b", "/s/snapshots", false).is_err());
    assert_eq!(
        check_removal("/s/it's", "/t", false).unwrap_err().message,
        format!(
            "refusing to remove unsafe snapshot path {:?}",
            std::path::Path::new("/s/it's")
        )
    );
}

#[test]
fn the_cutoff_is_the_age_before_now() {
    let now = moment_of("2026-07-27T12:00:00.5Z").unwrap();
    let cutoff = clean_cutoff(now, 604_800).unwrap();
    assert_eq!(stored_time(cutoff).as_deref(), Some("2026-07-20T12:00:00.500+00:00"));
    let entries = vec![
        entry("/s/a", "work", "2026-07-20T12:00:00.4Z"),
        entry("/s/b", "work", "2026-07-20T12:00:00.5Z"),
        entry("/s/c", "work", "2026-07-20T14:59:59+03:00"),
    ];
    assert_eq!(clean_plan(&entries, cutoff), [true, false, true]);
    assert_eq!(
        clean_cutoff(now, u64::MAX).unwrap_err().message,
        "out of range integral type conversion attempted"
    );
}
