use rz::cli::{
    Amount, Command, RestoreOptions, SaveOptions, USAGE, WatchOptions, WatchScope, WorkerOptions,
    age_parts, interval_parts, parse, parse_age, parse_interval, parse_list, parse_restore,
    parse_save, parse_worker, whole_amount,
};
use rz::error::Error;
use rz::watch::{display_interval, save_arguments, worker_arguments};

fn strings(values: &[&str]) -> Vec<String> {
    values.iter().map(|value| value.to_string()).collect()
}

fn seconds(parts: (String, u64)) -> Option<u64> {
    let number = parts.0.parse::<f64>().ok()?;
    if !number.is_finite() || number < 0.0 {
        return None;
    }
    Some((number * parts.1 as f64).round() as u64)
}

fn amount(value: &str) -> Amount {
    Amount {
        interval: interval_parts(value).and_then(seconds),
        age: age_parts(value).and_then(seconds),
    }
}

fn parsed(values: &[&str]) -> Result<Command, Error> {
    let amounts = values.iter().map(|value| amount(value)).collect::<Vec<_>>();
    parse(&strings(values), &amounts)
}

fn age(value: &str) -> Result<u64, Error> {
    parse_age(value, amount(value).age)
}

fn interval(value: &str) -> Result<u64, Error> {
    parse_interval(value, amount(value).interval)
}

fn message(values: &[&str]) -> String {
    parsed(values).unwrap_err().message
}

#[test]
fn parses_fast_current_window_save() {
    let command = parsed(&["--save", "backup", "--no-scrollback", "--current-window"]).unwrap();
    assert_eq!(
        command,
        Command::Save(SaveOptions {
            name: "backup".into(),
            capture_scrollback: false,
            current_window: true,
            window_id: None,
        })
    );
}

#[test]
fn rejects_two_window_selectors() {
    let error = parsed(&["--save", "backup", "--current-window", "--window-id", "window-1"])
        .unwrap_err();
    assert!(error.message.contains("either --current-window or --window-id"));
}

#[test]
fn parses_restore_modes() {
    let command = parsed(&["--keep-existing", "--session", "work", "--dry-run"]).unwrap();
    assert_eq!(
        command,
        Command::Restore(RestoreOptions {
            selector: Some("work".into()),
            dry_run: true,
            close_existing: false,
        })
    );
}

#[test]
fn parses_watch_intervals_and_scopes() {
    let command = parsed(&["--watch", "backup", "--every", "15m"]).unwrap();
    assert_eq!(
        command,
        Command::StartWatch(WatchOptions {
            name: "backup".into(),
            interval_seconds: 900,
            scope: WatchScope::CurrentWindow,
        })
    );
    assert!(parsed(&["--watch", "backup", "--every", "5s"]).is_err());
}

#[test]
fn parses_friendly_cleanup_ages() {
    assert_eq!(age("2.days").unwrap(), 172_800);
    assert_eq!(age("2weeks").unwrap(), 1_209_600);
    assert_eq!(age("12h").unwrap(), 43_200);
    assert!(age("last-week").is_err());
}

#[test]
fn validates_list_number() {
    assert_eq!(parse_list(&Vec::new()).unwrap(), None);
    assert_eq!(parse_list(&vec!["12".into()]).unwrap(), Some(12));
    assert!(parse_list(&vec!["0".into()]).is_err());
}

#[test]
fn list_numbers_have_no_zero_in_front() {
    for bad in ["00", "01", "+0", "-1", "x", "", "99999999999999999999999"] {
        assert_eq!(
            parse_list(&vec![bad.into()]).unwrap_err().message,
            "use rz --list [NUMBER] with a number shown by rz --list"
        );
    }
    assert_eq!(parse_list(&vec!["+3".into()]).unwrap(), Some(3));
    assert!(parse_list(&strings(&["1", "2"])).is_err());
    assert_eq!(parsed(&["--list", "12"]).unwrap(), Command::List(Some(12)));
    assert_eq!(parsed(&["--list"]).unwrap(), Command::List(None));
}

#[test]
fn words_stand_alone() {
    assert_eq!(parsed(&["--watch-status"]).unwrap(), Command::WatchStatus);
    assert_eq!(parsed(&["--watch-stop"]).unwrap(), Command::WatchStop);
    assert_eq!(parsed(&["--help"]).unwrap(), Command::Help);
    assert_eq!(parsed(&["--version"]).unwrap(), Command::Version);
    assert_eq!(parsed(&["-V"]).unwrap(), Command::Version);
    assert_eq!(message(&["--help", "x"]), "unknown restore option \"--help\"");
    assert_eq!(message(&["--watch-stop", "x"]), "unknown restore option \"--watch-stop\"");
    assert!(USAGE.starts_with("Usage:\n  rz --save NAME\n"));
    assert!(USAGE.ends_with("\n  rz --version"));
}

#[test]
fn nothing_restores_the_newest() {
    assert_eq!(
        parsed(&[]).unwrap(),
        Command::Restore(RestoreOptions { selector: None, dry_run: false, close_existing: true })
    );
}

#[test]
fn save_failures_are_told() {
    assert_eq!(message(&["--save"]), "missing snapshot name");
    assert_eq!(message(&["--save", "a", "--window-id"]), "missing value for --window-id");
    assert_eq!(message(&["--save", "a", "b\"c"]), "unknown save option \"b\\\"c\"");
    assert_eq!(
        parse_save(&strings(&["a", "--window-id", "1", "--window-id", "2"])).unwrap(),
        SaveOptions {
            name: "a".into(),
            capture_scrollback: true,
            current_window: false,
            window_id: Some("2".into()),
        }
    );
}

#[test]
fn restore_failures_are_told() {
    assert_eq!(message(&["--session"]), "missing value for --session");
    assert_eq!(message(&["--session", "a", "--session", "b"]), "use --session only once");
    assert_eq!(message(&["--dry-run", "x"]), "unknown restore option \"x\"");
    assert_eq!(
        parse_restore(&strings(&["--session", "--dry-run"])).unwrap().selector.as_deref(),
        Some("--dry-run")
    );
}

#[test]
fn watch_failures_are_told() {
    assert_eq!(message(&["--watch"]), "missing watcher snapshot name");
    assert_eq!(message(&["--watch", "a"]), "missing --every INTERVAL");
    assert_eq!(message(&["--watch", "a", "--every"]), "missing value for --every");
    assert_eq!(message(&["--watch", "a", "--x"]), "unknown watcher option \"--x\"");
    assert_eq!(
        message(&["--watch", "a", "--every", "9.4s"]),
        "watch interval must be at least 10 seconds"
    );
    assert_eq!(
        parsed(&["--watch", "a", "--all-windows", "--every", "1h", "--every", "9.5s"]).unwrap(),
        Command::StartWatch(WatchOptions {
            name: "a".into(),
            interval_seconds: 10,
            scope: WatchScope::AllWindows,
        })
    );
}

#[test]
fn intervals_are_read() {
    assert_eq!(interval("30").unwrap(), 30);
    assert_eq!(interval("30S").unwrap(), 30);
    assert_eq!(interval("1.5H").unwrap(), 5_400);
    assert_eq!(
        interval("1d").unwrap_err().message,
        "invalid interval \"1d\"; use seconds, minutes, or hours such as 30s, 15m, or 1h"
    );
    assert_eq!(
        interval("1.2.3m").unwrap_err().message,
        "invalid interval \"1.2.3m\"; expected a positive number and unit"
    );
    assert_eq!(
        interval("m").unwrap_err().message,
        "invalid interval \"m\"; expected a positive number and unit"
    );
}

#[test]
fn ages_are_read() {
    assert_eq!(age("1").unwrap(), 1);
    assert_eq!(age("0.5Weeks").unwrap(), 302_400);
    assert_eq!(age("3minutes").unwrap(), 180);
    assert_eq!(age("0.4s").unwrap_err().message, "cleanup age must be at least one second");
    assert_eq!(
        age("-1d").unwrap_err().message,
        "invalid cleanup age \"-1d\"; use values such as 12h, 7d, 7.days, or 2.weeks"
    );
    assert_eq!(
        age(".days").unwrap_err().message,
        "invalid cleanup age \".days\"; expected a positive number and unit"
    );
    assert_eq!(parsed(&["--clean"]).unwrap(), Command::Clean { age_seconds: 604_800 });
    assert_eq!(parsed(&["--clean", "30d"]).unwrap(), Command::Clean { age_seconds: 2_592_000 });
    assert_eq!(
        message(&["--clean", "1d", "2d"]),
        "use rz --clean [AGE] with a single age such as 7d or 2.weeks"
    );
}

#[test]
fn amounts_are_taken_apart() {
    assert_eq!(interval_parts("15m"), Some(("15".to_owned(), 60)));
    assert_eq!(interval_parts("2w"), None);
    assert_eq!(age_parts("2.weeks"), Some(("2.".to_owned(), 604_800)));
    assert_eq!(age_parts(""), Some((String::new(), 1)));
}

fn options(window_id: Option<&str>) -> WorkerOptions {
    WorkerOptions {
        token: "0123456789abcdef0123456789abcdef".into(),
        name: "backup".into(),
        interval_seconds: 900,
        owner_pid: 4_294_967_295,
        owner_started_at: "Mon Jul 20 12:00:00 2026".into(),
        scope: if window_id.is_some() { WatchScope::CurrentWindow } else { WatchScope::AllWindows },
        window_id: window_id.map(str::to_owned),
        state_path: "/state/watchers/shell-7.json".into(),
    }
}

#[test]
fn workers_read_what_they_are_told() {
    for options in [options(None), options(Some("window-1"))] {
        let arguments = worker_arguments(&options);
        assert_eq!(arguments.len(), 9);
        let words = arguments.iter().map(String::as_str).collect::<Vec<_>>();
        assert_eq!(parsed(&words).unwrap(), Command::WatchWorker(options));
    }
}

#[test]
fn workers_save_what_they_watch() {
    for window in [None, Some("window-1")] {
        let arguments = save_arguments(&options(window));
        let words = arguments.iter().map(String::as_str).collect::<Vec<_>>();
        assert_eq!(
            parsed(&words).unwrap(),
            Command::Save(SaveOptions {
                name: "backup".into(),
                capture_scrollback: false,
                current_window: false,
                window_id: window.map(str::to_owned),
            })
        );
    }
}

#[test]
fn worker_failures_are_told() {
    let base = ["t", "n", "900", "7", "s", "all-windows", "-", "p"];
    let with = |place: usize, value: &str| {
        let mut values = strings(&base);
        values[place] = value.to_owned();
        parse_worker(&values).unwrap_err().message
    };
    assert!(parse_worker(&strings(&base)).is_ok());
    assert_eq!(
        parse_worker(&strings(&base[..7])).unwrap_err().message,
        "malformed watcher worker arguments"
    );
    assert_eq!(with(2, ""), "cannot parse integer from empty string");
    assert_eq!(with(2, "1x"), "invalid digit found in string");
    assert_eq!(with(2, "18446744073709551616"), "number too large to fit in target type");
    assert_eq!(with(3, "4294967296"), "number too large to fit in target type");
    assert_eq!(with(3, "-1"), "invalid digit found in string");
    assert_eq!(with(5, "window"), "invalid watcher scope");
}

#[test]
fn failures_read_as_those_of_std() {
    for text in ["", "+", "-", "1x", "x1", "18446744073709551615", "18446744073709551616", "+7", "007"] {
        let expected = text.parse::<u64>().map_err(|error| error.to_string());
        let mut values = strings(&["t", "n", "900", "7", "s", "all-windows", "-", "p"]);
        values[2] = text.to_owned();
        let actual = parse_worker(&values)
            .map(|options| options.interval_seconds)
            .map_err(|error| error.message);
        assert_eq!(actual, expected);
    }
}

#[test]
fn whole_amounts_need_no_fractions() {
    assert_eq!(whole_amount("2.", 604_800), Some(1_209_600));
    assert_eq!(whole_amount("007", 60), Some(420));
    assert_eq!(whole_amount("9007199254740991", 1), Some(9_007_199_254_740_991));
    assert_eq!(whole_amount("9007199254740992", 1), None);
    assert_eq!(whole_amount("150119987579017", 60), None);
    for other in ["", ".", "+1", "-1", "1.5", "1..", ".5", "x", "99999999999999999999999"] {
        assert_eq!(whole_amount(other, 1), None);
    }
    assert_eq!(parse_age("2.days", None).unwrap(), 172_800);
    assert_eq!(parse_age("2weeks", Some(7)).unwrap(), 1_209_600);
    assert_eq!(parse_interval("15m", None).unwrap(), 900);
    assert_eq!(parse_interval("1.5h", Some(5_400)).unwrap(), 5_400);
    assert!(parse_interval("1.5h", None).is_err());
}

#[test]
fn whole_amounts_are_those_of_floating_point() {
    for number in ["0", "1", "2.", "59", "3600", "123456789", "9007199254740991", "52535", "00012"] {
        for unit in [1, 60, 3_600, 86_400, 604_800] {
            if let Some(exact) = whole_amount(number, unit) {
                assert_eq!(Some(exact), seconds((number.to_owned(), unit)));
            }
        }
    }
}

#[test]
fn displayed_intervals_are_read_back() {
    for n in [10, 15, 60, 900, 3_600, 3_601, 5_400, 86_400, 9_007_199_254_740_991] {
        assert_eq!(parse_interval(&display_interval(n), None).unwrap(), n);
    }
}
