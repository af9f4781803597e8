//! What the command line asks for.
use vstd::prelude::*;
use vstd::string::*;

use crate::error::{Error, debug_text, quoted};
use crate::number::{
    NumberFault, decimal, lemma_decimal_digits, lemma_scan_decimal, parse_size, parse_u32,
    parse_unsigned, read_unsigned, scan,
};
use crate::text::{
    begins, char_is_digit, chars_of, is_digit, lower, lowered, optional_text, same, starts_with,
    text_between, texts,
};

verus! {

/// What the program is told with `--help`.
pub const USAGE: &'static str = "Usage:
  rz --save NAME
  rz --save NAME [--no-scrollback] [--current-window]
  rz --watch NAME --every INTERVAL [--current-window | --all-windows]
  rz --watch-status
  rz --watch-stop
  rz --clean [AGE]
  rz [--keep-existing]
  rz --session NAME_OR_TIMESTAMP [--keep-existing] [--dry-run]
  rz --dry-run [--keep-existing]
  rz --list [NUMBER]
  rz --version";

/// The shortest interval of a watcher, in seconds.
pub const MINIMUM_WATCH_INTERVAL: u64 = 10;

/// The age from which snapshots are removed where none is given: seven days, in
/// seconds.
pub const DEFAULT_CLEAN_AGE: u64 = 604_800;

/// What the command line asks for.
#[derive(Debug, Clone, PartialEq, Eq)]
pub enum Command {
    Save(SaveOptions),
    Restore(RestoreOptions),
    List(Option<usize>),
    Clean { age_seconds: u64 },
    StartWatch(WatchOptions),
    WatchStatus,
    WatchStop,
    WatchWorker(WorkerOptions),
    Help,
    Version,
}

/// How a snapshot is saved.
#[derive(Debug, Clone, PartialEq, Eq)]
pub struct SaveOptions {
    pub name: String,
    pub capture_scrollback: bool,
    pub current_window: bool,
    pub window_id: Option<String>,
}

/// How a snapshot is restored.
#[derive(Debug, Clone, PartialEq, Eq)]
pub struct RestoreOptions {
    pub selector: Option<String>,
    pub dry_run: bool,
    pub close_existing: bool,
}

/// How a watcher is started.
#[derive(Debug, Clone, PartialEq, Eq)]
pub struct WatchOptions {
    pub name: String,
    pub interval_seconds: u64,
    pub scope: WatchScope,
}

/// What a watcher saves.
#[derive(Debug, Clone, Copy, PartialEq, Eq, Structural)]
pub enum WatchScope {
    CurrentWindow,
    AllWindows,
}

/// What the worker of a watcher is told.
#[derive(Debug, Clone, PartialEq, Eq)]
pub struct WorkerOptions {
    pub token: String,
    pub name: String,
    pub interval_seconds: u64,
    pub owner_pid: u32,
    pub owner_started_at: String,
    pub scope: WatchScope,
    pub window_id: Option<String>,
    pub state_path: String,
}

/// What an argument amounts to in whole seconds: its number times the seconds of
/// its unit, rounded, as an interval and as an age. It is asked for where the number
/// has a fraction or the amount is 2^53 or more. `None` stands for a number that
/// cannot be read or is not finite.
#[derive(Debug, Clone, Copy, PartialEq, Eq, Structural)]
pub struct Amount {
    pub interval: Option<u64>,
    pub age: Option<u64>,
}

// ---------------------------------------------------------------------------
// Views
// ---------------------------------------------------------------------------
/// The view of a `Command`.
pub enum CommandModel {
    Save(SaveModel),
    Restore(RestoreModel),
    List(Option<usize>),
    Clean { age_seconds: u64 },
    StartWatch(WatchOptionsModel),
    WatchStatus,
    WatchStop,
    WatchWorker(WorkerModel),
    Help,
    Version,
}

/// The view of `SaveOptions`.
pub struct SaveModel {
    pub name: Seq<char>,
    pub capture_scrollback: bool,
    pub current_window: bool,
    pub window_id: Option<Seq<char>>,
}

/// The view of `RestoreOptions`.
pub struct RestoreModel {
    pub selector: Option<Seq<char>>,
    pub dry_run: bool,
    pub close_existing: bool,
}

/// The view of `WatchOptions`.
pub struct WatchOptionsModel {
    pub name: Seq<char>,
    pub interval_seconds: u64,
    pub scope: WatchScope,
}

/// The view of `WorkerOptions`.
pub struct WorkerModel {
    pub token: Seq<char>,
    pub name: Seq<char>,
    pub interval_seconds: u64,
    pub owner_pid: u32,
    pub owner_started_at: Seq<char>,
    pub scope: WatchScope,
    pub window_id: Option<Seq<char>>,
    pub state_path: Seq<char>,
}

impl View for SaveOptions {
    type V = SaveModel;

    open spec fn view(&self) -> SaveModel {
        SaveModel {
            name: self.name@,
            capture_scrollback: self.capture_scrollback,
            current_window: self.current_window,
            window_id: optional_text(self.window_id),
        }
    }
}

impl View for RestoreOptions {
    type V = RestoreModel;

    open spec fn view(&self) -> RestoreModel {
        RestoreModel {
            selector: optional_text(self.selector),
            dry_run: self.dry_run,
            close_existing: self.close_existing,
        }
    }
}

impl View for WatchOptions {
    type V = WatchOptionsModel;

    open spec fn view(&self) -> WatchOptionsModel {
        WatchOptionsModel {
            name: self.name@,
            interval_seconds: self.interval_seconds,
            scope: self.scope,
        }
    }
}

impl View for WorkerOptions {
    type V = WorkerModel;

    open spec fn view(&self) -> WorkerModel {
        WorkerModel {
            token: self.token@,
            name: self.name@,
            interval_seconds: self.interval_seconds,
            owner_pid: self.owner_pid,
            owner_started_at: self.owner_started_at@,
            scope: self.scope,
            window_id: optional_text(self.window_id),
            state_path: self.state_path@,
        }
    }
}

impl View for Command {
    type V = CommandModel;

    open spec fn view(&self) -> CommandModel {
        match self {
            Command::Save(options) => CommandModel::Save(options@),
            Command::Restore(options) => CommandModel::Restore(options@),
            Command::List(number) => CommandModel::List(*number),
            Command::Clean { age_seconds } => CommandModel::Clean { age_seconds: *age_seconds },
            Command::StartWatch(options) => CommandModel::StartWatch(options@),
            Command::WatchStatus => CommandModel::WatchStatus,
            Command::WatchStop => CommandModel::WatchStop,
            Command::WatchWorker(options) => CommandModel::WatchWorker(options@),
            Command::Help => CommandModel::Help,
            Command::Version => CommandModel::Version,
        }
    }
}

// ---------------------------------------------------------------------------
// Amounts of time
// ---------------------------------------------------------------------------
/// Whether `c` can be part of a number.
pub open spec fn is_numeral(c: char) -> bool {
    is_digit(c) || c == '.'
}

/// How many characters at the front of `s` can be part of a number.
pub open spec fn numeral_length(s: Seq<char>) -> nat
    decreases s.len(),
{
    if s.len() > 0 && is_numeral(s.first()) {
        1 + numeral_length(s.drop_first())
    } else {
        0
    }
}

/// The number with which an amount begins.
pub open spec fn amount_number(value: Seq<char>) -> Seq<char> {
    value.take(numeral_length(value) as int)
}

/// The unit with which an amount ends, in lower case.
pub open spec fn amount_unit(value: Seq<char>) -> Seq<char> {
    lower(value.skip(numeral_length(value) as int))
}

/// How many seconds the unit of an interval has.
pub open spec fn interval_unit(unit: Seq<char>) -> Option<u64> {
    if unit == ""@ || unit == "s"@ {
        Some(1)
    } else if unit == "m"@ {
        Some(60)
    } else if unit == "h"@ {
        Some(3_600)
    } else {
        None
    }
}

/// How many seconds the unit of an age has.
pub open spec fn age_unit(unit: Seq<char>) -> Option<u64> {
    if unit == ""@ || unit == "s"@ || unit == "second"@ || unit == "seconds"@ {
        Some(1)
    } else if unit == "m"@ || unit == "minute"@ || unit == "minutes"@ {
        Some(60)
    } else if unit == "h"@ || unit == "hour"@ || unit == "hours"@ {
        Some(3_600)
    } else if unit == "d"@ || unit == "day"@ || unit == "days"@ {
        Some(86_400)
    } else if unit == "w"@ || unit == "week"@ || unit == "weeks"@ {
        Some(604_800)
    } else {
        None
    }
}

/// Amounts below this are computed in whole numbers: 2^53.
pub const WHOLE_LIMIT: u64 = 0x20_0000_0000_0000;

/// The digits of a whole number, without the dot that may end it.
pub open spec fn whole_digits(number: Seq<char>) -> Seq<char> {
    if number.len() > 0 && number.last() == '.' {
        number.drop_last()
    } else {
        number
    }
}

/// What a whole number of units of `unit` seconds amounts to, where that is below
/// 2^53.
pub open spec fn whole_seconds(number: Seq<char>, unit: u64) -> Option<u64> {
    let digits = whole_digits(number);
    if digits.len() == 0 {
        None
    } else {
        match scan(digits, (WHOLE_LIMIT - 1) as nat, NumberFault::TooLarge) {
            Ok(n) => if n * unit < WHOLE_LIMIT {
                Some((n * unit) as u64)
            } else {
                None
            },
            Err(_) => None,
        }
    }
}

/// What `value` amounts to, with a unit of `unit` seconds: itself where it is whole
/// and small, else what was computed for it.
pub open spec fn seconds_in(value: Seq<char>, unit: u64, computed: Option<u64>) -> Option<u64> {
    match whole_seconds(amount_number(value), unit) {
        Some(n) => Some(n),
        None => computed,
    }
}

/// The interval that `value` gives; `computed` is what it amounts to where its number
/// has a fraction or is large.
pub open spec fn interval_of(value: Seq<char>, computed: Option<u64>) -> Result<u64, Seq<char>> {
    match interval_unit(amount_unit(value)) {
        None => Err(
            "invalid interval "@ + debug_text(value)
                + "; use seconds, minutes, or hours such as 30s, 15m, or 1h"@,
        ),
        Some(unit) => match seconds_in(value, unit, computed) {
            None => Err(
                "invalid interval "@ + debug_text(value)
                    + "; expected a positive number and unit"@,
            ),
            Some(n) => if n < MINIMUM_WATCH_INTERVAL {
                Err("watch interval must be at least 10 seconds"@)
            } else {
                Ok(n)
            },
        },
    }
}

/// The age that `value` gives; `computed` is what it amounts to where its number has
/// a fraction or is large.
pub open spec fn age_of(value: Seq<char>, computed: Option<u64>) -> Result<u64, Seq<char>> {
    match age_unit(amount_unit(value)) {
        None => Err(
            "invalid cleanup age "@ + debug_text(value)
                + "; use values such as 12h, 7d, 7.days, or 2.weeks"@,
        ),
        Some(unit) => match seconds_in(value, unit, computed) {
            None => Err(
                "invalid cleanup age "@ + debug_text(value)
                    + "; expected a positive number and unit"@,
            ),
            Some(n) => if n < 1 {
                Err("cleanup age must be at least one second"@)
            } else {
                Ok(n)
            },
        },
    }
}

/// How many characters at the front of `chars` can be part of a number.
fn numerals(chars: &Vec<char>) -> (n: usize)
    ensures
        n == numeral_length(chars@),
        n <= chars@.len(),
{
    let mut n: usize = 0;
    assert(chars@.skip(0) == chars@);
    while n < chars.len() && (char_is_digit(chars[n]) || chars[n] == '.')
        invariant
            n <= chars@.len(),
            numeral_length(chars@) == n + numeral_length(chars@.skip(n as int)),
        decreases chars@.len() - n,
    {
        proof {
            let rest = chars@.skip(n as int);
            assert(rest.first() == chars@[n as int]);
            assert(rest.drop_first() == chars@.skip(n + 1));
        }
        n = n + 1;
    }
    proof {
        let rest = chars@.skip(n as int);
        if n < chars@.len() {
            assert(rest.first() == chars@[n as int]);
        }
    }
    n
}

/// The number and the unit of an amount, the unit in lower case.
fn amount_parts(value: &str) -> (r: (String, String))
    ensures
        r.0@ == amount_number(value@),
        r.1@ == amount_unit(value@),
{
    let chars = chars_of(value);
    let n: usize = numerals(&chars);
    let number = text_between(&chars, 0, n);
    let unit = text_between(&chars, n, chars.len());
    assert(number@ =~= chars@.take(n as int));
    assert(unit@ =~= chars@.skip(n as int));
    (number, lowered(unit.as_str()))
}

/// How many seconds the unit of an interval has.
fn interval_unit_seconds(unit: &str) -> (r: Option<u64>)
    ensures
        r == interval_unit(unit@),
{
    if same(unit, "") || same(unit, "s") {
        Some(1)
    } else if same(unit, "m") {
        Some(60)
    } else if same(unit, "h") {
        Some(3_600)
    } else {
        None
    }
}

/// How many seconds the unit of an age has.
fn age_unit_seconds(unit: &str) -> (r: Option<u64>)
    ensures
        r == age_unit(unit@),
{
    if same(unit, "") || same(unit, "s") || same(unit, "second") || same(unit, "seconds") {
        Some(1)
    } else if same(unit, "m") || same(unit, "minute") || same(unit, "minutes") {
        Some(60)
    } else if same(unit, "h") || same(unit, "hour") || same(unit, "hours") {
        Some(3_600)
    } else if same(unit, "d") || same(unit, "day") || same(unit, "days") {
        Some(86_400)
    } else if same(unit, "w") || same(unit, "week") || same(unit, "weeks") {
        Some(604_800)
    } else {
        None
    }
}

/// The number of an interval, and how many seconds its unit has; `None` where the
/// unit is not one of an interval.
pub fn interval_parts(value: &str) -> (r: Option<(String, u64)>)
    ensures
        match r {
            Some(parts) => parts.0@ == amount_number(value@) && interval_unit(amount_unit(value@))
                == Some(parts.1),
            None => interval_unit(amount_unit(value@)) is None,
        },
{
    let (number, unit) = amount_parts(value);
    match interval_unit_seconds(unit.as_str()) {
        Some(seconds) => Some((number, seconds)),
        None => None,
    }
}

/// The number of an age, and how many seconds its unit has; `None` where the unit
/// is not one of an age.
pub fn age_parts(value: &str) -> (r: Option<(String, u64)>)
    ensures
        match r {
            Some(parts) => parts.0@ == amount_number(value@) && age_unit(amount_unit(value@))
                == Some(parts.1),
            None => age_unit(amount_unit(value@)) is None,
        },
{
    let (number, unit) = amount_parts(value);
    match age_unit_seconds(unit.as_str()) {
        Some(seconds) => Some((number, seconds)),
        None => None,
    }
}

/// The failure that shows a value between two texts.
fn value_error(front: &str, value: &str, back: &str) -> (r: Error)
    ensures
        r@ == front@ + debug_text(value@) + back@,
{
    let mut message = front.to_owned();
    message.append(quoted(value).as_str());
    message.append(back);
    Error::new(message)
}

/// The failure that ends in a value.
fn option_error(front: &str, value: &str) -> (r: Error)
    ensures
        r@ == front@ + debug_text(value@),
{
    let mut message = front.to_owned();
    message.append(quoted(value).as_str());
    Error::new(message)
}

/// What a whole number of units of `unit` seconds amounts to, where that is below
/// 2^53: `None` for any other number.
pub fn whole_amount(number: &str, unit: u64) -> (r: Option<u64>)
    ensures
        r == whole_seconds(number@, unit),
{
    let chars = chars_of(number);
    let length: usize = chars.len();
    let n: usize = if length > 0 && chars[length - 1] == '.' {
        length - 1
    } else {
        length
    };
    let digits = text_between(&chars, 0, n);
    assert(digits@ =~= whole_digits(number@));
    if n == 0 {
        return None;
    }
    if chars[0] == '+' {
        proof {
            lemma_scan_sign(digits@, (WHOLE_LIMIT - 1) as nat, NumberFault::TooLarge);
        }
        return None;
    }
    match parse_unsigned(digits.as_str(), WHOLE_LIMIT - 1) {
        Ok(value) => match value.checked_mul(unit) {
            Some(seconds) => if seconds < WHOLE_LIMIT {
                Some(seconds)
            } else {
                None
            },
            None => None,
        },
        Err(_) => None,
    }
}

/// What begins with a sign is no run of digits.
proof fn lemma_scan_sign(s: Seq<char>, limit: nat, excess: NumberFault)
    requires
        s.len() > 0,
        s[0] == '+',
    ensures
        scan(s, limit, excess) is Err,
    decreases s.len(),
{
    if s.len() > 1 {
        lemma_scan_sign(s.drop_last(), limit, excess);
    } else {
        assert(s.last() == '+');
    }
}

/// What `number` with a unit of `unit` seconds amounts to: in whole numbers where it
/// is whole and small, else what was computed for it.
fn amount_seconds(number: &str, unit: u64, computed: Option<u64>) -> (r: Option<u64>)
    ensures
        r == match whole_seconds(number@, unit) {
            Some(n) => Some(n),
            None => computed,
        },
{
    match whole_amount(number, unit) {
        Some(n) => Some(n),
        None => computed,
    }
}

/// The interval that `value` gives; `computed` is what it amounts to where its number
/// has a fraction or is large.
pub fn parse_interval(value: &str, computed: Option<u64>) -> (r: Result<u64, Error>)
    ensures
        match r {
            Ok(n) => interval_of(value@, computed) == Ok::<u64, Seq<char>>(n),
            Err(e) => interval_of(value@, computed) == Err::<u64, Seq<char>>(e@),
        },
{
    match interval_parts(value) {
        None => Err(
            value_error(
                "invalid interval ",
                value,
                "; use seconds, minutes, or hours such as 30s, 15m, or 1h",
            ),
        ),
        Some((number, unit)) => match amount_seconds(number.as_str(), unit, computed) {
            None => Err(
                value_error(
                    "invalid interval ",
                    value,
                    "; expected a positive number and unit",
                ),
            ),
            Some(n) => if n < MINIMUM_WATCH_INTERVAL {
                Err(Error::from_text("watch interval must be at least 10 seconds"))
            } else {
                Ok(n)
            },
        },
    }
}

/// The age that `value` gives; `computed` is what it amounts to where its number has
/// a fraction or is large.
pub fn parse_age(value: &str, computed: Option<u64>) -> (r: Result<u64, Error>)
    ensures
        match r {
            Ok(n) => age_of(value@, computed) == Ok::<u64, Seq<char>>(n),
            Err(e) => age_of(value@, computed) == Err::<u64, Seq<char>>(e@),
        },
{
    match age_parts(value) {
        None => Err(
            value_error(
                "invalid cleanup age ",
                value,
                "; use values such as 12h, 7d, 7.days, or 2.weeks",
            ),
        ),
        Some((number, unit)) => match amount_seconds(number.as_str(), unit, computed) {
            None => Err(
                value_error(
                    "invalid cleanup age ",
                    value,
                    "; expected a positive number and unit",
                ),
            ),
            Some(n) => if n < 1 {
                Err(Error::from_text("cleanup age must be at least one second"))
            } else {
                Ok(n)
            },
        },
    }
}

/// The number of an amount ends where its unit begins.
pub proof fn lemma_amount(number: Seq<char>, unit: Seq<char>)
    requires
        forall|i: int| 0 <= i < number.len() ==> is_numeral(#[trigger] number[i]),
        unit.len() > 0 ==> !is_numeral(unit[0]),
    ensures
        amount_number(number + unit) == number,
        amount_unit(number + unit) == lower(unit),
{
    lemma_numeral_length(number, unit);
    assert((number + unit).take(number.len() as int) =~= number);
    assert((number + unit).skip(number.len() as int) =~= unit);
}

proof fn lemma_numeral_length(number: Seq<char>, unit: Seq<char>)
    requires
        forall|i: int| 0 <= i < number.len() ==> is_numeral(#[trigger] number[i]),
        unit.len() > 0 ==> !is_numeral(unit[0]),
    ensures
        numeral_length(number + unit) == number.len(),
    decreases number.len(),
{
    if number.len() > 0 {
        let rest = number.drop_first();
        assert forall|i: int| 0 <= i < rest.len() implies is_numeral(#[trigger] rest[i]) by {
            assert(is_numeral(number[i + 1]));
        }
        lemma_numeral_length(rest, unit);
        assert(is_numeral(number[0]));
        assert((number + unit).first() == number[0]);
        assert((number + unit).drop_first() =~= rest + unit);
    } else {
        assert(number + unit =~= unit);
        if unit.len() > 0 {
            assert(unit.first() == unit[0]);
        }
    }
}

/// An interval that is written as a whole number of units is read back, whatever is
/// computed besides.
pub proof fn whole_intervals_read_back(
    n: nat,
    unit: Seq<char>,
    seconds: u64,
    computed: Option<u64>,
)
    requires
        interval_unit(lower(unit)) == Some(seconds),
        unit.len() > 0 ==> !is_numeral(unit[0]),
        MINIMUM_WATCH_INTERVAL <= n * seconds < WHOLE_LIMIT,
    ensures
        interval_of(decimal(n) + unit, computed) == Ok::<u64, Seq<char>>((n * seconds) as u64),
{
    lemma_decimal_digits(n);
    assert forall|i: int| 0 <= i < decimal(n).len() implies is_numeral(
        #[trigger] decimal(n)[i],
    ) by {
        assert(is_digit(decimal(n)[i]));
    }
    lemma_amount(decimal(n), unit);
    assert(n <= n * seconds) by (nonlinear_arith)
        requires
            seconds >= 1,
    ;
    assert(is_digit(decimal(n)[decimal(n).len() - 1]));
    assert(whole_digits(decimal(n)) == decimal(n));
    lemma_scan_decimal(n, (WHOLE_LIMIT - 1) as nat, NumberFault::TooLarge);
}

// ---------------------------------------------------------------------------
// What the arguments mean
// ---------------------------------------------------------------------------
/// The options that the arguments from `i` on add to `options`.
pub open spec fn save_from(args: Seq<Seq<char>>, i: int, options: SaveModel) -> Result<
    SaveModel,
    Seq<char>,
>
    decreases args.len() - i,
{
    if i >= args.len() {
        Ok(options)
    } else if args[i] == "--no-scrollback"@ {
        save_from(args, i + 1, SaveModel { capture_scrollback: false, ..options })
    } else if args[i] == "--current-window"@ {
        save_from(args, i + 1, SaveModel { current_window: true, ..options })
    } else if args[i] == "--window-id"@ {
        if i + 1 >= args.len() {
            Err("missing value for --window-id"@)
        } else {
            save_from(args, i + 2, SaveModel { window_id: Some(args[i + 1]), ..options })
        }
    } else {
        Err("unknown save option "@ + debug_text(args[i]))
    }
}

/// How a snapshot is saved: a name, then options in any order, of which one window
/// at most is chosen.
pub open spec fn save_of(args: Seq<Seq<char>>) -> Result<SaveModel, Seq<char>> {
    if args.len() == 0 {
        Err("missing snapshot name"@)
    } else {
        match save_from(
            args,
            1,
            SaveModel {
                name: args[0],
                capture_scrollback: true,
                current_window: false,
                window_id: None,
            },
        ) {
            Err(e) => Err(e),
            Ok(options) => if options.current_window && options.window_id is Some {
                Err("use either --current-window or --window-id, not both"@)
            } else {
                Ok(options)
            },
        }
    }
}

/// The options that the arguments from `i` on add to `options`.
pub open spec fn restore_from(args: Seq<Seq<char>>, i: int, options: RestoreModel) -> Result<
    RestoreModel,
    Seq<char>,
>
    decreases args.len() - i,
{
    if i >= args.len() {
        Ok(options)
    } else if args[i] == "--session"@ {
        if options.selector is Some {
            Err("use --session only once"@)
        } else if i + 1 >= args.len() {
            Err("missing value for --session"@)
        } else {
            restore_from(args, i + 2, RestoreModel { selector: Some(args[i + 1]), ..options })
        }
    } else if args[i] == "--dry-run"@ {
        restore_from(args, i + 1, RestoreModel { dry_run: true, ..options })
    } else if args[i] == "--keep-existing"@ {
        restore_from(args, i + 1, RestoreModel { close_existing: false, ..options })
    } else {
        Err("unknown restore option "@ + debug_text(args[i]))
    }
}

/// How a snapshot is restored: options in any order.
pub open spec fn restore_of(args: Seq<Seq<char>>) -> Result<RestoreModel, Seq<char>> {
    restore_from(args, 0, RestoreModel { selector: None, dry_run: false, close_existing: true })
}

/// The interval and the scope that the arguments from `i` on give.
pub open spec fn watch_from(
    args: Seq<Seq<char>>,
    amounts: Seq<Amount>,
    i: int,
    interval: Option<u64>,
    scope: WatchScope,
) -> Result<(Option<u64>, WatchScope), Seq<char>>
    decreases args.len() - i,
{
    if i >= args.len() {
        Ok((interval, scope))
    } else if args[i] == "--every"@ {
        if i + 1 >= args.len() {
            Err("missing value for --every"@)
        } else {
            match interval_of(args[i + 1], amounts[i + 1].interval) {
                Err(e) => Err(e),
                Ok(n) => watch_from(args, amounts, i + 2, Some(n), scope),
            }
        }
    } else if args[i] == "--current-window"@ {
        watch_from(args, amounts, i + 1, interval, WatchScope::CurrentWindow)
    } else if args[i] == "--all-windows"@ {
        watch_from(args, amounts, i + 1, interval, WatchScope::AllWindows)
    } else {
        Err("unknown watcher option "@ + debug_text(args[i]))
    }
}

/// How a watcher is started: a name, then options in any order, among them an
/// interval.
pub open spec fn watch_of(args: Seq<Seq<char>>, amounts: Seq<Amount>) -> Result<
    WatchOptionsModel,
    Seq<char>,
> {
    if args.len() == 0 {
        Err("missing watcher snapshot name"@)
    } else {
        match watch_from(args, amounts, 1, None, WatchScope::CurrentWindow) {
            Err(e) => Err(e),
            Ok((None, _)) => Err("missing --every INTERVAL"@),
            Ok((Some(interval_seconds), scope)) => Ok(
                WatchOptionsModel { name: args[0], interval_seconds, scope },
            ),
        }
    }
}

/// What is said of a number that cannot be read.
pub open spec fn number_fault(fault: NumberFault) -> Seq<char> {
    match fault {
        NumberFault::Empty => "cannot parse integer from empty string"@,
        NumberFault::InvalidDigit => "invalid digit found in string"@,
        NumberFault::TooLarge => "number too large to fit in target type"@,
        NumberFault::TooSmall => "number too small to fit in target type"@,
    }
}

/// How the scope of a watcher is written.
pub open spec fn scope_name(scope: WatchScope) -> Seq<char> {
    match scope {
        WatchScope::CurrentWindow => "current-window"@,
        WatchScope::AllWindows => "all-windows"@,
    }
}

/// The scope that is written so.
pub open spec fn scope_named(name: Seq<char>) -> Option<WatchScope> {
    if name == "current-window"@ {
        Some(WatchScope::CurrentWindow)
    } else if name == "all-windows"@ {
        Some(WatchScope::AllWindows)
    } else {
        None
    }
}

/// What the worker of a watcher is told: eight arguments.
pub open spec fn worker_of(args: Seq<Seq<char>>) -> Result<WorkerModel, Seq<char>> {
    if args.len() != 8 {
        Err("malformed watcher worker arguments"@)
    } else {
        match read_unsigned(args[2], u64::MAX as nat) {
            Err(fault) => Err(number_fault(fault)),
            Ok(interval) => match read_unsigned(args[3], u32::MAX as nat) {
                Err(fault) => Err(number_fault(fault)),
                Ok(owner) => match scope_named(args[5]) {
                    None => Err("invalid watcher scope"@),
                    Some(scope) => Ok(
                        WorkerModel {
                            token: args[0],
                            name: args[1],
                            interval_seconds: interval as u64,
                            owner_pid: owner as u32,
                            owner_started_at: args[4],
                            scope,
                            window_id: if args[6] == "-"@ {
                                None
                            } else {
                                Some(args[6])
                            },
                            state_path: args[7],
                        },
                    ),
                },
            },
        }
    }
}

/// What is said where no snapshot of the list is named.
pub open spec fn list_fault() -> Seq<char> {
    "use rz --list [NUMBER] with a number shown by rz --list"@
}

/// Which snapshot of the list is shown: none, or one by its number, which has no
/// leading zero.
pub open spec fn list_of(args: Seq<Seq<char>>) -> Result<Option<usize>, Seq<char>> {
    if args.len() == 0 {
        Ok(None)
    } else if args.len() != 1 || starts_with(args[0], "0"@) {
        Err(list_fault())
    } else {
        match read_unsigned(args[0], usize::MAX as nat) {
            Ok(n) => if n == 0 {
                Err(list_fault())
            } else {
                Ok(Some(n as usize))
            },
            Err(_) => Err(list_fault()),
        }
    }
}

/// From which age on snapshots are removed.
pub open spec fn clean_of(args: Seq<Seq<char>>, amounts: Seq<Amount>) -> Result<u64, Seq<char>> {
    if args.len() > 1 {
        Err("use rz --clean [AGE] with a single age such as 7d or 2.weeks"@)
    } else if args.len() == 1 {
        age_of(args[0], amounts[0].age)
    } else {
        Ok(DEFAULT_CLEAN_AGE)
    }
}

/// What the command line asks for.
pub open spec fn command_of(args: Seq<Seq<char>>, amounts: Seq<Amount>) -> Result<
    CommandModel,
    Seq<char>,
> {
    let rest = args.skip(1);
    if args.len() > 0 && args[0] == "--save"@ {
        match save_of(rest) {
            Ok(options) => Ok(CommandModel::Save(options)),
            Err(e) => Err(e),
        }
    } else if args.len() > 0 && args[0] == "--watch"@ {
        match watch_of(rest, amounts.skip(1)) {
            Ok(options) => Ok(CommandModel::StartWatch(options)),
            Err(e) => Err(e),
        }
    } else if args.len() == 1 && args[0] == "--watch-status"@ {
        Ok(CommandModel::WatchStatus)
    } else if args.len() == 1 && args[0] == "--watch-stop"@ {
        Ok(CommandModel::WatchStop)
    } else if args.len() > 0 && args[0] == "--watch-worker"@ {
        match worker_of(rest) {
            Ok(options) => Ok(CommandModel::WatchWorker(options)),
            Err(e) => Err(e),
        }
    } else if args.len() > 0 && args[0] == "--clean"@ {
        match clean_of(rest, amounts.skip(1)) {
            Ok(age_seconds) => Ok(CommandModel::Clean { age_seconds }),
            Err(e) => Err(e),
        }
    } else if args.len() > 0 && args[0] == "--list"@ {
        match list_of(rest) {
            Ok(number) => Ok(CommandModel::List(number)),
            Err(e) => Err(e),
        }
    } else if args.len() == 1 && args[0] == "--help"@ {
        Ok(CommandModel::Help)
    } else if args.len() == 1 && (args[0] == "--version"@ || args[0] == "-V"@) {
        Ok(CommandModel::Version)
    } else {
        match restore_of(args) {
            Ok(options) => Ok(CommandModel::Restore(options)),
            Err(e) => Err(e),
        }
    }
}

// ---------------------------------------------------------------------------
// Reading the arguments
// ---------------------------------------------------------------------------
/// How a snapshot is saved.
pub fn parse_save(args: &Vec<String>) -> (r: Result<SaveOptions, Error>)
    ensures
        match r {
            Ok(options) => save_of(texts(args@)) == Ok::<SaveModel, Seq<char>>(options@),
            Err(e) => save_of(texts(args@)) == Err::<SaveModel, Seq<char>>(e@),
        },
{
    let ghost model = texts(args@);
    if args.len() == 0 {
        return Err(Error::from_text("missing snapshot name"));
    }
    let mut options = SaveOptions {
        name: args[0].clone(),
        capture_scrollback: true,
        current_window: false,
        window_id: None,
    };
    let ghost start = options@;
    assert(model[0] == args@[0]@);
    let mut index: usize = 1;
    while index < args.len()
        invariant
            model == texts(args@),
            1 <= index,
            model.len() > 0,
            start == (SaveModel {
                name: model[0],
                capture_scrollback: true,
                current_window: false,
                window_id: None,
            }),
            save_from(model, 1, start) == save_from(model, index as int, options@),
        decreases args@.len() - index,
    {
        let option = args[index].as_str();
        assert(model[index as int] == option@);
        if same(option, "--no-scrollback") {
            options.capture_scrollback = false;
            index = index + 1;
        } else if same(option, "--current-window") {
            options.current_window = true;
            index = index + 1;
        } else if same(option, "--window-id") {
            if args.len() - index < 2 {
                return Err(Error::from_text("missing value for --window-id"));
            }
            assert(model[index + 1] == args@[index + 1]@);
            options.window_id = Some(args[index + 1].clone());
            if args.len() - index == 2 {
                index = args.len();
            } else {
                index = index + 2;
            }
        } else {
            return Err(option_error("unknown save option ", option));
        }
    }
    if options.current_window && options.window_id.is_some() {
        return Err(Error::from_text("use either --current-window or --window-id, not both"));
    }
    Ok(options)
}

/// How a snapshot is restored.
pub fn parse_restore(args: &Vec<String>) -> (r: Result<RestoreOptions, Error>)
    ensures
        match r {
            Ok(options) => restore_of(texts(args@)) == Ok::<RestoreModel, Seq<char>>(options@),
            Err(e) => restore_of(texts(args@)) == Err::<RestoreModel, Seq<char>>(e@),
        },
{
    let ghost model = texts(args@);
    let mut options = RestoreOptions { selector: None, dry_run: false, close_existing: true };
    let mut index: usize = 0;
    while index < args.len()
        invariant
            model == texts(args@),
            restore_of(model) == restore_from(model, index as int, options@),
        decreases args@.len() - index,
    {
        let option = args[index].as_str();
        assert(model[index as int] == option@);
        if same(option, "--session") {
            if options.selector.is_some() {
                return Err(Error::from_text("use --session only once"));
            }
            if args.len() - index < 2 {
                return Err(Error::from_text("missing value for --session"));
            }
            assert(model[index + 1] == args@[index + 1]@);
            options.selector = Some(args[index + 1].clone());
            if args.len() - index == 2 {
                index = args.len();
            } else {
                index = index + 2;
            }
        } else if same(option, "--dry-run") {
            options.dry_run = true;
            index = index + 1;
        } else if same(option, "--keep-existing") {
            options.close_existing = false;
            index = index + 1;
        } else {
            return Err(option_error("unknown restore option ", option));
        }
    }
    Ok(options)
}

/// How a watcher is started; `amounts` tells what each argument amounts to.
pub fn parse_watch(args: &Vec<String>, amounts: &Vec<Amount>) -> (r: Result<WatchOptions, Error>)
    requires
        amounts@.len() == args@.len(),
    ensures
        match r {
            Ok(options) => watch_of(texts(args@), amounts@) == Ok::<WatchOptionsModel, Seq<char>>(
                options@,
            ),
            Err(e) => watch_of(texts(args@), amounts@) == Err::<WatchOptionsModel, Seq<char>>(e@),
        },
{
    let ghost model = texts(args@);
    if args.len() == 0 {
        return Err(Error::from_text("missing watcher snapshot name"));
    }
    let mut interval: Option<u64> = None;
    let mut scope = WatchScope::CurrentWindow;
    let mut index: usize = 1;
    while index < args.len()
        invariant
            model == texts(args@),
            amounts@.len() == args@.len(),
            model.len() > 0,
            watch_from(model, amounts@, 1, None, WatchScope::CurrentWindow) == watch_from(
                model,
                amounts@,
                index as int,
                interval,
                scope,
            ),
        decreases args@.len() - index,
    {
        let option = args[index].as_str();
        assert(model[index as int] == option@);
        if same(option, "--every") {
            if args.len() - index < 2 {
                return Err(Error::from_text("missing value for --every"));
            }
            assert(model[index + 1] == args@[index + 1]@);
            match parse_interval(args[index + 1].as_str(), amounts[index + 1].interval) {
                Ok(n) => {
                    interval = Some(n);
                },
                Err(e) => return Err(e),
            }
            if args.len() - index == 2 {
                index = args.len();
            } else {
                index = index + 2;
            }
        } else if same(option, "--current-window") {
            scope = WatchScope::CurrentWindow;
            index = index + 1;
        } else if same(option, "--all-windows") {
            scope = WatchScope::AllWindows;
            index = index + 1;
        } else {
            return Err(option_error("unknown watcher option ", option));
        }
    }
    assert(model[0] == args@[0]@);
    match interval {
        Some(interval_seconds) => Ok(
            WatchOptions { name: args[0].clone(), interval_seconds, scope },
        ),
        None => Err(Error::from_text("missing --every INTERVAL")),
    }
}

/// The failure for a number that cannot be read.
fn number_error(fault: NumberFault) -> (r: Error)
    ensures
        r@ == number_fault(fault),
{
    match fault {
        NumberFault::Empty => Error::from_text("cannot parse integer from empty string"),
        NumberFault::InvalidDigit => Error::from_text("invalid digit found in string"),
        NumberFault::TooLarge => Error::from_text("number too large to fit in target type"),
        NumberFault::TooSmall => Error::from_text("number too small to fit in target type"),
    }
}

/// The scope that is written so.
fn scope_from(name: &str) -> (r: Option<WatchScope>)
    ensures
        r == scope_named(name@),
{
    if same(name, "current-window") {
        Some(WatchScope::CurrentWindow)
    } else if same(name, "all-windows") {
        Some(WatchScope::AllWindows)
    } else {
        None
    }
}

/// What the worker of a watcher is told.
pub fn parse_worker(args: &Vec<String>) -> (r: Result<WorkerOptions, Error>)
    ensures
        match r {
            Ok(options) => worker_of(texts(args@)) == Ok::<WorkerModel, Seq<char>>(options@),
            Err(e) => worker_of(texts(args@)) == Err::<WorkerModel, Seq<char>>(e@),
        },
{
    let ghost model = texts(args@);
    if args.len() != 8 {
        return Err(Error::from_text("malformed watcher worker arguments"));
    }
    assert forall|k: int| 0 <= k < 8 implies #[trigger] model[k] == args@[k]@ by {}
    let interval_seconds: u64 = match parse_unsigned(args[2].as_str(), u64::MAX) {
        Ok(n) => n,
        Err(fault) => return Err(number_error(fault)),
    };
    let owner_pid: u32 = match parse_u32(args[3].as_str()) {
        Ok(n) => n,
        Err(fault) => return Err(number_error(fault)),
    };
    let scope = match scope_from(args[5].as_str()) {
        Some(scope) => scope,
        None => return Err(Error::from_text("invalid watcher scope")),
    };
    let window_id = if same(args[6].as_str(), "-") {
        None
    } else {
        Some(args[6].clone())
    };
    Ok(
        WorkerOptions {
            token: args[0].clone(),
            name: args[1].clone(),
            interval_seconds,
            owner_pid,
            owner_started_at: args[4].clone(),
            scope,
            window_id,
            state_path: args[7].clone(),
        },
    )
}

/// Which snapshot of the list is shown.
pub fn parse_list(args: &Vec<String>) -> (r: Result<Option<usize>, Error>)
    ensures
        match r {
            Ok(number) => list_of(texts(args@)) == Ok::<Option<usize>, Seq<char>>(number),
            Err(e) => list_of(texts(args@)) == Err::<Option<usize>, Seq<char>>(e@),
        },
{
    if args.len() == 0 {
        return Ok(None);
    }
    assert(texts(args@)[0] == args@[0]@);
    if args.len() != 1 || begins(args[0].as_str(), "0") {
        return Err(Error::from_text("use rz --list [NUMBER] with a number shown by rz --list"));
    }
    match parse_size(args[0].as_str()) {
        Ok(n) => if n == 0 {
            Err(Error::from_text("use rz --list [NUMBER] with a number shown by rz --list"))
        } else {
            Ok(Some(n))
        },
        Err(_) => Err(
            Error::from_text("use rz --list [NUMBER] with a number shown by rz --list"),
        ),
    }
}

/// From which age on snapshots are removed; `amounts` tells what each argument
/// amounts to.
pub fn parse_clean(args: &Vec<String>, amounts: &Vec<Amount>) -> (r: Result<u64, Error>)
    requires
        amounts@.len() == args@.len(),
    ensures
        match r {
            Ok(age) => clean_of(texts(args@), amounts@) == Ok::<u64, Seq<char>>(age),
            Err(e) => clean_of(texts(args@), amounts@) == Err::<u64, Seq<char>>(e@),
        },
{
    if args.len() > 1 {
        return Err(
            Error::from_text("use rz --clean [AGE] with a single age such as 7d or 2.weeks"),
        );
    }
    if args.len() == 1 {
        assert(texts(args@)[0] == args@[0]@);
        parse_age(args[0].as_str(), amounts[0].age)
    } else {
        Ok(DEFAULT_CLEAN_AGE)
    }
}

/// The arguments behind the first.
fn behind_first(args: &Vec<String>) -> (r: Vec<String>)
    requires
        args@.len() > 0,
    ensures
        texts(r@) == texts(args@).skip(1),
{
    let mut r: Vec<String> = Vec::new();
    let mut i: usize = 1;
    while i < args.len()
        invariant
            1 <= i <= args@.len(),
            texts(r@) == texts(args@).subrange(1, i as int),
        decreases args@.len() - i,
    {
        let ghost before = r@;
        r.push(args[i].clone());
        assert(texts(r@) =~= texts(before).push(args@[i as int]@));
        assert(texts(args@).subrange(1, i + 1) =~= texts(args@).subrange(1, i as int).push(
            args@[i as int]@,
        ));
        i = i + 1;
    }
    assert(texts(args@).subrange(1, i as int) =~= texts(args@).skip(1));
    r
}

/// The amounts behind the first.
fn amounts_behind_first(amounts: &Vec<Amount>) -> (r: Vec<Amount>)
    requires
        amounts@.len() > 0,
    ensures
        r@ == amounts@.skip(1),
{
    let mut r: Vec<Amount> = Vec::new();
    let mut i: usize = 1;
    while i < amounts.len()
        invariant
            1 <= i <= amounts@.len(),
            r@ == amounts@.subrange(1, i as int),
        decreases amounts@.len() - i,
    {
        r.push(amounts[i]);
        assert(amounts@.subrange(1, i + 1) =~= amounts@.subrange(1, i as int).push(
            amounts@[i as int],
        ));
        i = i + 1;
    }
    assert(amounts@.subrange(1, i as int) =~= amounts@.skip(1));
    r
}

/// What the command line asks for; `amounts` tells what each argument amounts to.
pub fn parse(args: &Vec<String>, amounts: &Vec<Amount>) -> (r: Result<Command, Error>)
    requires
        amounts@.len() == args@.len(),
    ensures
        match r {
            Ok(command) => command_of(texts(args@), amounts@) == Ok::<CommandModel, Seq<char>>(
                command@,
            ),
            Err(e) => command_of(texts(args@), amounts@) == Err::<CommandModel, Seq<char>>(e@),
        },
{
    if args.len() > 0 {
        let first = args[0].as_str();
        let alone = args.len() == 1;
        assert(texts(args@)[0] == first@);
        if same(first, "--save") {
            return match parse_save(&behind_first(args)) {
                Ok(options) => Ok(Command::Save(options)),
                Err(e) => Err(e),
            };
        }
        if same(first, "--watch") {
            return match parse_watch(&behind_first(args), &amounts_behind_first(amounts)) {
                Ok(options) => Ok(Command::StartWatch(options)),
                Err(e) => Err(e),
            };
        }
        if alone && same(first, "--watch-status") {
            return Ok(Command::WatchStatus);
        }
        if alone && same(first, "--watch-stop") {
            return Ok(Command::WatchStop);
        }
        if same(first, "--watch-worker") {
            return match parse_worker(&behind_first(args)) {
                Ok(options) => Ok(Command::WatchWorker(options)),
                Err(e) => Err(e),
            };
        }
        if same(first, "--clean") {
            return match parse_clean(&behind_first(args), &amounts_behind_first(amounts)) {
                Ok(age_seconds) => Ok(Command::Clean { age_seconds }),
                Err(e) => Err(e),
            };
        }
        if same(first, "--list") {
            return match parse_list(&behind_first(args)) {
                Ok(number) => Ok(Command::List(number)),
                Err(e) => Err(e),
            };
        }
        if alone && same(first, "--help") {
            return Ok(Command::Help);
        }
        if alone && (same(first, "--version") || same(first, "-V")) {
            return Ok(Command::Version);
        }
    }
    match parse_restore(args) {
        Ok(options) => Ok(Command::Restore(options)),
        Err(e) => Err(e),
    }
}

// ---------------------------------------------------------------------------
// What holds of every command line
// ---------------------------------------------------------------------------
/// A save that is asked for chooses one window at most.
pub proof fn saves_choose_one_window(args: Seq<Seq<char>>, amounts: Seq<Amount>)
    ensures
        command_of(args, amounts) matches Ok(CommandModel::Save(options)) ==> !(
        options.current_window && options.window_id is Some),
{
}

/// A watcher that is asked for saves no more often than every ten seconds.
pub proof fn watchers_are_not_too_fast(args: Seq<Seq<char>>, amounts: Seq<Amount>)
    ensures
        command_of(args, amounts) matches Ok(CommandModel::StartWatch(options))
            ==> options.interval_seconds >= MINIMUM_WATCH_INTERVAL,
{
    if args.len() > 1 {
        lemma_watch_interval(
            args.skip(1),
            amounts.skip(1),
            1,
            None,
            WatchScope::CurrentWindow,
        );
    }
}

proof fn lemma_watch_interval(
    args: Seq<Seq<char>>,
    amounts: Seq<Amount>,
    i: int,
    interval: Option<u64>,
    scope: WatchScope,
)
    requires
        interval is Some ==> interval->0 >= MINIMUM_WATCH_INTERVAL,
    ensures
        watch_from(args, amounts, i, interval, scope) matches Ok((Some(n), _)) ==> n
            >= MINIMUM_WATCH_INTERVAL,
    decreases args.len() - i,
{
    if i < args.len() {
        if args[i] == "--every"@ {
            if i + 1 < args.len() {
                match interval_of(args[i + 1], amounts[i + 1].interval) {
                    Err(_) => {},
                    Ok(n) => lemma_watch_interval(args, amounts, i + 2, Some(n), scope),
                }
            }
        } else if args[i] == "--current-window"@ {
            lemma_watch_interval(args, amounts, i + 1, interval, WatchScope::CurrentWindow);
        } else if args[i] == "--all-windows"@ {
            lemma_watch_interval(args, amounts, i + 1, interval, WatchScope::AllWindows);
        }
    }
}

/// A cleaning that is asked for has an age of at least a second, and of seven days
/// where none is given.
pub proof fn cleanings_have_an_age(args: Seq<Seq<char>>, amounts: Seq<Amount>)
    ensures
        command_of(args, amounts) matches Ok(CommandModel::Clean { age_seconds }) ==> age_seconds
            >= 1 && (args.len() == 1 ==> age_seconds == 7 * 24 * 60 * 60),
{
}

/// A snapshot of the list that is asked for has a number from 1 on.
pub proof fn listed_numbers_start_at_one(args: Seq<Seq<char>>, amounts: Seq<Amount>)
    ensures
        command_of(args, amounts) matches Ok(CommandModel::List(Some(n))) ==> n >= 1,
{
}

/// A watcher that is asked for without a scope is bound to the current window.
pub proof fn watchers_watch_the_current_window(
    name: Seq<char>,
    every: Seq<char>,
    amounts: Seq<Amount>,
)
    requires
        amounts.len() == 4,
        interval_of(every, amounts[3].interval) is Ok,
    ensures
        command_of(seq!["--watch"@, name, "--every"@, every], amounts) == Ok::<
            CommandModel,
            Seq<char>,
        >(
            CommandModel::StartWatch(
                WatchOptionsModel {
                    name,
                    interval_seconds: interval_of(every, amounts[3].interval)->Ok_0,
                    scope: WatchScope::CurrentWindow,
                },
            ),
        ),
{
    let args = seq!["--watch"@, name, "--every"@, every];
    let rest = args.skip(1);
    let behind = amounts.skip(1);
    let n = interval_of(every, amounts[3].interval)->Ok_0;
    reveal_strlit("--save");
    reveal_strlit("--watch");
    assert("--save"@.len() == 6 && "--watch"@.len() == 7);
    assert(rest[0] == name && rest[1] == "--every"@ && rest[2] == every);
    assert(behind[2] == amounts[3]);
    assert(watch_from(rest, behind, 1, None, WatchScope::CurrentWindow) == watch_from(
        rest,
        behind,
        3,
        Some(n),
        WatchScope::CurrentWindow,
    ));
}

} // verus!
