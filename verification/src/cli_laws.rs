//! What the words of the command line mean, each by itself.
use vstd::prelude::*;
use vstd::string::*;

use crate::cli::{
    WHOLE_LIMIT, Amount, CommandModel, RestoreModel, SaveModel, WatchOptionsModel, WatchScope,
    age_of, age_unit, amount_number, amount_unit, clean_of, command_of, interval_of, interval_unit,
    is_numeral, lemma_amount, list_of, restore_from, restore_of, save_from, save_of, watch_from,
    watch_of, whole_digits, whole_seconds,
};
use crate::error::debug_text;
use crate::number::{
    NumberFault, decimal, decimal_reads_back, lemma_decimal_digits, lemma_scan_decimal,
};
use crate::text::{is_digit, lower, starts_with};
use crate::text_laws::{lower_goes_by_characters, parts_are_found};

verus! {

// ---------------------------------------------------------------------------
// Amounts of time
// ---------------------------------------------------------------------------
/// What is read of a whole number and its unit, with a dot between them or not.
proof fn lemma_whole(n: nat, unit: Seq<char>, seconds: u64)
    requires
        unit.len() > 0 ==> !is_numeral(unit[0]),
        seconds >= 1,
        n * seconds < WHOLE_LIMIT,
    ensures
        amount_unit(decimal(n) + unit) == lower(unit),
        amount_unit(decimal(n) + "."@ + unit) == lower(unit),
        whole_seconds(amount_number(decimal(n) + unit), seconds) == Some((n * seconds) as u64),
        whole_seconds(amount_number(decimal(n) + "."@ + unit), seconds) == Some(
            (n * seconds) as u64,
        ),
{
    reveal_strlit(".");
    let digits = decimal(n);
    let dotted = digits + "."@;
    lemma_decimal_digits(n);
    assert forall|i: int| 0 <= i < digits.len() implies is_numeral(#[trigger] digits[i]) by {
        assert(is_digit(digits[i]));
    }
    assert forall|i: int| 0 <= i < dotted.len() implies is_numeral(#[trigger] dotted[i]) by {
        if i < digits.len() {
            assert(dotted[i] == digits[i]);
            assert(is_digit(digits[i]));
        }
    }
    lemma_amount(digits, unit);
    lemma_amount(dotted, unit);
    assert(is_digit(digits[digits.len() - 1]));
    assert(whole_digits(digits) == digits);
    assert(dotted.last() == '.');
    assert(whole_digits(dotted) =~= digits);
    assert(n <= n * seconds) by (nonlinear_arith)
        requires
            seconds >= 1,
    ;
    lemma_scan_decimal(n, (WHOLE_LIMIT - 1) as nat, NumberFault::TooLarge);
}

/// A unit in any case begins like it in lower case: with no digit and no dot.
proof fn lemma_unit_start(unit: Seq<char>, c: char)
    requires
        unit.len() > 0,
        lower(unit)[0] == c,
        'a' as int <= c as int <= 'z' as int,
    ensures
        !is_numeral(unit[0]),
{
    lower_goes_by_characters(unit, unit);
}

/// Whether an age of `n` units is read as `n` times `seconds`, written with a dot or
/// without.
pub open spec fn age_is(n: nat, unit: Seq<char>, seconds: u64, computed: Option<u64>) -> bool {
    &&& age_of(decimal(n) + unit, computed) == Ok::<u64, Seq<char>>((n * seconds) as u64)
    &&& age_of(decimal(n) + "."@ + unit, computed) == Ok::<u64, Seq<char>>((n * seconds) as u64)
}

/// An age in weeks, in each spelling and in any case: a week has 604800 seconds.
pub proof fn ages_in_weeks(n: nat, unit: Seq<char>, computed: Option<u64>)
    requires
        lower(unit) == "w"@ || lower(unit) == "week"@ || lower(unit) == "weeks"@,
        1 <= n * 604_800 < WHOLE_LIMIT,
    ensures
        age_is(n, unit, 604_800, computed),
{
    lemma_unit_letters(unit);
    lemma_whole(n, unit, 604_800);
}

/// An age in days, in each spelling and in any case: a day has 86400 seconds.
pub proof fn ages_in_days(n: nat, unit: Seq<char>, computed: Option<u64>)
    requires
        lower(unit) == "d"@ || lower(unit) == "day"@ || lower(unit) == "days"@,
        1 <= n * 86_400 < WHOLE_LIMIT,
    ensures
        age_is(n, unit, 86_400, computed),
{
    lemma_unit_letters(unit);
    lemma_whole(n, unit, 86_400);
}

/// An age in hours, in each spelling and in any case: an hour has 3600 seconds.
pub proof fn ages_in_hours(n: nat, unit: Seq<char>, computed: Option<u64>)
    requires
        lower(unit) == "h"@ || lower(unit) == "hour"@ || lower(unit) == "hours"@,
        1 <= n * 3_600 < WHOLE_LIMIT,
    ensures
        age_is(n, unit, 3_600, computed),
{
    lemma_unit_letters(unit);
    lemma_whole(n, unit, 3_600);
}

/// An age in minutes, in each spelling and in any case: a minute has 60 seconds.
pub proof fn ages_in_minutes(n: nat, unit: Seq<char>, computed: Option<u64>)
    requires
        lower(unit) == "m"@ || lower(unit) == "minute"@ || lower(unit) == "minutes"@,
        1 <= n * 60 < WHOLE_LIMIT,
    ensures
        age_is(n, unit, 60, computed),
{
    lemma_unit_letters(unit);
    lemma_whole(n, unit, 60);
}

/// An age in seconds, in each spelling and in any case, or without a unit.
pub proof fn ages_in_seconds(n: nat, unit: Seq<char>, computed: Option<u64>)
    requires
        unit.len() == 0 || lower(unit) == "s"@ || lower(unit) == "second"@ || lower(unit)
            == "seconds"@,
        1 <= n < WHOLE_LIMIT,
    ensures
        age_is(n, unit, 1, computed),
{
    reveal_strlit("");
    if unit.len() > 0 {
        lemma_unit_letters(unit);
    } else {
        assert(lower(unit) =~= ""@);
    }
    lemma_whole(n, unit, 1);
}

/// The units tell themselves apart by their letters and their lengths.
proof fn lemma_unit_letters(unit: Seq<char>)
    requires
        lower(unit) == "w"@ || lower(unit) == "week"@ || lower(unit) == "weeks"@ || lower(unit)
            == "d"@ || lower(unit) == "day"@ || lower(unit) == "days"@ || lower(unit) == "h"@
            || lower(unit) == "hour"@ || lower(unit) == "hours"@ || lower(unit) == "m"@ || lower(
            unit,
        ) == "minute"@ || lower(unit) == "minutes"@ || lower(unit) == "s"@ || lower(unit)
            == "second"@ || lower(unit) == "seconds"@,
    ensures
        unit.len() > 0,
        !is_numeral(unit[0]),
        lower(unit) == "w"@ || lower(unit) == "week"@ || lower(unit) == "weeks"@ ==> lower(unit)[0]
            == 'w',
        lower(unit) == "d"@ || lower(unit) == "day"@ || lower(unit) == "days"@ ==> lower(unit)[0]
            == 'd',
        lower(unit) == "h"@ || lower(unit) == "hour"@ || lower(unit) == "hours"@ ==> lower(unit)[0]
            == 'h',
        lower(unit) == "m"@ || lower(unit) == "minute"@ || lower(unit) == "minutes"@ ==> lower(
            unit,
        )[0] == 'm',
        lower(unit) == "s"@ || lower(unit) == "second"@ || lower(unit) == "seconds"@ ==> lower(
            unit,
        )[0] == 's',
        first_letters(),
{
    lemma_first_letters();
    lower_goes_by_characters(unit, unit);
    lemma_unit_start(unit, lower(unit)[0]);
}

/// The first letters of the units.
spec fn first_letters() -> bool {
    &&& "w"@.len() > 0 && "w"@[0] == 'w' && "week"@.len() > 0 && "week"@[0] == 'w'
        && "weeks"@.len() > 0 && "weeks"@[0] == 'w'
    &&& "d"@.len() > 0 && "d"@[0] == 'd' && "day"@.len() > 0 && "day"@[0] == 'd' && "days"@.len()
        > 0 && "days"@[0] == 'd'
    &&& "h"@.len() > 0 && "h"@[0] == 'h' && "hour"@.len() > 0 && "hour"@[0] == 'h'
        && "hours"@.len() > 0 && "hours"@[0] == 'h'
    &&& "m"@.len() > 0 && "m"@[0] == 'm' && "minute"@.len() > 0 && "minute"@[0] == 'm'
        && "minutes"@.len() > 0 && "minutes"@[0] == 'm'
    &&& "s"@.len() > 0 && "s"@[0] == 's' && "second"@.len() > 0 && "second"@[0] == 's'
        && "seconds"@.len() > 0 && "seconds"@[0] == 's'
    &&& ""@.len() == 0
}

proof fn lemma_first_letters()
    ensures
        first_letters(),
{
    reveal_strlit("w");
    reveal_strlit("week");
    reveal_strlit("weeks");
    reveal_strlit("d");
    reveal_strlit("day");
    reveal_strlit("days");
    reveal_strlit("h");
    reveal_strlit("hour");
    reveal_strlit("hours");
    reveal_strlit("m");
    reveal_strlit("minute");
    reveal_strlit("minutes");
    reveal_strlit("s");
    reveal_strlit("second");
    reveal_strlit("seconds");
    reveal_strlit("");
}

/// The one-letter, the singular and the plural spelling of a unit give the same age,
/// whatever number stands in front of them and however it is computed.
pub proof fn spellings_of_a_unit_agree(number: Seq<char>, computed: Option<u64>)
    requires
        forall|i: int| 0 <= i < number.len() ==> is_numeral(#[trigger] number[i]),
    ensures
        same_age(number, "w"@, "week"@, computed),
        same_age(number, "w"@, "weeks"@, computed),
        same_age(number, "d"@, "day"@, computed),
        same_age(number, "d"@, "days"@, computed),
        same_age(number, "h"@, "hour"@, computed),
        same_age(number, "h"@, "hours"@, computed),
        same_age(number, "m"@, "minute"@, computed),
        same_age(number, "m"@, "minutes"@, computed),
        same_age(number, "s"@, "second"@, computed),
        same_age(number, "s"@, "seconds"@, computed),
        same_age(number, "s"@, ""@, computed),
{
    lemma_first_letters();
    lemma_spelling(number);
}

/// Whether an age is read alike with two units.
pub open spec fn same_age(
    number: Seq<char>,
    unit: Seq<char>,
    other: Seq<char>,
    computed: Option<u64>,
) -> bool {
    age_of(number + unit, computed).ok() == age_of(number + other, computed).ok()
}

/// What is read of a number with each of the units behind it.
proof fn lemma_spelling(number: Seq<char>)
    requires
        forall|i: int| 0 <= i < number.len() ==> is_numeral(#[trigger] number[i]),
    ensures
        reads_as(number, "w"@),
        reads_as(number, "week"@),
        reads_as(number, "weeks"@),
        reads_as(number, "d"@),
        reads_as(number, "day"@),
        reads_as(number, "days"@),
        reads_as(number, "h"@),
        reads_as(number, "hour"@),
        reads_as(number, "hours"@),
        reads_as(number, "m"@),
        reads_as(number, "minute"@),
        reads_as(number, "minutes"@),
        reads_as(number, "s"@),
        reads_as(number, "second"@),
        reads_as(number, "seconds"@),
        reads_as(number, ""@),
{
    lemma_first_letters();
    lemma_amount(number, "w"@);
    lemma_amount(number, "week"@);
    lemma_amount(number, "weeks"@);
    lemma_amount(number, "d"@);
    lemma_amount(number, "day"@);
    lemma_amount(number, "days"@);
    lemma_amount(number, "h"@);
    lemma_amount(number, "hour"@);
    lemma_amount(number, "hours"@);
    lemma_amount(number, "m"@);
    lemma_amount(number, "minute"@);
    lemma_amount(number, "minutes"@);
    lemma_amount(number, "s"@);
    lemma_amount(number, "second"@);
    lemma_amount(number, "seconds"@);
    lemma_amount(number, ""@);
    reveal_strlit("w");
    reveal_strlit("week");
    reveal_strlit("weeks");
    reveal_strlit("d");
    reveal_strlit("day");
    reveal_strlit("days");
    reveal_strlit("h");
    reveal_strlit("hour");
    reveal_strlit("hours");
    reveal_strlit("m");
    reveal_strlit("minute");
    reveal_strlit("minutes");
    reveal_strlit("s");
    reveal_strlit("second");
    reveal_strlit("seconds");
    reveal_strlit("");
    assert(lower("w"@) =~= "w"@ && lower("week"@) =~= "week"@ && lower("weeks"@) =~= "weeks"@);
    assert(lower("d"@) =~= "d"@ && lower("day"@) =~= "day"@ && lower("days"@) =~= "days"@);
    assert(lower("h"@) =~= "h"@ && lower("hour"@) =~= "hour"@ && lower("hours"@) =~= "hours"@);
    assert(lower("m"@) =~= "m"@ && lower("minute"@) =~= "minute"@);
    assert(lower("minutes"@) =~= "minutes"@);
    assert(lower("s"@) =~= "s"@ && lower("second"@) =~= "second"@);
    assert(lower("seconds"@) =~= "seconds"@ && lower(""@) =~= ""@);
}

/// Whether `number` and `unit` are told apart where one stands behind the other.
spec fn reads_as(number: Seq<char>, unit: Seq<char>) -> bool {
    amount_number(number + unit) == number && amount_unit(number + unit) == unit
}

/// No other unit is one of an age.
pub proof fn other_units_have_no_age(value: Seq<char>, computed: Option<u64>)
    requires
        ({
            let unit = amount_unit(value);
            unit != ""@ && unit != "s"@ && unit != "second"@ && unit != "seconds"@ && unit != "m"@
                && unit != "minute"@ && unit != "minutes"@ && unit != "h"@ && unit != "hour"@ && unit
                != "hours"@ && unit != "d"@ && unit != "day"@ && unit != "days"@ && unit != "w"@
                && unit != "week"@ && unit != "weeks"@
        }),
    ensures
        age_of(value, computed) == Err::<u64, Seq<char>>(
            "invalid cleanup age "@ + debug_text(value)
                + "; use values such as 12h, 7d, 7.days, or 2.weeks"@,
        ),
{
}

/// An age of nothing is refused, and so is one whose number cannot be read.
pub proof fn ages_are_at_least_a_second(value: Seq<char>, computed: Option<u64>)
    requires
        age_unit(amount_unit(value)) is Some,
        whole_seconds(amount_number(value), age_unit(amount_unit(value))->0) is None,
    ensures
        computed == Some(0u64) ==> age_of(value, computed) == Err::<u64, Seq<char>>(
            "cleanup age must be at least one second"@,
        ),
        computed is None ==> age_of(value, computed) == Err::<u64, Seq<char>>(
            "invalid cleanup age "@ + debug_text(value)
                + "; expected a positive number and unit"@,
        ),
        computed matches Some(n) ==> n >= 1 ==> age_of(value, computed) == Ok::<u64, Seq<char>>(n),
{
}

/// Intervals in hours, minutes and seconds, in any case, with the figures of each; one
/// without a unit is in seconds.
pub proof fn intervals_in_each_unit(n: nat, unit: Seq<char>, computed: Option<u64>)
    requires
        n * 3_600 < WHOLE_LIMIT,
    ensures
        lower(unit) == "h"@ && n * 3_600 >= 10 ==> interval_of(decimal(n) + unit, computed) == Ok::<
            u64,
            Seq<char>,
        >((n * 3_600) as u64),
        lower(unit) == "m"@ && n * 60 >= 10 ==> interval_of(decimal(n) + unit, computed) == Ok::<
            u64,
            Seq<char>,
        >((n * 60) as u64),
        lower(unit) == "s"@ && n >= 10 ==> interval_of(decimal(n) + unit, computed) == Ok::<
            u64,
            Seq<char>,
        >(n as u64),
        n >= 10 ==> interval_of(decimal(n), computed) == Ok::<u64, Seq<char>>(n as u64),
        (lower(unit) == "s"@ || unit.len() == 0) && n < 10 ==> interval_of(
            decimal(n) + unit,
            computed,
        ) == Err::<u64, Seq<char>>("watch interval must be at least 10 seconds"@),
{
    lemma_first_letters();
    lower_goes_by_characters(unit, unit);
    let none = Seq::<char>::empty();
    assert(lower(none) =~= ""@);
    lemma_whole(n, none, 1);
    assert(decimal(n) + none =~= decimal(n));
    if unit.len() == 0 {
        assert(unit =~= none);
    }
    if lower(unit) == "h"@ || lower(unit) == "m"@ || lower(unit) == "s"@ {
        lemma_unit_start(unit, lower(unit)[0]);
        lemma_whole(n, unit, 3_600);
        lemma_whole(n, unit, 60);
        lemma_whole(n, unit, 1);
    }
}

/// No other unit is one of an interval, not even days.
pub proof fn other_units_have_no_interval(value: Seq<char>, computed: Option<u64>)
    requires
        ({
            let unit = amount_unit(value);
            unit != ""@ && unit != "s"@ && unit != "m"@ && unit != "h"@
        }),
    ensures
        interval_of(value, computed) == Err::<u64, Seq<char>>(
            "invalid interval "@ + debug_text(value)
                + "; use seconds, minutes, or hours such as 30s, 15m, or 1h"@,
        ),
{
}

/// An interval that was computed is taken from ten seconds on, and refused below.
pub proof fn computed_intervals_are_taken(value: Seq<char>, computed: Option<u64>)
    requires
        interval_unit(amount_unit(value)) is Some,
        whole_seconds(amount_number(value), interval_unit(amount_unit(value))->0) is None,
    ensures
        computed matches Some(n) ==> n >= 10 ==> interval_of(value, computed) == Ok::<
            u64,
            Seq<char>,
        >(n),
        computed matches Some(n) ==> n < 10 ==> interval_of(value, computed) == Err::<
            u64,
            Seq<char>,
        >("watch interval must be at least 10 seconds"@),
        computed is None ==> interval_of(value, computed) == Err::<u64, Seq<char>>(
            "invalid interval "@ + debug_text(value) + "; expected a positive number and unit"@,
        ),
{
}

// ---------------------------------------------------------------------------
// Saving
// ---------------------------------------------------------------------------
/// One more argument is read after those before it.
proof fn lemma_save_more(
    args: Seq<Seq<char>>,
    more: Seq<Seq<char>>,
    i: int,
    options: SaveModel,
)
    requires
        0 <= i,
        save_from(args, i, options) is Ok,
    ensures
        i <= args.len() ==> save_from(args + more, i, options) == save_from(
            args + more,
            args.len() as int,
            save_from(args, i, options)->Ok_0,
        ),
    decreases args.len() - i,
{
    let all = args + more;
    if i < args.len() {
        assert(all[i] == args[i]);
        if args[i] == "--no-scrollback"@ {
            lemma_save_more(
                args,
                more,
                i + 1,
                SaveModel { capture_scrollback: false, ..options },
            );
        } else if args[i] == "--current-window"@ {
            lemma_save_more(args, more, i + 1, SaveModel { current_window: true, ..options });
        } else {
            assert(args[i] == "--window-id"@);
            assert(all[i + 1] == args[i + 1]);
            lemma_save_more(
                args,
                more,
                i + 2,
                SaveModel { window_id: Some(args[i + 1]), ..options },
            );
        }
    }
}

/// A name alone saves every window with its scrollback; without a name nothing is
/// saved.
pub proof fn a_name_is_enough_to_save(name: Seq<char>)
    ensures
        save_of(seq![name]) == Ok::<SaveModel, Seq<char>>(
            SaveModel { name, capture_scrollback: true, current_window: false, window_id: None },
        ),
        save_of(Seq::empty()) == Err::<SaveModel, Seq<char>>("missing snapshot name"@),
{
}

/// Each option of a save changes what it says, and nothing else, wherever it stands.
pub proof fn save_options_add_up(args: Seq<Seq<char>>, id: Seq<char>, options: SaveModel)
    requires
        save_of(args) == Ok::<SaveModel, Seq<char>>(options),
    ensures
        save_of(args + seq!["--no-scrollback"@]) == Ok::<SaveModel, Seq<char>>(
            SaveModel { capture_scrollback: false, ..options },
        ),
        options.window_id is None ==> save_of(args + seq!["--current-window"@]) == Ok::<
            SaveModel,
            Seq<char>,
        >(SaveModel { current_window: true, ..options }),
        !options.current_window ==> save_of(args + seq!["--window-id"@, id]) == Ok::<
            SaveModel,
            Seq<char>,
        >(SaveModel { window_id: Some(id), ..options }),
        options.current_window ==> save_of(args + seq!["--window-id"@, id]) == Err::<
            SaveModel,
            Seq<char>,
        >("use either --current-window or --window-id, not both"@),
        save_of(args + seq!["--window-id"@]) == Err::<SaveModel, Seq<char>>(
            "missing value for --window-id"@,
        ),
{
    reveal_strlit("--no-scrollback");
    reveal_strlit("--current-window");
    reveal_strlit("--window-id");
    assert("--no-scrollback"@.len() == 15 && "--current-window"@.len() == 16 && "--window-id"@.len()
        == 11);
    let start = SaveModel {
        name: args[0],
        capture_scrollback: true,
        current_window: false,
        window_id: None,
    };
    let n = args.len() as int;
    let one = seq!["--no-scrollback"@];
    let two = seq!["--current-window"@];
    let three = seq!["--window-id"@, id];
    let four = seq!["--window-id"@];
    lemma_save_more(args, one, 1, start);
    lemma_save_more(args, two, 1, start);
    lemma_save_more(args, three, 1, start);
    lemma_save_more(args, four, 1, start);
    assert((args + one)[0] == args[0] && (args + one)[n] == "--no-scrollback"@);
    assert((args + two)[0] == args[0] && (args + two)[n] == "--current-window"@);
    assert((args + three)[0] == args[0] && (args + three)[n] == "--window-id"@ && (args + three)[n
        + 1] == id);
    assert((args + four)[0] == args[0] && (args + four)[n] == "--window-id"@);
    let fast = SaveModel { capture_scrollback: false, ..options };
    let current = SaveModel { current_window: true, ..options };
    let given = SaveModel { window_id: Some(id), ..options };
    assert(save_from(args + one, n + 1, fast) == Ok::<SaveModel, Seq<char>>(fast));
    assert(save_from(args + two, n + 1, current) == Ok::<SaveModel, Seq<char>>(current));
    assert(save_from(args + three, n + 2, given) == Ok::<SaveModel, Seq<char>>(given));
}

/// An option that a save does not know is refused, by its name.
pub proof fn unknown_save_options_are_refused(
    args: Seq<Seq<char>>,
    option: Seq<char>,
    rest: Seq<Seq<char>>,
)
    requires
        save_of(args) is Ok,
        option != "--no-scrollback"@,
        option != "--current-window"@,
        option != "--window-id"@,
    ensures
        save_of(args + (seq![option] + rest)) == Err::<SaveModel, Seq<char>>(
            "unknown save option "@ + debug_text(option),
        ),
{
    let start = SaveModel {
        name: args[0],
        capture_scrollback: true,
        current_window: false,
        window_id: None,
    };
    let more = seq![option] + rest;
    lemma_save_more(args, more, 1, start);
    assert((args + more)[0] == args[0] && (args + more)[args.len() as int] == option);
}

// ---------------------------------------------------------------------------
// Restoring
// ---------------------------------------------------------------------------
proof fn lemma_restore_more(
    args: Seq<Seq<char>>,
    more: Seq<Seq<char>>,
    i: int,
    options: RestoreModel,
)
    requires
        0 <= i,
        restore_from(args, i, options) is Ok,
    ensures
        i <= args.len() ==> restore_from(args + more, i, options) == restore_from(
            args + more,
            args.len() as int,
            restore_from(args, i, options)->Ok_0,
        ),
    decreases args.len() - i,
{
    let all = args + more;
    if i < args.len() {
        assert(all[i] == args[i]);
        if args[i] == "--session"@ {
            assert(all[i + 1] == args[i + 1]);
            lemma_restore_more(
                args,
                more,
                i + 2,
                RestoreModel { selector: Some(args[i + 1]), ..options },
            );
        } else if args[i] == "--dry-run"@ {
            lemma_restore_more(args, more, i + 1, RestoreModel { dry_run: true, ..options });
        } else {
            lemma_restore_more(args, more, i + 1, RestoreModel { close_existing: false, ..options });
        }
    }
}

/// Nothing restores the newest snapshot and closes the windows that are there; each
/// option of a restore changes what it says, and nothing else, wherever it stands.
pub proof fn restore_options_add_up(
    args: Seq<Seq<char>>,
    selector: Seq<char>,
    options: RestoreModel,
)
    requires
        restore_of(args) == Ok::<RestoreModel, Seq<char>>(options),
    ensures
        restore_of(Seq::empty()) == Ok::<RestoreModel, Seq<char>>(
            RestoreModel { selector: None, dry_run: false, close_existing: true },
        ),
        restore_of(args + seq!["--dry-run"@]) == Ok::<RestoreModel, Seq<char>>(
            RestoreModel { dry_run: true, ..options },
        ),
        restore_of(args + seq!["--keep-existing"@]) == Ok::<RestoreModel, Seq<char>>(
            RestoreModel { close_existing: false, ..options },
        ),
        options.selector is None ==> restore_of(args + seq!["--session"@, selector]) == Ok::<
            RestoreModel,
            Seq<char>,
        >(RestoreModel { selector: Some(selector), ..options }),
        options.selector is Some ==> restore_of(args + seq!["--session"@, selector]) == Err::<
            RestoreModel,
            Seq<char>,
        >("use --session only once"@),
        options.selector is None ==> restore_of(args + seq!["--session"@]) == Err::<
            RestoreModel,
            Seq<char>,
        >("missing value for --session"@),
{
    reveal_strlit("--dry-run");
    reveal_strlit("--keep-existing");
    reveal_strlit("--session");
    assert("--dry-run"@.len() == 9 && "--dry-run"@[2] == 'd');
    assert("--session"@.len() == 9 && "--session"@[2] == 's');
    assert("--keep-existing"@.len() == 15);
    let start = RestoreModel { selector: None, dry_run: false, close_existing: true };
    let n = args.len() as int;
    let one = seq!["--dry-run"@];
    let two = seq!["--keep-existing"@];
    let three = seq!["--session"@, selector];
    let four = seq!["--session"@];
    lemma_restore_more(args, one, 0, start);
    lemma_restore_more(args, two, 0, start);
    lemma_restore_more(args, three, 0, start);
    lemma_restore_more(args, four, 0, start);
    assert((args + one)[n] == "--dry-run"@);
    assert((args + two)[n] == "--keep-existing"@);
    assert((args + three)[n] == "--session"@ && (args + three)[n + 1] == selector);
    assert((args + four)[n] == "--session"@);
    let dry = RestoreModel { dry_run: true, ..options };
    let kept = RestoreModel { close_existing: false, ..options };
    let chosen = RestoreModel { selector: Some(selector), ..options };
    assert(restore_from(args + one, n + 1, dry) == Ok::<RestoreModel, Seq<char>>(dry));
    assert(restore_from(args + two, n + 1, kept) == Ok::<RestoreModel, Seq<char>>(kept));
    assert(restore_from(args + three, n + 2, chosen) == Ok::<RestoreModel, Seq<char>>(chosen));
}

/// A word that a restore does not know is refused, by its name.
pub proof fn unknown_restore_options_are_refused(
    args: Seq<Seq<char>>,
    option: Seq<char>,
    rest: Seq<Seq<char>>,
)
    requires
        restore_of(args) is Ok,
        option != "--session"@,
        option != "--dry-run"@,
        option != "--keep-existing"@,
    ensures
        restore_of(args + (seq![option] + rest)) == Err::<RestoreModel, Seq<char>>(
            "unknown restore option "@ + debug_text(option),
        ),
{
    let start = RestoreModel { selector: None, dry_run: false, close_existing: true };
    let more = seq![option] + rest;
    lemma_restore_more(args, more, 0, start);
    assert((args + more)[args.len() as int] == option);
}

// ---------------------------------------------------------------------------
// Watching
// ---------------------------------------------------------------------------
/// A watcher needs a name and an interval; the last interval and the last scope count.
pub proof fn watch_options_add_up(
    name: Seq<char>,
    every: Seq<char>,
    amounts: Seq<Amount>,
    seconds: u64,
)
    requires
        interval_of(every, amounts[2].interval) == Ok::<u64, Seq<char>>(seconds),
    ensures
        watch_of(seq![name, "--every"@, every], amounts) == Ok::<WatchOptionsModel, Seq<char>>(
            WatchOptionsModel {
                name,
                interval_seconds: seconds,
                scope: WatchScope::CurrentWindow,
            },
        ),
        watch_of(seq![name, "--every"@, every, "--all-windows"@], amounts) == Ok::<
            WatchOptionsModel,
            Seq<char>,
        >(
            WatchOptionsModel { name, interval_seconds: seconds, scope: WatchScope::AllWindows },
        ),
        watch_of(seq![name, "--every"@, every, "--current-window"@], amounts) == Ok::<
            WatchOptionsModel,
            Seq<char>,
        >(
            WatchOptionsModel {
                name,
                interval_seconds: seconds,
                scope: WatchScope::CurrentWindow,
            },
        ),
        watch_of(seq![name], amounts) == Err::<WatchOptionsModel, Seq<char>>(
            "missing --every INTERVAL"@,
        ),
        watch_of(seq![name, "--every"@], amounts) == Err::<WatchOptionsModel, Seq<char>>(
            "missing value for --every"@,
        ),
        watch_of(Seq::empty(), amounts) == Err::<WatchOptionsModel, Seq<char>>(
            "missing watcher snapshot name"@,
        ),
{
    reveal_strlit("--every");
    reveal_strlit("--all-windows");
    reveal_strlit("--current-window");
    assert("--every"@.len() == 7 && "--all-windows"@.len() == 13 && "--current-window"@.len()
        == 16);
    let current = WatchScope::CurrentWindow;
    let one = seq![name, "--every"@, every];
    let two = seq![name, "--every"@, every, "--all-windows"@];
    let three = seq![name, "--every"@, every, "--current-window"@];
    assert(watch_from(one, amounts, 1, None, current) == watch_from(
        one,
        amounts,
        3,
        Some(seconds),
        current,
    ));
    assert(watch_from(two, amounts, 1, None, current) == watch_from(
        two,
        amounts,
        3,
        Some(seconds),
        current,
    ));
    assert(watch_from(two, amounts, 3, Some(seconds), current) == watch_from(
        two,
        amounts,
        4,
        Some(seconds),
        WatchScope::AllWindows,
    ));
    assert(watch_from(three, amounts, 1, None, current) == watch_from(
        three,
        amounts,
        3,
        Some(seconds),
        current,
    ));
    assert(watch_from(three, amounts, 3, Some(seconds), current) == watch_from(
        three,
        amounts,
        4,
        Some(seconds),
        current,
    ));
    let four = seq![name, "--every"@];
    assert(four.len() == 2 && four[1] == "--every"@);
}

// ---------------------------------------------------------------------------
// Listing and cleaning
// ---------------------------------------------------------------------------
/// The list is shown without a number; the number of a snapshot is read as it is
/// written; one with a zero in front, and more than one, are refused.
pub proof fn list_numbers_are_read(n: nat, other: Seq<char>, rest: Seq<char>)
    requires
        1 <= n <= usize::MAX,
    ensures
        list_of(Seq::empty()) == Ok::<Option<usize>, Seq<char>>(None),
        list_of(seq![decimal(n)]) == Ok::<Option<usize>, Seq<char>>(Some(n as usize)),
        list_of(seq!["0"@ + rest]) is Err,
        list_of(seq![other, rest]) is Err,
{
    reveal_strlit("0");
    lemma_decimal_digits(n);
    decimal_reads_back(n, usize::MAX as nat);
    parts_are_found(Seq::empty(), "0"@, rest);
    let text = decimal(n);
    if starts_with(text, "0"@) {
        assert(text.subrange(0, 1)[0] == '0');
    }
}

/// Without an age, snapshots from seven days on are removed; with one, from that age
/// on; two are refused.
pub proof fn clean_ages_are_read(age: Seq<char>, other: Seq<char>, amounts: Seq<Amount>)
    ensures
        clean_of(Seq::empty(), amounts) == Ok::<u64, Seq<char>>(604_800),
        clean_of(seq![age], amounts) == age_of(age, amounts[0].age),
        clean_of(seq![age, other], amounts) == Err::<u64, Seq<char>>(
            "use rz --clean [AGE] with a single age such as 7d or 2.weeks"@,
        ),
{
}

// ---------------------------------------------------------------------------
// The first word
// ---------------------------------------------------------------------------
/// The first word says what is asked for, and the others are read for it.
pub proof fn the_first_word_decides(rest: Seq<Seq<char>>, amounts: Seq<Amount>)
    ensures
        command_of(seq!["--save"@] + rest, amounts) == (match save_of(rest) {
            Ok(options) => Ok::<CommandModel, Seq<char>>(CommandModel::Save(options)),
            Err(e) => Err(e),
        }),
        command_of(seq!["--watch"@] + rest, amounts) == (match watch_of(rest, amounts.skip(1)) {
            Ok(options) => Ok::<CommandModel, Seq<char>>(CommandModel::StartWatch(options)),
            Err(e) => Err(e),
        }),
        command_of(seq!["--clean"@] + rest, amounts) == (match clean_of(rest, amounts.skip(1)) {
            Ok(age_seconds) => Ok::<CommandModel, Seq<char>>(CommandModel::Clean { age_seconds }),
            Err(e) => Err(e),
        }),
        command_of(seq!["--list"@] + rest, amounts) == (match list_of(rest) {
            Ok(number) => Ok::<CommandModel, Seq<char>>(CommandModel::List(number)),
            Err(e) => Err(e),
        }),
{
    lemma_words_differ();
    assert((seq!["--save"@] + rest).skip(1) =~= rest);
    assert((seq!["--watch"@] + rest).skip(1) =~= rest);
    assert((seq!["--clean"@] + rest).skip(1) =~= rest);
    assert((seq!["--list"@] + rest).skip(1) =~= rest);
    assert((seq!["--save"@] + rest)[0] == "--save"@);
    assert((seq!["--watch"@] + rest)[0] == "--watch"@);
    assert((seq!["--clean"@] + rest)[0] == "--clean"@);
    assert((seq!["--list"@] + rest)[0] == "--list"@);
}

/// The words that stand alone, and what is restored where no word is known.
pub proof fn words_that_stand_alone(args: Seq<Seq<char>>, amounts: Seq<Amount>)
    ensures
        command_of(seq!["--watch-status"@], amounts) == Ok::<CommandModel, Seq<char>>(
            CommandModel::WatchStatus,
        ),
        command_of(seq!["--watch-stop"@], amounts) == Ok::<CommandModel, Seq<char>>(
            CommandModel::WatchStop,
        ),
        command_of(seq!["--help"@], amounts) == Ok::<CommandModel, Seq<char>>(CommandModel::Help),
        command_of(seq!["--version"@], amounts) == Ok::<CommandModel, Seq<char>>(
            CommandModel::Version,
        ),
        command_of(seq!["-V"@], amounts) == Ok::<CommandModel, Seq<char>>(CommandModel::Version),
        args.len() == 0 || (args[0] != "--save"@ && args[0] != "--watch"@ && args[0]
            != "--watch-worker"@ && args[0] != "--clean"@ && args[0] != "--list"@ && (args.len() > 1
            || (args[0] != "--watch-status"@ && args[0] != "--watch-stop"@ && args[0] != "--help"@
            && args[0] != "--version"@ && args[0] != "-V"@))) ==> command_of(args, amounts) == (
        match restore_of(args) {
            Ok(options) => Ok::<CommandModel, Seq<char>>(CommandModel::Restore(options)),
            Err(e) => Err(e),
        }),
{
    lemma_words_differ();
}

proof fn lemma_words_differ()
    ensures
        "--save"@.len() == 6,
        "--watch"@.len() == 7,
        "--clean"@.len() == 7,
        "--watch"@[2] == 'w',
        "--clean"@[2] == 'c',
        "--list"@.len() == 6,
        "--save"@[2] == 's',
        "--list"@[2] == 'l',
        "--help"@.len() == 6,
        "--help"@[2] == 'h',
        "--watch-status"@.len() == 14,
        "--watch-worker"@.len() == 14,
        "--watch-status"@[8] == 's',
        "--watch-worker"@[8] == 'w',
        "--watch-stop"@.len() == 12,
        "--version"@.len() == 9,
        "-V"@.len() == 2,
{
    reveal_strlit("--save");
    reveal_strlit("--watch");
    reveal_strlit("--clean");
    reveal_strlit("--list");
    reveal_strlit("--help");
    reveal_strlit("--watch-status");
    reveal_strlit("--watch-worker");
    reveal_strlit("--watch-stop");
    reveal_strlit("--version");
    reveal_strlit("-V");
}

} // verus!
