//! Removing old snapshots.
use vstd::prelude::*;
use vstd::string::*;

use crate::clock::{
    Moment, display_time, earlier, is_earlier, moment_of, read_moment, rfc3339_text, shown_time,
    stored_time,
};
use crate::error::Error;
use crate::model::SnapshotModel;
use crate::number::{decimal, decimal_text};
use crate::path::{base_name, file_name, is_child, stands_in};
use crate::report::{duration_text, human_duration};
use crate::store::{Entry, EntryModel, Report, ReportModel, entry_views};
use crate::text::{push_text, texts};
use crate::ui::{label_line, labeled};

verus! {

/// Names what `format!` writes for the path `text` with `{:?}`.
pub uninterp spec fn debug_path(text: Seq<char>) -> Seq<char>;

/// The `Debug` form of `std::path::Path`, through `format!`: the path between
/// quotation marks, with the characters that need it escaped. Which characters need
/// it follows tables of Unicode; the result is only named.
#[verifier::external_body]
fn quoted_path(text: &str) -> (r: String)
    ensures
        r@ == debug_path(text@),
{
    format!("{:?}", std::path::Path::new(text))
}

// ---------------------------------------------------------------------------
// Decisions
// ---------------------------------------------------------------------------
/// An age as a length of time: it must fit into the range of `i64`.
pub open spec fn age_span(age_seconds: u64) -> Result<i64, Seq<char>> {
    if age_seconds > i64::MAX {
        Err("out of range integral type conversion attempted"@)
    } else {
        Ok(age_seconds as i64)
    }
}

/// An age as a length of time.
pub fn clean_span(age_seconds: u64) -> (r: Result<i64, Error>)
    ensures
        match r {
            Ok(n) => age_span(age_seconds) == Ok::<i64, Seq<char>>(n),
            Err(e) => age_span(age_seconds) == Err::<i64, Seq<char>>(e@),
        },
{
    if age_seconds > 0x7fff_ffff_ffff_ffffu64 {
        Err(Error::from_text("out of range integral type conversion attempted"))
    } else {
        Ok(age_seconds as i64)
    }
}

/// The time before which snapshots are removed: the age before now.
pub open spec fn cutoff_of(now: Moment, age_seconds: u64) -> Result<Moment, Seq<char>> {
    match age_span(age_seconds) {
        Err(e) => Err(e),
        Ok(span) => Ok(Moment { seconds: (now.seconds - span) as i64, ..now }),
    }
}

/// The time before which snapshots are removed: the age before now. It keeps the
/// offset of now, which does not tell it from any other.
pub fn clean_cutoff(now: Moment, age_seconds: u64) -> (r: Result<Moment, Error>)
    requires
        age_seconds <= i64::MAX ==> now.seconds - age_seconds >= i64::MIN,
    ensures
        match r {
            Ok(cutoff) => cutoff_of(now, age_seconds) == Ok::<Moment, Seq<char>>(cutoff)
                && cutoff.seconds == now.seconds - age_seconds && cutoff.nanos == now.nanos,
            Err(e) => cutoff_of(now, age_seconds) == Err::<Moment, Seq<char>>(e@),
        },
{
    match clean_span(age_seconds) {
        Ok(span) => Ok(Moment { seconds: now.seconds - span, nanos: now.nanos, offset: now.offset }),
        Err(e) => Err(e),
    }
}

/// Whether what was saved at `saved` is more than `age_seconds` old.
pub open spec fn is_older(saved: Moment, now: Moment, age_seconds: u64) -> bool {
    saved.seconds + age_seconds < now.seconds || (saved.seconds + age_seconds == now.seconds
        && saved.nanos < now.nanos)
}

/// What becomes of a snapshot: it is removed, with the time at which it was saved,
/// where that is before `cutoff`; else it is kept. One whose time cannot be told is
/// reported.
pub open spec fn decision(snapshot: Result<SnapshotModel, Seq<char>>, cutoff: Moment) -> Result<
    Option<Moment>,
    Seq<char>,
> {
    match snapshot {
        Err(e) => Err(e),
        Ok(snapshot) => match read_moment(snapshot.saved_at) {
            Err(e) => Err(e),
            Ok(saved) => if earlier(saved, cutoff) {
                Ok(Some(saved))
            } else {
                Ok(None)
            },
        },
    }
}

/// What becomes of a snapshot whose time was read.
pub fn age_decision(saved: Moment, cutoff: Moment) -> (r: Option<Moment>)
    ensures
        r == if earlier(saved, cutoff) {
            Some(saved)
        } else {
            None
        },
{
    if is_earlier(saved, cutoff) {
        Some(saved)
    } else {
        None
    }
}

/// What becomes of the snapshot of an entry.
pub fn clean_decision(entry: &Entry, cutoff: Moment) -> (r: Result<Option<Moment>, Error>)
    ensures
        match r {
            Ok(saved) => decision(entry@.snapshot, cutoff) == Ok::<Option<Moment>, Seq<char>>(
                saved,
            ),
            Err(e) => decision(entry@.snapshot, cutoff) == Err::<Option<Moment>, Seq<char>>(e@),
        },
{
    match &entry.snapshot {
        Err(e) => Err(Error::new(e.message.clone())),
        Ok(snapshot) => match moment_of(snapshot.saved_at.as_str()) {
            Err(e) => Err(e),
            Ok(saved) => Ok(age_decision(saved, cutoff)),
        },
    }
}

/// Which of the snapshots are removed: exactly those that were saved before
/// `cutoff`.
pub fn clean_plan(entries: &Vec<Entry>, cutoff: Moment) -> (r: Vec<bool>)
    ensures
        r@.len() == entries@.len(),
        forall|i: int|
            0 <= i < r@.len() ==> #[trigger] r@[i] == (decision(
                entry_views(entries@)[i].snapshot,
                cutoff,
            ) matches Ok(Some(_))),
{
    let ghost model = entry_views(entries@);
    let mut r: Vec<bool> = Vec::new();
    let mut i: usize = 0;
    while i < entries.len()
        invariant
            model == entry_views(entries@),
            i <= entries@.len(),
            r@.len() == i,
            forall|k: int|
                0 <= k < i ==> #[trigger] r@[k] == (decision(model[k].snapshot, cutoff) matches Ok(
                    Some(_),
                )),
        decreases entries@.len() - i,
    {
        assert(model[i as int] == entries@[i as int]@);
        let remove = match clean_decision(&entries[i], cutoff) {
            Ok(Some(_)) => true,
            _ => false,
        };
        r.push(remove);
        i = i + 1;
    }
    r
}

/// What is said of a directory that is not removed.
pub open spec fn removal_fault(directory: Seq<char>) -> Seq<char> {
    "refusing to remove unsafe snapshot path "@ + debug_path(directory)
}

/// Whether a directory may be removed: it stands directly among the snapshots, and
/// is no symbolic link.
pub open spec fn may_remove(
    directory: Seq<char>,
    snapshots_dir: Seq<char>,
    is_symlink: bool,
) -> bool {
    stands_in(directory, snapshots_dir) && !is_symlink
}

/// Fails for a directory that may not be removed.
pub fn check_removal(directory: &str, snapshots_dir: &str, is_symlink: bool) -> (r: Result<
    (),
    Error,
>)
    ensures
        match r {
            Ok(_) => may_remove(directory@, snapshots_dir@, is_symlink),
            Err(e) => !may_remove(directory@, snapshots_dir@, is_symlink) && e@ == removal_fault(
                directory@,
            ),
        },
{
    if !is_child(directory, snapshots_dir) || is_symlink {
        let mut message = "refusing to remove unsafe snapshot path ".to_owned();
        message.append(quoted_path(directory).as_str());
        return Err(Error::new(message));
    }
    Ok(())
}

/// Exactly the snapshots that are older than the age are removed.
pub proof fn snapshots_older_than_the_age_are_removed(
    snapshot: SnapshotModel,
    now: Moment,
    age_seconds: u64,
)
    requires
        age_seconds <= i64::MAX,
        now.seconds - age_seconds >= i64::MIN,
    ensures
        cutoff_of(now, age_seconds) is Ok,
        decision(Ok(snapshot), cutoff_of(now, age_seconds)->Ok_0) == match read_moment(
            snapshot.saved_at,
        ) {
            Ok(saved) => Ok::<Option<Moment>, Seq<char>>(
                if is_older(saved, now, age_seconds) {
                    Some(saved)
                } else {
                    None
                },
            ),
            Err(e) => Err::<Option<Moment>, Seq<char>>(e),
        },
{
}

// ---------------------------------------------------------------------------
// The report
// ---------------------------------------------------------------------------
/// What was done: which snapshots were removed, with their times, how many were
/// kept, and which could not be cleaned.
pub struct Cleaned {
    pub removed: Seq<(Seq<char>, Moment)>,
    pub kept: nat,
    pub warnings: Seq<Seq<char>>,
}

/// The warning about a snapshot that stays because of a failure.
pub open spec fn kept_warning(directory: Seq<char>, fault: Seq<char>) -> Seq<char> {
    "kept "@ + base_name(directory) + ": "@ + fault
}

/// What was done with one more snapshot; `failure` says why it could not be
/// removed.
pub open spec fn cleaned_one(
    before: Cleaned,
    entry: EntryModel,
    failure: Option<Seq<char>>,
    cutoff: Moment,
) -> Cleaned {
    match decision(entry.snapshot, cutoff) {
        Err(e) => Cleaned {
            warnings: before.warnings.push(kept_warning(entry.directory, e)),
            ..before
        },
        Ok(None) => Cleaned { kept: before.kept + 1, ..before },
        Ok(Some(saved)) => match failure {
            Some(e) => Cleaned {
                warnings: before.warnings.push(kept_warning(entry.directory, e)),
                ..before
            },
            None => Cleaned {
                removed: before.removed.push((entry.snapshot->Ok_0.id, saved)),
                ..before
            },
        },
    }
}

/// What was done with the first `n` snapshots.
pub open spec fn cleaned(
    entries: Seq<EntryModel>,
    failures: Seq<Option<Seq<char>>>,
    cutoff: Moment,
    n: nat,
) -> Cleaned
    decreases n,
{
    if n == 0 {
        Cleaned { removed: Seq::empty(), kept: 0, warnings: Seq::empty() }
    } else {
        cleaned_one(
            cleaned(entries, failures, cutoff, (n - 1) as nat),
            entries[n - 1],
            failures[n - 1],
            cutoff,
        )
    }
}

/// Every snapshot is removed, kept or warned of, and only one of these.
pub proof fn every_snapshot_is_accounted_for(
    entries: Seq<EntryModel>,
    failures: Seq<Option<Seq<char>>>,
    cutoff: Moment,
    n: nat,
)
    ensures
        ({
            let done = cleaned(entries, failures, cutoff, n);
            done.removed.len() + done.kept + done.warnings.len() == n
        }),
    decreases n,
{
    if n > 0 {
        every_snapshot_is_accounted_for(entries, failures, cutoff, (n - 1) as nat);
    }
}

/// Every snapshot that is reported as removed was saved before `cutoff`.
pub proof fn only_old_snapshots_are_removed(
    entries: Seq<EntryModel>,
    failures: Seq<Option<Seq<char>>>,
    cutoff: Moment,
    n: nat,
)
    ensures
        forall|i: int|
            0 <= i < cleaned(entries, failures, cutoff, n).removed.len() ==> earlier(
                (#[trigger] cleaned(entries, failures, cutoff, n).removed[i]).1,
                cutoff,
            ),
    decreases n,
{
    if n > 0 {
        only_old_snapshots_are_removed(entries, failures, cutoff, (n - 1) as nat);
        let before = cleaned(entries, failures, cutoff, (n - 1) as nat).removed;
        let after = cleaned(entries, failures, cutoff, n).removed;
        assert forall|i: int| 0 <= i < after.len() implies earlier(
            (#[trigger] after[i]).1,
            cutoff,
        ) by {
            if i < before.len() {
                assert(after[i] == before[i]);
            }
        }
    }
}

/// The failures that a list holds.
pub open spec fn failure_views(v: Seq<Option<Error>>) -> Seq<Option<Seq<char>>> {
    v.map_values(
        |e: Option<Error>|
            match e {
                Some(e) => Some(e@),
                None => None,
            },
    )
}

/// The line about a snapshot that was removed.
pub open spec fn purged_line(id: Seq<char>, saved: Moment) -> Seq<char> {
    label_line(
        "PURGED"@,
        id + "  |  "@ + match rfc3339_text(saved) {
            Some(text) => shown_time(text),
            None => Seq::empty(),
        },
    )
}

/// The report on what was done.
pub open spec fn clean_lines(
    age_seconds: u64,
    cutoff_text: Seq<char>,
    location: Seq<char>,
    done: Cleaned,
) -> Seq<Seq<char>> {
    seq![
        label_line("OLDER THAN"@, duration_text(age_seconds as nat)),
        label_line("CUTOFF"@, cutoff_text),
        label_line("REMOVED"@, decimal(done.removed.len()) + " snapshot(s)"@),
        label_line("KEPT"@, decimal(done.kept) + " newer snapshot(s)"@),
        label_line("LOCATION"@, location),
    ] + done.removed.map_values(|p: (Seq<char>, Moment)| purged_line(p.0, p.1))
        + done.warnings.map_values(|w: Seq<char>| label_line("WARNING"@, w))
}

/// The line about a snapshot that was removed.
fn purged_text(id: &str, saved: Moment) -> (r: String)
    ensures
        r@ == purged_line(id@, saved),
{
    let mut text = id.to_owned();
    text.append("  |  ");
    match stored_time(saved) {
        Some(stored) => {
            text.append(display_time(stored.as_str()).as_str());
        },
        None => {
            assert(text@ =~= text@ + Seq::<char>::empty());
        },
    }
    labeled("PURGED", text.as_str())
}

/// The warning about a snapshot that stays because of a failure.
fn kept_text(directory: &str, fault: &Error) -> (r: String)
    ensures
        r@ == kept_warning(directory@, fault@),
{
    let mut text = "kept ".to_owned();
    text.append(file_name(directory).as_str());
    text.append(": ");
    text.append(fault.message.as_str());
    text
}

/// The report on what was done: `failures` says for each snapshot why it could not
/// be removed, if that failed.
pub fn clean_report(
    age_seconds: u64,
    cutoff: Moment,
    cutoff_text: &str,
    location: &str,
    entries: &Vec<Entry>,
    failures: &Vec<Option<Error>>,
) -> (r: Report)
    requires
        failures@.len() == entries@.len(),
    ensures
        r@ == (ReportModel {
            title: "SNAPSHOTS CLEANED"@,
            lines: clean_lines(
                age_seconds,
                cutoff_text@,
                location@,
                cleaned(
                    entry_views(entries@),
                    failure_views(failures@),
                    cutoff,
                    entries@.len(),
                ),
            ),
        }),
{
    let ghost model = entry_views(entries@);
    let ghost faults = failure_views(failures@);
    let mut removed: Vec<String> = Vec::new();
    let mut kept: usize = 0;
    let mut warnings: Vec<String> = Vec::new();
    let ghost purged = |p: (Seq<char>, Moment)| purged_line(p.0, p.1);
    let ghost warned = |w: Seq<char>| label_line("WARNING"@, w);
    let mut i: usize = 0;
    proof {
        let none = cleaned(model, faults, cutoff, 0);
        assert(texts(removed@) =~= none.removed.map_values(purged));
        assert(texts(warnings@) =~= none.warnings.map_values(warned));
    }
    while i < entries.len()
        invariant
            failures@.len() == entries@.len(),
            model == entry_views(entries@),
            faults == failure_views(failures@),
            purged == (|p: (Seq<char>, Moment)| purged_line(p.0, p.1)),
            warned == (|w: Seq<char>| label_line("WARNING"@, w)),
            i <= entries@.len(),
            kept <= i,
            texts(removed@) == cleaned(model, faults, cutoff, i as nat).removed.map_values(purged),
            kept == cleaned(model, faults, cutoff, i as nat).kept,
            texts(warnings@) == cleaned(model, faults, cutoff, i as nat).warnings.map_values(
                warned,
            ),
        decreases entries@.len() - i,
    {
        let entry = &entries[i];
        let ghost before = cleaned(model, faults, cutoff, i as nat);
        let ghost after = cleaned(model, faults, cutoff, (i + 1) as nat);
        proof {
            assert(model[i as int] == entry@);
            assert(faults[i as int] == match failures@[i as int] {
                Some(e) => Some(e@),
                None => None,
            });
        }
        match clean_decision(entry, cutoff) {
            Err(e) => {
                let text = kept_text(entry.directory.as_str(), &e);
                push_text(&mut warnings, labeled("WARNING", text.as_str()));
            },
            Ok(None) => {
                kept = kept + 1;
            },
            Ok(Some(saved)) => match &failures[i] {
                Some(e) => {
                    let text = kept_text(entry.directory.as_str(), e);
                    push_text(&mut warnings, labeled("WARNING", text.as_str()));
                },
                None => {
                    if let Ok(snapshot) = &entry.snapshot {
                        push_text(&mut removed, purged_text(snapshot.id.as_str(), saved));
                    }
                },
            },
        }
        proof {
            assert(texts(removed@) =~= after.removed.map_values(purged));
            assert(texts(warnings@) =~= after.warnings.map_values(warned));
        }
        i = i + 1;
    }
    let ghost done = cleaned(model, faults, cutoff, entries@.len());
    assert(removed@.len() == done.removed.len()) by {
        assert(texts(removed@).len() == removed@.len());
    }
    let mut lines: Vec<String> = Vec::new();
    push_text(&mut lines, labeled("OLDER THAN", human_duration(age_seconds).as_str()));
    push_text(&mut lines, labeled("CUTOFF", cutoff_text));
    let mut removed_text = decimal_text(removed.len() as u64);
    removed_text.append(" snapshot(s)");
    push_text(&mut lines, labeled("REMOVED", removed_text.as_str()));
    let mut newer_text = decimal_text(kept as u64);
    newer_text.append(" newer snapshot(s)");
    push_text(&mut lines, labeled("KEPT", newer_text.as_str()));
    push_text(&mut lines, labeled("LOCATION", location));
    let ghost head = texts(lines@);
    let ghost first = texts(removed@);
    let ghost second = texts(warnings@);
    let ghost first_strings = removed@;
    let ghost second_strings = warnings@;
    let ghost head_strings = lines@;
    lines.append(&mut removed);
    lines.append(&mut warnings);
    proof {
        assert(lines@ =~= head_strings + first_strings + second_strings);
        assert(texts(lines@) =~= head + first + second);
        assert(texts(lines@) =~= clean_lines(age_seconds, cutoff_text@, location@, done));
    }
    Report { title: "SNAPSHOTS CLEANED".to_owned(), lines }
}

} // verus!
