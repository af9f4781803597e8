//! What becomes of the snapshots when old ones are removed.
use vstd::prelude::*;
use vstd::string::*;

use crate::clean::{Cleaned, clean_lines, cleaned, cleaned_one, cutoff_of, may_remove, purged_line};
use crate::clock::{Moment, earlier, read_moment, rfc3339_text, shown_time};
use crate::number::decimal;
use crate::path::{base_name, below, is_file_name, joined_name_stands_in, parts};
use crate::report::duration_text;
use crate::store::EntryModel;
use crate::ui::label_line;

verus! {

/// An age that a clock with a sign cannot count is refused; any other moves the time
/// back by as many seconds, and by nothing else.
pub proof fn ages_move_the_time_back(now: Moment, age_seconds: u64)
    requires
        now.seconds - age_seconds >= i64::MIN || age_seconds > i64::MAX,
    ensures
        age_seconds > i64::MAX ==> cutoff_of(now, age_seconds) == Err::<Moment, Seq<char>>(
            "out of range integral type conversion attempted"@,
        ),
        age_seconds <= i64::MAX ==> cutoff_of(now, age_seconds) is Ok && cutoff_of(
            now,
            age_seconds,
        )->Ok_0.seconds + age_seconds == now.seconds && cutoff_of(now, age_seconds)->Ok_0.nanos
            == now.nanos,
{
}

/// What was saved before is earlier, by its seconds and else by its parts of a
/// second: of two different times exactly one is earlier, and none before itself.
pub proof fn times_are_in_order(a: Moment, b: Moment)
    ensures
        a.seconds < b.seconds ==> earlier(a, b) && !earlier(b, a),
        a.seconds == b.seconds && a.nanos < b.nanos ==> earlier(a, b) && !earlier(b, a),
        a.seconds == b.seconds && a.nanos == b.nanos ==> !earlier(a, b) && !earlier(b, a),
{
}

/// A directory that stands directly among the snapshots may be removed; one that is
/// a symbolic link, the directory of the snapshots itself, and what stands elsewhere
/// may not.
pub proof fn only_snapshots_may_be_removed(
    snapshots_dir: Seq<char>,
    name: Seq<char>,
    inner: Seq<char>,
    is_symlink: bool,
)
    requires
        snapshots_dir.len() > 0,
        is_file_name(name),
        is_file_name(inner),
    ensures
        may_remove(below(snapshots_dir, name), snapshots_dir, false),
        !may_remove(below(snapshots_dir, name), snapshots_dir, true),
        !may_remove(snapshots_dir, snapshots_dir, is_symlink),
        !may_remove(below(below(snapshots_dir, name), inner), snapshots_dir, is_symlink),
{
    joined_name_stands_in(snapshots_dir, name);
    let directory = below(snapshots_dir, name);
    joined_name_stands_in(directory, inner);
    let deep = below(directory, inner);
    assert(parts(deep).drop_last() == parts(directory));
    assert(parts(directory).drop_last() == parts(snapshots_dir));
    assert(parts(directory).len() == parts(snapshots_dir).len() + 1);
    assert(parts(deep).len() == parts(snapshots_dir).len() + 2);
}

/// A snapshot that is old enough and can be removed is told as removed, with the time
/// at which it was saved; one that cannot be removed, or whose age cannot be told, is
/// warned of by the name of its directory and the reason.
pub proof fn every_snapshot_is_told(
    entries: Seq<EntryModel>,
    failures: Seq<Option<Seq<char>>>,
    cutoff: Moment,
    n: nat,
    i: int,
)
    requires
        0 <= i < n <= entries.len(),
        failures.len() == entries.len(),
    ensures
        ({
            let done = cleaned(entries, failures, cutoff, n);
            let directory = entries[i].directory;
            match entries[i].snapshot {
                Err(e) => done.warnings.contains("kept "@ + base_name(directory) + ": "@ + e),
                Ok(snapshot) => match read_moment(snapshot.saved_at) {
                    Err(e) => done.warnings.contains("kept "@ + base_name(directory) + ": "@ + e),
                    Ok(saved) => earlier(saved, cutoff) ==> match failures[i] {
                        Some(e) => done.warnings.contains(
                            "kept "@ + base_name(directory) + ": "@ + e,
                        ),
                        None => done.removed.contains((snapshot.id, saved)),
                    },
                },
            }
        }),
    decreases n,
{
    let before = cleaned(entries, failures, cutoff, (n - 1) as nat);
    let done = cleaned(entries, failures, cutoff, n);
    if i == n - 1 {
        if done.warnings.len() > before.warnings.len() {
            assert(done.warnings[done.warnings.len() - 1] == done.warnings.last());
        }
        if done.removed.len() > before.removed.len() {
            assert(done.removed[done.removed.len() - 1] == done.removed.last());
        }
    } else {
        every_snapshot_is_told(entries, failures, cutoff, (n - 1) as nat, i);
        assert forall|w: Seq<char>| before.warnings.contains(w) implies #[trigger] done.warnings.contains(
            w,
        ) by {
            let k = choose|k: int| 0 <= k < before.warnings.len() && before.warnings[k] == w;
            assert(done.warnings[k] == w);
        }
        assert forall|r: (Seq<char>, Moment)|
            before.removed.contains(r) implies #[trigger] done.removed.contains(r) by {
            let k = choose|k: int| 0 <= k < before.removed.len() && before.removed[k] == r;
            assert(done.removed[k] == r);
        }
    }
}

/// A snapshot that is not old enough is kept, and counted.
pub proof fn newer_snapshots_are_kept(
    before: Cleaned,
    entry: EntryModel,
    failure: Option<Seq<char>>,
    cutoff: Moment,
)
    requires
        entry.snapshot is Ok,
        read_moment(entry.snapshot->Ok_0.saved_at) is Ok,
        !earlier(read_moment(entry.snapshot->Ok_0.saved_at)->Ok_0, cutoff),
    ensures
        ({
            let done = cleaned_one(before, entry, failure, cutoff);
            done.kept == before.kept + 1 && done.removed == before.removed && done.warnings
                == before.warnings
        }),
{
}

/// The report tells the age, how many snapshots were removed and how many were kept,
/// where they stand, each that was removed, and each warning.
pub proof fn cleaning_is_told(
    age_seconds: u64,
    cutoff_text: Seq<char>,
    location: Seq<char>,
    done: Cleaned,
    i: int,
)
    ensures
        ({
            let all = clean_lines(age_seconds, cutoff_text, location, done);
            &&& all.len() == 5 + done.removed.len() + done.warnings.len()
            &&& all[0] == label_line("OLDER THAN"@, duration_text(age_seconds as nat))
            &&& all[1] == label_line("CUTOFF"@, cutoff_text)
            &&& all[2] == label_line("REMOVED"@, decimal(done.removed.len()) + " snapshot(s)"@)
            &&& all[3] == label_line("KEPT"@, decimal(done.kept) + " newer snapshot(s)"@)
            &&& all[4] == label_line("LOCATION"@, location)
            &&& 0 <= i < done.removed.len() ==> (rfc3339_text(done.removed[i].1) matches Some(text)
                ==> all[5 + i] == label_line(
                "PURGED"@,
                done.removed[i].0 + "  |  "@ + shown_time(text),
            ))
            &&& 0 <= i < done.warnings.len() ==> all[5 + done.removed.len() + i] == label_line(
                "WARNING"@,
                done.warnings[i],
            )
        }),
{
    let all = clean_lines(age_seconds, cutoff_text, location, done);
    if 0 <= i < done.removed.len() {
        assert(all[5 + i] == purged_line(done.removed[i].0, done.removed[i].1));
    }
}

} // verus!
