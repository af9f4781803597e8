//! How snapshots are found and listed.
use vstd::prelude::*;
use vstd::string::*;

use crate::app::{DatedModel, by_change, latest_first, ready_file_of, script_path, state_root};
use crate::clock::{read_moment, shown_time};
use crate::error::debug_text;
use crate::list::{
    last_index, lemma_first_index, lemma_last_index, lemma_sorted_by_items, orders, sorted_by,
    sorting_orders,
};
use crate::number::{decimal, two_digits};
use crate::path::{base_name, below};
use crate::report::{details_of, layout_of, snapshot_fault};
use crate::store::{
    EntryModel, ReportModel, entry_key, entry_moment, in_directory_named, list_report, listed,
    listing, listing_lines, newest_id, pair_before, resolved, saved_as, with_name,
};
use crate::text::{starts_with, text_before};
use crate::ui::label_line;

verus! {

// ---------------------------------------------------------------------------
// Which files are snapshots
// ---------------------------------------------------------------------------
/// A file whose name begins with a dot is no snapshot; any other can be one.
pub proof fn hidden_files_are_not_listed(name: Seq<char>)
    ensures
        listed(name) <==> name.len() == 0 || name[0] != '.',
{
    reveal_strlit(".");
    if name.len() > 0 {
        if name[0] == '.' {
            assert(name.subrange(0, 1) =~= "."@);
        } else if starts_with(name, "."@) {
            assert(name.subrange(0, 1)[0] == '.');
        }
    }
}

/// What an entry is ordered by: its time, and the text of it with the identifier; one
/// that cannot be read has no time, and is ordered by the name of its directory.
pub proof fn entries_are_ordered_by_their_snapshot(entry: EntryModel)
    ensures
        entry.snapshot matches Ok(snapshot) ==> {
            &&& entry_key(entry) == (snapshot.saved_at, snapshot.id)
            &&& entry_moment(entry) == read_moment(snapshot.saved_at).ok()
        },
        entry.snapshot is Err ==> entry_key(entry) == (
            Seq::<char>::empty(),
            base_name(entry.directory),
        ) && entry_moment(entry) is None,
{
}

/// Of two entries the one with the earlier text stands first, and of two with the
/// same text the one with the earlier identifier.
pub proof fn keys_are_ordered_by_their_texts(
    a: Seq<char>,
    b: Seq<char>,
    x: Seq<char>,
    y: Seq<char>,
)
    ensures
        text_before(a, b) ==> pair_before((a, x), (b, y)),
        text_before(x, y) ==> pair_before((a, x), (a, y)),
        pair_before((a, x), (b, y)) ==> text_before(a, b) || a == b && text_before(x, y),
{
}

// ---------------------------------------------------------------------------
// Which one is meant
// ---------------------------------------------------------------------------
/// What was saved under a name or at a time answers to both, and to nothing else; a
/// snapshot that cannot be read answers to none.
pub proof fn snapshots_answer_to_name_and_time(entry: EntryModel, selector: Seq<char>)
    ensures
        entry.snapshot matches Ok(snapshot) ==> {
            &&& saved_as(snapshot.name)(entry)
            &&& saved_as(snapshot.timestamp)(entry)
            &&& selector != snapshot.name && selector != snapshot.timestamp ==> !saved_as(selector)(
                entry,
            )
            &&& with_name(snapshot.name)(entry)
            &&& selector != snapshot.name ==> !with_name(selector)(entry)
        },
        entry.snapshot is Err ==> !saved_as(selector)(entry) && !with_name(selector)(entry),
        base_name(entry.directory).len() > 0 ==> in_directory_named(base_name(entry.directory))(
            entry,
        ),
        selector != base_name(entry.directory) ==> !in_directory_named(selector)(entry),
        selector.len() == 0 ==> !in_directory_named(selector)(entry),
{
}

/// Where there are no snapshots, none is meant; without a selector the last one is;
/// and a selector to which nothing answers is told.
pub proof fn unknown_snapshots_are_told(entries: Seq<EntryModel>, selector: Seq<char>)
    ensures
        resolved(Seq::empty(), None) == Err::<int, Seq<char>>(
            "no saved sessions; create one with rz --save NAME"@,
        ),
        resolved(Seq::empty(), Some(selector)) == Err::<int, Seq<char>>(
            "no saved sessions; create one with rz --save NAME"@,
        ),
        entries.len() > 0 ==> resolved(entries, None) == Ok::<int, Seq<char>>(entries.len() - 1),
        entries.len() > 0 && (forall|i: int|
            0 <= i < entries.len() ==> base_name((#[trigger] entries[i]).directory) != selector && (
            entries[i].snapshot matches Ok(snapshot) ==> snapshot.name != selector
                && snapshot.timestamp != selector)) ==> resolved(entries, Some(selector)) == Err::<
            int,
            Seq<char>,
        >("no saved session matches "@ + debug_text(selector) + "; run rz --list"@),
{
    lemma_first_index(entries, in_directory_named(selector));
    lemma_last_index(entries, saved_as(selector));
}

/// Of several snapshots that answer to a name, and no directory of that name, the last
/// one is meant; and it is the one that is told as the newest of that name.
pub proof fn the_last_of_a_name_is_meant(entries: Seq<EntryModel>, name: Seq<char>, k: int)
    requires
        0 <= k < entries.len(),
        entries[k].snapshot is Ok,
        entries[k].snapshot->Ok_0.name == name,
        forall|j: int|
            k < j < entries.len() ==> ((#[trigger] entries[j]).snapshot matches Ok(snapshot)
                ==> snapshot.name != name && snapshot.timestamp != name),
    ensures
        newest_id(entries, name) == Some(entries[k].snapshot->Ok_0.id),
        (forall|j: int|
            0 <= j < entries.len() ==> base_name((#[trigger] entries[j]).directory) != name)
            ==> resolved(entries, Some(name)) == Ok::<int, Seq<char>>(k),
{
    lemma_last_index(entries, with_name(name));
    lemma_last_index(entries, saved_as(name));
    lemma_first_index(entries, in_directory_named(name));
    assert(with_name(name)(entries[k]));
    assert(saved_as(name)(entries[k]));
    let i = last_index(entries, with_name(name))->0;
    let j = last_index(entries, saved_as(name))->0;
    assert(with_name(name)(entries[i]));
    assert(saved_as(name)(entries[j]));
}

/// The first directory of a name is meant, whatever its snapshot is called.
pub proof fn the_directory_of_a_name_is_meant(entries: Seq<EntryModel>, k: int)
    requires
        0 <= k < entries.len(),
        base_name(entries[k].directory).len() > 0,
        forall|j: int|
            0 <= j < k ==> base_name((#[trigger] entries[j]).directory) != base_name(
                entries[k].directory,
            ),
    ensures
        resolved(entries, Some(base_name(entries[k].directory))) == Ok::<int, Seq<char>>(k),
{
    let name = base_name(entries[k].directory);
    lemma_first_index(entries, in_directory_named(name));
    assert(in_directory_named(name)(entries[k]));
}

// ---------------------------------------------------------------------------
// The list
// ---------------------------------------------------------------------------
/// The list has two lines for each snapshot, the newest first: its number and its
/// identifier, and below them its time and its layout.
proof fn lemma_listing(entries: Seq<EntryModel>, m: nat, n: nat)
    requires
        1 <= n <= m <= entries.len(),
        listing(entries, m) is Ok,
    ensures
        listing(entries, m)->Ok_0.len() == 2 * m,
        entries[entries.len() - n].snapshot matches Ok(snapshot) && listing(entries, m)->Ok_0[2 * n
            - 2] == two_digits(n) + "  "@ + snapshot.id && listing(entries, m)->Ok_0[2 * n - 1]
            == "    "@ + shown_time(snapshot.saved_at) + "  |  "@ + layout_of(snapshot),
    decreases m,
{
    let before = listing(entries, (m - 1) as nat)->Ok_0;
    let last = entries[entries.len() - m].snapshot->Ok_0;
    let all = listing(entries, m)->Ok_0;
    assert(all == before + listing_lines(m, last));
    if m == 1 {
        assert(listing(entries, 0) == Ok::<Seq<Seq<char>>, Seq<char>>(Seq::empty()));
        assert(before.len() == 0);
    } else {
        lemma_listing(entries, (m - 1) as nat, (m - 1) as nat);
        if n < m {
            lemma_listing(entries, (m - 1) as nat, n);
            assert(all[2 * n - 2] == before[2 * n - 2]);
            assert(all[2 * n - 1] == before[2 * n - 1]);
        }
    }
    if n == m {
        assert(all[2 * n - 2] == listing_lines(m, last)[0]);
        assert(all[2 * n - 1] == listing_lines(m, last)[1]);
    }
}

/// The list tells every snapshot, the newest first: its number and its identifier,
/// and below them its time and its layout. It ends with where they stand.
pub proof fn lists_tell_every_snapshot(
    entries: Seq<EntryModel>,
    location: Seq<char>,
    lines: Seq<Seq<char>>,
    n: nat,
)
    requires
        1 <= n <= entries.len(),
        list_report(entries, None, location) is Ok,
        list_report(entries, None, location)->Ok_0.lines == lines,
    ensures
        list_report(entries, None, location)->Ok_0.title == "SAVED WORKSPACES"@,
        lines.len() == 2 * entries.len() + 2,
        entries[entries.len() - n].snapshot matches Ok(snapshot) && lines[2 * n - 2] == two_digits(n)
            + "  "@ + snapshot.id && lines[2 * n - 1] == "    "@ + shown_time(snapshot.saved_at)
            + "  |  "@ + layout_of(snapshot),
        lines[2int * entries.len()].len() == 0,
        lines.last() == label_line("LOCATION"@, location),
{
    lemma_listing(entries, entries.len(), n);
    let inner = listing(entries, entries.len())->Ok_0;
    assert(lines[2 * n - 2] == inner[2 * n - 2]);
    assert(lines[2 * n - 1] == inner[2 * n - 1]);
}

/// The details are told of the snapshot that a number counts from the newest; a number
/// beyond the last is refused, with the numbers that there are; and where nothing was
/// saved, that is told.
pub proof fn numbers_count_from_the_newest(
    entries: Seq<EntryModel>,
    n: usize,
    location: Seq<char>,
)
    requires
        n >= 1,
    ensures
        entries.len() == 0 ==> list_report(entries, Some(n), location) == Ok::<
            ReportModel,
            Seq<char>,
        >(
            ReportModel {
                title: "SAVED WORKSPACES"@,
                lines: seq!["No snapshots found."@, label_line("LOCATION"@, location)],
            },
        ),
        entries.len() == 0 ==> list_report(entries, None, location) == list_report(
            entries,
            Some(n),
            location,
        ),
        0 < entries.len() < n ==> list_report(entries, Some(n), location) == Err::<
            ReportModel,
            Seq<char>,
        >(
            "snapshot number "@ + decimal(n as nat) + " is out of range; choose 1-"@ + decimal(
                entries.len(),
            ) + " from rz --list"@,
        ),
        n <= entries.len() ==> match entries[entries.len() - n].snapshot {
            Err(e) => list_report(entries, Some(n), location) == Err::<ReportModel, Seq<char>>(e),
            Ok(snapshot) => match snapshot_fault(snapshot) {
                Some(e) => list_report(entries, Some(n), location) == Err::<ReportModel, Seq<char>>(
                    e,
                ),
                None => list_report(entries, Some(n), location) is Ok && list_report(
                    entries,
                    Some(n),
                    location,
                )->Ok_0.title == "WORKSPACE DETAILS"@ && list_report(
                    entries,
                    Some(n),
                    location,
                )->Ok_0.lines == details_of(n, snapshot, entries[entries.len() - n].directory),
            },
        },
{
}

/// A snapshot that cannot be read is told in place of the list.
pub proof fn unreadable_snapshots_stop_the_list(
    entries: Seq<EntryModel>,
    location: Seq<char>,
    n: nat,
)
    requires
        1 <= n <= entries.len(),
        entries[entries.len() - n].snapshot is Err,
    ensures
        list_report(entries, None, location) is Err,
{
    if list_report(entries, None, location) is Ok {
        lemma_listing(entries, entries.len(), n);
    }
}

// ---------------------------------------------------------------------------
// Places
// ---------------------------------------------------------------------------
/// Everything is kept where the user says, else below the home directory.
pub proof fn states_are_kept_where_they_are_asked(home: Seq<char>, directory: Seq<char>)
    ensures
        state_root(home, Some(directory)) == directory,
        state_root(home, None) == below(home, ".local/state/ghostty-rz"@),
{
}

/// The script that captures the terminals is taken from where the user says, else from
/// where the program is installed, else from the source tree.
pub proof fn scripts_are_taken_in_order(
    directory: Seq<char>,
    path: Seq<char>,
    installed: Option<Seq<char>>,
    source_root: Seq<char>,
)
    ensures
        script_path(Some(directory), installed, source_root) == below(
            directory,
            "snapshot-capture.applescript"@,
        ),
        script_path(None, Some(path), source_root) == path,
        script_path(None, None, source_root) == below(
            source_root,
            "libexec/snapshot-capture.applescript"@,
        ),
{
}

/// The file that terminals wait for stands among the temporary files, and names the
/// process and the random text.
pub proof fn ready_files_are_named(pid: u32, random: Seq<char>)
    ensures
        ready_file_of(pid, random) == "/tmp/ghostty-rz-"@ + decimal(pid as nat) + "-"@ + random
            + ".ready"@,
{
}

/// Two random texts of one process give two files.
pub proof fn ready_files_differ(pid: u32, a: Seq<char>, b: Seq<char>)
    requires
        a != b,
    ensures
        ready_file_of(pid, a) != ready_file_of(pid, b),
{
    let front = "/tmp/ghostty-rz-"@ + decimal(pid as nat) + "-"@;
    let end = ".ready"@;
    if ready_file_of(pid, a) == ready_file_of(pid, b) {
        let whole = ready_file_of(pid, a);
        assert(whole == front + a + end);
        assert(a =~= whole.subrange(front.len() as int, whole.len() - end.len()));
        assert(b =~= whole.subrange(front.len() as int, whole.len() - end.len()));
    }
}

/// Earlier snapshots are told with the one changed last first: `d` where every other
/// was changed before it, or at a time that is not known.
pub proof fn the_snapshot_changed_last_comes_first(s: Seq<DatedModel>, d: DatedModel)
    requires
        s.contains(d),
        d.modified is Some,
        forall|i: int|
            0 <= i < s.len() && #[trigger] s[i] != d ==> (s[i].modified matches Some(n) ==> n
                < d.modified->0),
    ensures
        latest_first(s).len() == s.len(),
        latest_first(s)[0] == d.snapshot,
{
    let before = by_change();
    lemma_sorted_by_items(s, before);
    assert(orders(before));
    sorting_orders(s, before);
    let sorted = sorted_by(s, before);
    assert(sorted.contains(d));
    let q = choose|q: int| 0 <= q < sorted.len() && sorted[q] == d;
    let last = sorted.len() - 1;
    assert(sorted.contains(sorted[last]));
    assert(s.contains(sorted[last]));
    if q < last {
        assert(!before(sorted[last], sorted[q]));
    }
}

/// Of two earlier snapshots the one changed later stands in front, and one whose time
/// is not known stands behind every one whose time is known; nothing is lost.
pub proof fn snapshots_are_told_latest_first(s: Seq<DatedModel>)
    ensures
        exists|t: Seq<DatedModel>| #[trigger]
            is_latest_first(t) && t.to_multiset() == s.to_multiset() && latest_first(s)
                == t.map_values(|d: DatedModel| d.snapshot),
{
    let before = by_change();
    assert(orders(before));
    sorting_orders(s, before);
    let sorted = sorted_by(s, before);
    let t = sorted.reverse();
    sorted.lemma_reverse_to_multiset();
    assert forall|i: int, j: int| 0 <= i < j < t.len() implies !changed_later(
        #[trigger] t[j],
        #[trigger] t[i],
    ) by {
        assert(t[i] == sorted[sorted.len() - 1 - i]);
        assert(t[j] == sorted[sorted.len() - 1 - j]);
        assert(!before(sorted[sorted.len() - 1 - i], sorted[sorted.len() - 1 - j]));
    }
    assert(is_latest_first(t));
}

/// Whether `a` was changed after `b`, or only the time of `a` is known.
pub open spec fn changed_later(a: DatedModel, b: DatedModel) -> bool {
    a.modified is Some && (b.modified is None || b.modified->0 < a.modified->0)
}

/// Whether no snapshot stands behind one that was changed before it.
pub open spec fn is_latest_first(t: Seq<DatedModel>) -> bool {
    forall|i: int, j: int| 0 <= i < j < t.len() ==> !changed_later(#[trigger] t[j], #[trigger] t[i])
}

} // verus!
