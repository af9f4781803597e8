//! The snapshots that are saved: their order, and which one is meant.
use vstd::prelude::*;
use vstd::string::*;

use crate::clock::{
    Moment, display_time, earlier, is_earlier, moment_of, read_moment, shown_time,
};
use crate::error::{Error, debug_text, quoted};
use crate::list::{
    first_index, first_place, in_order, last_index, last_place, lemma_first_index, lemma_last_index,
    lemma_same_items, lemma_select, lemma_select_at, lemma_select_both, lemma_select_prefix,
    lemma_sorted_by_items, lemma_sorted_by_map, orders, others, select, sort_by, sorted_by,
    sorting_leaves_order, sorting_orders,
};
use crate::model::{Snapshot, SnapshotModel};
use crate::number::{decimal, decimal_text, two_digit_text, two_digits};
use crate::path::{base_name, file_name};
use crate::report::{details_of, layout_of, layout_summary, snapshot_details, snapshot_fault};
use crate::text::{
    begins, comes_before, optional_text, push_text, same, starts_with, text_before, texts,
};
use crate::ui::{label_line, labeled};

verus! {

/// A directory that holds a snapshot, and what reading the snapshot gave.
pub struct Entry {
    pub directory: String,
    pub snapshot: Result<Snapshot, Error>,
}

/// The view of an `Entry`.
pub struct EntryModel {
    pub directory: Seq<char>,
    pub snapshot: Result<SnapshotModel, Seq<char>>,
}

impl View for Entry {
    type V = EntryModel;

    open spec fn view(&self) -> EntryModel {
        EntryModel {
            directory: self.directory@,
            snapshot: match self.snapshot {
                Ok(snapshot) => Ok(snapshot@),
                Err(e) => Err(e@),
            },
        }
    }
}

/// The entries that a list holds.
pub open spec fn entry_views(v: Seq<Entry>) -> Seq<EntryModel> {
    v.map_values(|e: Entry| e@)
}

/// A report: a title and lines.
pub struct Report {
    pub title: String,
    pub lines: Vec<String>,
}

/// The view of a `Report`.
pub struct ReportModel {
    pub title: Seq<char>,
    pub lines: Seq<Seq<char>>,
}

impl View for Report {
    type V = ReportModel;

    open spec fn view(&self) -> ReportModel {
        ReportModel { title: self.title@, lines: texts(self.lines@) }
    }
}

// ---------------------------------------------------------------------------
// Names
// ---------------------------------------------------------------------------
/// Whether a file of this name can be a snapshot: hidden files are none.
pub open spec fn listed(name: Seq<char>) -> bool {
    !starts_with(name, "."@)
}

/// Whether a file of this name can be a snapshot.
pub fn is_listed(name: &str) -> (r: bool)
    ensures
        r == listed(name@),
{
    !begins(name, ".")
}

// ---------------------------------------------------------------------------
// Order
// ---------------------------------------------------------------------------
/// When the snapshot of an entry was saved, where that can be read.
pub open spec fn entry_moment(entry: EntryModel) -> Option<Moment> {
    match entry.snapshot {
        Ok(snapshot) => match read_moment(snapshot.saved_at) {
            Ok(moment) => Some(moment),
            Err(_) => None,
        },
        Err(_) => None,
    }
}

/// The time of an entry as text, and its identifier; no time and the name of its
/// directory, where the snapshot cannot be read.
pub open spec fn entry_key(entry: EntryModel) -> (Seq<char>, Seq<char>) {
    match entry.snapshot {
        Ok(snapshot) => (snapshot.saved_at, snapshot.id),
        Err(_) => (Seq::empty(), base_name(entry.directory)),
    }
}

/// Whether one pair of texts comes before another: by the first texts, else by the
/// second ones.
pub open spec fn pair_before(a: (Seq<char>, Seq<char>), b: (Seq<char>, Seq<char>)) -> bool {
    text_before(a.0, b.0) || (a.0 == b.0 && text_before(a.1, b.1))
}

/// An entry with the time at which it was saved, where that can be read.
pub struct TimedEntry {
    pub entry: Entry,
    pub moment: Option<Moment>,
}

/// The view of a `TimedEntry`.
pub struct TimedModel {
    pub entry: EntryModel,
    pub moment: Option<Moment>,
}

impl View for TimedEntry {
    type V = TimedModel;

    open spec fn view(&self) -> TimedModel {
        TimedModel { entry: self.entry@, moment: self.moment }
    }
}

/// The entries with their times that a list holds.
pub open spec fn timed_views(v: Seq<TimedEntry>) -> Seq<TimedModel> {
    v.map_values(|t: TimedEntry| t@)
}

/// The entries without their times.
pub open spec fn untimed(s: Seq<TimedModel>) -> Seq<EntryModel> {
    s.map_values(|t: TimedModel| t.entry)
}

/// Orders entries by the texts of their times, then by their identifiers.
pub open spec fn by_text() -> spec_fn(TimedModel, TimedModel) -> bool {
    |a: TimedModel, b: TimedModel| pair_before(entry_key(a.entry), entry_key(b.entry))
}

/// Orders entries by their times.
pub open spec fn by_moment() -> spec_fn(TimedModel, TimedModel) -> bool {
    |a: TimedModel, b: TimedModel|
        match (a.moment, b.moment) {
            (Some(x), Some(y)) => earlier(x, y),
            (None, Some(_)) => true,
            _ => false,
        }
}

/// Accepts the entries whose time can be read.
pub open spec fn has_time() -> spec_fn(TimedModel) -> bool {
    |t: TimedModel| t.moment is Some
}

/// `s` with the entries of `dated`, one after the other, in the places of those
/// whose time can be read.
pub open spec fn dealt(s: Seq<TimedModel>, dated: Seq<TimedModel>) -> Seq<TimedModel>
    decreases s.len(),
{
    if s.len() == 0 {
        Seq::empty()
    } else {
        let front = s.drop_last();
        dealt(front, dated).push(
            if has_time()(s.last()) {
                dated[select(front, has_time()).len() as int]
            } else {
                s.last()
            },
        )
    }
}

/// The entries in the order in which they were saved. The texts of their times and
/// their identifiers order them; but those whose time can be read stand in the order
/// of the times, whatever offsets these are written with, in the places that such
/// entries have.
pub open spec fn time_order(s: Seq<TimedModel>) -> Seq<TimedModel> {
    let ordered = sorted_by(s, by_text());
    dealt(ordered, sorted_by(select(ordered, has_time()), by_moment()))
}

/// Each entry with the time at which it was saved.
pub open spec fn timed(entries: Seq<EntryModel>) -> Seq<TimedModel> {
    entries.map_values(|e: EntryModel| TimedModel { entry: e, moment: entry_moment(e) })
}

/// The entries in the order in which they were saved, the oldest first.
pub open spec fn saved_order(entries: Seq<EntryModel>) -> Seq<EntryModel> {
    untimed(time_order(timed(entries)))
}

/// Of two different texts one comes before the other, and not both.
pub proof fn text_order_is_total(a: Seq<char>, b: Seq<char>)
    ensures
        a == b ==> !text_before(a, b),
        a != b ==> (text_before(a, b) <==> !text_before(b, a)),
    decreases a.len(),
{
    if a.len() > 0 && b.len() > 0 {
        if a.first() == b.first() {
            text_order_is_total(a.drop_first(), b.drop_first());
            if a.drop_first() == b.drop_first() {
                assert(a =~= seq![a.first()] + a.drop_first());
                assert(b =~= seq![b.first()] + b.drop_first());
            }
        }
    } else if a.len() == 0 && b.len() == 0 {
        assert(a =~= b);
    }
}

/// A text that comes before another comes before all that the other comes before.
pub proof fn text_order_is_transitive(a: Seq<char>, b: Seq<char>, c: Seq<char>)
    requires
        text_before(a, b),
        text_before(b, c),
    ensures
        text_before(a, c),
    decreases a.len(),
{
    if a.len() > 0 {
        if a.first() == b.first() && b.first() == c.first() {
            text_order_is_transitive(a.drop_first(), b.drop_first(), c.drop_first());
        }
    }
}

/// What does not come before a text that does not come before a third does not come
/// before the third.
proof fn lemma_text_order(a: Seq<char>, b: Seq<char>, c: Seq<char>)
    requires
        !text_before(a, b),
        !text_before(b, c),
    ensures
        !text_before(a, c),
{
    text_order_is_total(a, b);
    text_order_is_total(b, c);
    text_order_is_total(a, c);
    if text_before(a, c) {
        if a != b && b != c {
            text_order_is_transitive(c, b, a);
        }
    }
}

proof fn lemma_pair_order(
    a: (Seq<char>, Seq<char>),
    b: (Seq<char>, Seq<char>),
    c: (Seq<char>, Seq<char>),
)
    ensures
        pair_before(a, b) ==> !pair_before(b, a),
        !pair_before(a, b) && !pair_before(b, c) ==> !pair_before(a, c),
{
    text_order_is_total(a.0, b.0);
    text_order_is_total(a.1, b.1);
    text_order_is_total(b.0, c.0);
    text_order_is_total(a.0, c.0);
    if !pair_before(a, b) && !pair_before(b, c) {
        lemma_text_order(a.0, b.0, c.0);
        if a.0 == c.0 {
            if a.0 == b.0 {
                lemma_text_order(a.1, b.1, c.1);
            }
        }
    }
}

proof fn lemma_moments_order()
    ensures
        orders(by_moment()),
{
}

/// Dealing leaves every entry without a time, and puts the given ones in the places
/// of the others.
proof fn lemma_dealt(s: Seq<TimedModel>, dated: Seq<TimedModel>)
    requires
        select(s, has_time()).len() <= dated.len(),
        forall|i: int| 0 <= i < dated.len() ==> has_time()(#[trigger] dated[i]),
    ensures
        dealt(s, dated).len() == s.len(),
        select(dealt(s, dated), has_time()) == dated.take(select(s, has_time()).len() as int),
        select(dealt(s, dated), others(has_time())) == select(s, others(has_time())),
        forall|i: int|
            0 <= i < s.len() ==> has_time()(#[trigger] dealt(s, dated)[i]) == has_time()(s[i]),
        forall|i: int|
            0 <= i < s.len() && !has_time()(#[trigger] s[i]) ==> dealt(s, dated)[i] == s[i],
    decreases s.len(),
{
    let r = dealt(s, dated);
    if s.len() > 0 {
        let front = s.drop_last();
        lemma_dealt(front, dated);
        let n = select(front, has_time()).len() as int;
        assert(r.drop_last() =~= dealt(front, dated));
        if has_time()(s.last()) {
            assert(dated.take(n + 1) =~= dated.take(n).push(dated[n]));
        }
    } else {
        assert(dated.take(0) =~= Seq::empty());
        assert(select(r, has_time()) =~= Seq::empty());
        assert(select(r, others(has_time())) =~= Seq::empty());
    }
}

/// The order in which entries were saved loses and adds none.
pub proof fn time_order_keeps_entries(s: Seq<TimedModel>)
    ensures
        time_order(s).len() == s.len(),
        time_order(s).to_multiset() == s.to_multiset(),
        select(time_order(s), has_time()) == sorted_by(
            select(sorted_by(s, by_text()), has_time()),
            by_moment(),
        ),
{
    let ordered = sorted_by(s, by_text());
    let some = select(ordered, has_time());
    let dated = sorted_by(some, by_moment());
    lemma_sorted_by_items(s, by_text());
    lemma_sorted_by_items(some, by_moment());
    lemma_select(ordered, has_time());
    assert forall|i: int| 0 <= i < dated.len() implies has_time()(#[trigger] dated[i]) by {
        assert(dated.contains(dated[i]));
        assert(some.contains(dated[i]));
        let k = choose|k: int| 0 <= k < some.len() && some[k] == dated[i];
        assert(has_time()(some[k]));
    }
    lemma_dealt(ordered, dated);
    assert(dated.take(dated.len() as int) == dated);
    lemma_select_both(ordered, has_time());
    lemma_select_both(time_order(s), has_time());
}

/// The saved snapshots are those that are there, and those whose time can be read
/// stand in the order of the times.
pub proof fn saved_time_orders(entries: Seq<EntryModel>)
    ensures
        saved_order(entries).len() == entries.len(),
        forall|e: EntryModel| #[trigger] saved_order(entries).contains(e) <==> entries.contains(e),
        forall|i: int, j: int|
            0 <= i < j < entries.len() ==> no_earlier(
                #[trigger] saved_order(entries)[j],
                #[trigger] saved_order(entries)[i],
            ),
{
    let s = timed(entries);
    let all = time_order(s);
    let r = saved_order(entries);
    time_order_keeps_entries(s);
    lemma_same_items(all, s);
    assert forall|i: int| 0 <= i < all.len() implies (#[trigger] all[i]).moment == entry_moment(
        all[i].entry,
    ) && entries.contains(all[i].entry) by {
        assert(all.contains(all[i]));
        assert(s.contains(all[i]));
        let k = choose|k: int| 0 <= k < s.len() && s[k] == all[i];
        assert(entries[k] == all[i].entry);
    }
    assert forall|e: EntryModel| #[trigger] r.contains(e) <==> entries.contains(e) by {
        if r.contains(e) {
            let i = choose|i: int| 0 <= i < r.len() && r[i] == e;
            assert(entries.contains(all[i].entry));
        }
        if entries.contains(e) {
            let k = choose|k: int| 0 <= k < entries.len() && entries[k] == e;
            assert(s.contains(s[k]));
            assert(all.contains(s[k]));
            let i = choose|i: int| 0 <= i < all.len() && all[i] == s[k];
            assert(r[i] == e);
        }
    }
    let some = select(sorted_by(s, by_text()), has_time());
    lemma_moments_order();
    sorting_orders(some, by_moment());
    assert forall|i: int, j: int| 0 <= i < j < r.len() implies no_earlier(
        #[trigger] r[j],
        #[trigger] r[i],
    ) by {
        if has_time()(all[i]) && has_time()(all[j]) {
            lemma_select_at(all, has_time(), i);
            lemma_select_at(all, has_time(), j);
            let p = select(all.take(i), has_time()).len() as int;
            let q = select(all.take(j), has_time()).len() as int;
            lemma_select_prefix(all.take(j), has_time(), i + 1);
            assert(all.take(j).take(i + 1) =~= all.take(i + 1));
            assert(all.take(i + 1).drop_last() =~= all.take(i));
            assert(p < q);
            assert(!by_moment()(select(all, has_time())[q], select(all, has_time())[p]));
        }
    }
}

/// An entry whose time cannot be read stands where its text puts it among all the
/// entries.
pub proof fn entries_without_a_time_stand_by_text(s: Seq<TimedModel>, i: int)
    requires
        0 <= i < s.len(),
        !has_time()(sorted_by(s, by_text())[i]),
    ensures
        time_order(s)[i] == sorted_by(s, by_text())[i],
{
    let ordered = sorted_by(s, by_text());
    let some = select(ordered, has_time());
    let dated = sorted_by(some, by_moment());
    lemma_sorted_by_items(s, by_text());
    lemma_sorted_by_items(some, by_moment());
    lemma_select(ordered, has_time());
    assert forall|k: int| 0 <= k < dated.len() implies has_time()(#[trigger] dated[k]) by {
        assert(dated.contains(dated[k]));
        assert(some.contains(dated[k]));
        let q = choose|q: int| 0 <= q < some.len() && some[q] == dated[k];
        assert(has_time()(some[q]));
    }
    lemma_dealt(ordered, dated);
}

/// Dealing entries to their own places changes nothing.
proof fn lemma_dealt_self(s: Seq<TimedModel>, n: int)
    requires
        0 <= n <= s.len(),
    ensures
        dealt(s.take(n), select(s, has_time())) == s.take(n),
    decreases n,
{
    if n > 0 {
        lemma_dealt_self(s, n - 1);
        assert(s.take(n).drop_last() =~= s.take(n - 1));
        if has_time()(s[n - 1]) {
            lemma_select_at(s, has_time(), n - 1);
        }
        assert(dealt(s.take(n), select(s, has_time())) =~= s.take(n));
    } else {
        assert(dealt(s.take(n), select(s, has_time())) =~= s.take(n));
    }
}

/// Where the texts of the times put the entries in the order of the times, as they do
/// where all times have the same offset, the texts and the identifiers give the order.
pub proof fn order_is_by_text_where_times_agree(s: Seq<TimedModel>)
    requires
        in_order(select(sorted_by(s, by_text()), has_time()), by_moment()),
    ensures
        time_order(s) == sorted_by(s, by_text()),
{
    let ordered = sorted_by(s, by_text());
    sorting_leaves_order(select(ordered, has_time()), by_moment());
    lemma_dealt_self(ordered, ordered.len() as int);
    assert(ordered.take(ordered.len() as int) == ordered);
}

/// The texts and the identifiers order the entries.
pub proof fn texts_order(s: Seq<TimedModel>)
    ensures
        orders(by_text()),
        in_order(sorted_by(s, by_text()), by_text()),
{
    let before = by_text();
    assert forall|a: TimedModel, b: TimedModel| #[trigger] before(a, b) implies !before(b, a) by {
        lemma_pair_order(entry_key(a.entry), entry_key(b.entry), entry_key(a.entry));
    }
    assert forall|a: TimedModel, b: TimedModel, c: TimedModel|
        #![trigger before(a, b), before(b, c)]
        !before(a, b) && !before(b, c) implies !before(a, c) by {
        lemma_pair_order(entry_key(a.entry), entry_key(b.entry), entry_key(c.entry));
    }
    sorting_orders(s, before);
}

/// Whether entry `a` comes before entry `b` by the texts.
fn text_comes_before(a: &TimedEntry, b: &TimedEntry) -> (r: bool)
    ensures
        r == by_text()(a@, b@),
{
    let (x_time, x_name) = entry_sort_key(&a.entry);
    let (y_time, y_name) = entry_sort_key(&b.entry);
    comes_before(x_time.as_str(), y_time.as_str()) || (same(x_time.as_str(), y_time.as_str())
        && comes_before(x_name.as_str(), y_name.as_str()))
}

/// Whether entry `a` comes before entry `b` by the times.
fn moment_comes_before(a: &TimedEntry, b: &TimedEntry) -> (r: bool)
    ensures
        r == by_moment()(a@, b@),
{
    match (a.moment, b.moment) {
        (Some(x), Some(y)) => is_earlier(x, y),
        (None, Some(_)) => true,
        _ => false,
    }
}

/// The entries in the order that the texts give.
fn sort_by_text(s: Vec<TimedEntry>) -> (r: Vec<TimedEntry>)
    ensures
        timed_views(r@) == sorted_by(timed_views(s@), by_text()),
{
    let ghost fine = |a: TimedEntry, b: TimedEntry| by_text()(a@, b@);
    let ghost f = |t: TimedEntry| t@;
    let is_before = |a: &TimedEntry, b: &TimedEntry| -> (r: bool)
        ensures
            r == by_text()(a@, b@),
    { text_comes_before(a, b) };
    let r = sort_by(s, is_before, Ghost(fine));
    proof {
        lemma_sorted_by_map(s@, f, fine, by_text());
    }
    r
}

/// The entries in the order that the times give.
fn sort_by_moment(s: Vec<TimedEntry>) -> (r: Vec<TimedEntry>)
    ensures
        timed_views(r@) == sorted_by(timed_views(s@), by_moment()),
{
    let ghost fine = |a: TimedEntry, b: TimedEntry| by_moment()(a@, b@);
    let ghost f = |t: TimedEntry| t@;
    let is_before = |a: &TimedEntry, b: &TimedEntry| -> (r: bool)
        ensures
            r == by_moment()(a@, b@),
    { moment_comes_before(a, b) };
    let r = sort_by(s, is_before, Ghost(fine));
    proof {
        lemma_sorted_by_map(s@, f, fine, by_moment());
    }
    r
}

/// The entries of which it was found when they were saved, in the order in which
/// that was, the oldest first.
pub fn in_time_order(entries: Vec<TimedEntry>) -> (r: Vec<Entry>)
    ensures
        entry_views(r@) == untimed(time_order(timed_views(entries@))),
{
    let mut rest = sort_by_text(entries);
    let ghost ordered = timed_views(rest@);
    let ghost all = rest@;
    let mut flags: Vec<bool> = Vec::new();
    let mut dated: Vec<TimedEntry> = Vec::new();
    let mut undated: Vec<TimedEntry> = Vec::new();
    let ghost mut n: int = 0;
    proof {
        assert(timed_views(dated@) =~= select(ordered.take(0), has_time()));
        assert(timed_views(undated@) =~= select(ordered.take(0), others(has_time())));
    }
    while rest.len() > 0
        invariant
            0 <= n <= all.len(),
            ordered == timed_views(all),
            rest@ == all.skip(n),
            flags@.len() == n,
            forall|k: int| 0 <= k < n ==> #[trigger] flags@[k] == has_time()(ordered[k]),
            timed_views(dated@) == select(ordered.take(n), has_time()),
            timed_views(undated@) == select(ordered.take(n), others(has_time())),
        decreases rest@.len(),
    {
        let ghost before_dated = dated@;
        let ghost before_undated = undated@;
        let next = rest.remove(0);
        proof {
            assert(next == all[n]);
            assert(ordered[n] == next@);
            assert(ordered.take(n + 1).drop_last() == ordered.take(n));
            assert(ordered.take(n + 1).last() == next@);
        }
        flags.push(next.moment.is_some());
        if next.moment.is_some() {
            dated.push(next);
            assert(timed_views(dated@) =~= timed_views(before_dated).push(next@));
        } else {
            undated.push(next);
            assert(timed_views(undated@) =~= timed_views(before_undated).push(next@));
        }
        proof {
            n = n + 1;
        }
    }
    assert(ordered.take(n) == ordered);
    let ghost some = select(ordered, has_time());
    let mut dated = sort_by_moment(dated);
    let ghost in_order_of_time = timed_views(dated@);
    let ghost dated_all = dated@;
    let ghost undated_all = undated@;
    proof {
        lemma_sorted_by_items(some, by_moment());
        lemma_select_both(ordered, has_time());
    }
    let mut r: Vec<Entry> = Vec::new();
    let mut i: usize = 0;
    let ghost mut p: int = 0;
    let ghost mut q: int = 0;
    assert(entry_views(r@) =~= untimed(dealt(ordered.take(0), in_order_of_time)));
    while i < flags.len()
        invariant
            flags@.len() == ordered.len(),
            forall|k: int|
                0 <= k < ordered.len() ==> #[trigger] flags@[k] == has_time()(ordered[k]),
            some == select(ordered, has_time()),
            in_order_of_time == timed_views(dated_all),
            in_order_of_time.len() == some.len(),
            timed_views(undated_all) == select(ordered, others(has_time())),
            i <= ordered.len(),
            p == select(ordered.take(i as int), has_time()).len(),
            q == select(ordered.take(i as int), others(has_time())).len(),
            0 <= p <= dated_all.len(),
            0 <= q <= undated_all.len(),
            dated@ == dated_all.skip(p),
            undated@ == undated_all.skip(q),
            entry_views(r@) == untimed(dealt(ordered.take(i as int), in_order_of_time)),
        decreases flags@.len() - i,
    {
        let ghost before = r@;
        let ghost dealt_before = dealt(ordered.take(i as int), in_order_of_time);
        let ghost here = ordered.take(i + 1);
        proof {
            assert(here.drop_last() == ordered.take(i as int));
            assert(here.last() == ordered[i as int]);
        }
        if flags[i] {
            proof {
                lemma_select_at(ordered, has_time(), i as int);
                assert(some.len() == dated_all.len());
            }
            let next = dated.remove(0);
            r.push(next.entry);
            proof {
                assert(next == dated_all[p]);
                assert(in_order_of_time[p] == next@);
                assert(untimed(dealt_before.push(next@)) =~= untimed(dealt_before).push(
                    next@.entry,
                ));
                p = p + 1;
            }
        } else {
            proof {
                lemma_select_at(ordered, others(has_time()), i as int);
                assert(timed_views(undated_all).len() == undated_all.len());
            }
            let next = undated.remove(0);
            r.push(next.entry);
            proof {
                assert(next == undated_all[q]);
                assert(timed_views(undated_all)[q] == next@);
                assert(ordered[i as int] == next@);
                assert(untimed(dealt_before.push(next@)) =~= untimed(dealt_before).push(
                    next@.entry,
                ));
                q = q + 1;
            }
        }
        assert(entry_views(r@) =~= entry_views(before).push(r@.last()@));
        i = i + 1;
    }
    assert(ordered.take(i as int) == ordered);
    r
}

/// When the snapshot of an entry was saved, where that can be read.
fn saved_moment(entry: &Entry) -> (r: Option<Moment>)
    ensures
        r == entry_moment(entry@),
{
    match &entry.snapshot {
        Ok(snapshot) => match moment_of(snapshot.saved_at.as_str()) {
            Ok(moment) => Some(moment),
            Err(_) => None,
        },
        Err(_) => None,
    }
}

/// The time of an entry as text, and its identifier.
fn entry_sort_key(entry: &Entry) -> (r: (String, String))
    ensures
        (r.0@, r.1@) == entry_key(entry@),
{
    match &entry.snapshot {
        Ok(snapshot) => (snapshot.saved_at.clone(), snapshot.id.clone()),
        Err(_) => {
            let none = String::new();
            assert(none@ =~= Seq::<char>::empty());
            (none, file_name(entry.directory.as_str()))
        },
    }
}

/// The saved snapshots in the order in which they were saved, the oldest first.
pub fn snapshot_directories(entries: Vec<Entry>) -> (r: Vec<Entry>)
    ensures
        entry_views(r@) == saved_order(entry_views(entries@)),
{
    let ghost all = entries@;
    let ghost model = timed(entry_views(all));
    let mut rest = entries;
    let mut found: Vec<TimedEntry> = Vec::new();
    let ghost mut n: int = 0;
    assert(timed_views(found@) =~= model.take(0));
    while rest.len() > 0
        invariant
            0 <= n <= all.len(),
            model == timed(entry_views(all)),
            rest@ == all.skip(n),
            timed_views(found@) == model.take(n),
        decreases rest@.len(),
    {
        let ghost before = found@;
        let entry = rest.remove(0);
        let moment = saved_moment(&entry);
        assert(entry == all[n]);
        found.push(TimedEntry { entry, moment });
        proof {
            assert(timed_views(found@) =~= timed_views(before).push(model[n]));
            assert(model.take(n + 1) =~= model.take(n).push(model[n]));
            n = n + 1;
        }
    }
    assert(model.take(n) == model);
    in_time_order(found)
}

// ---------------------------------------------------------------------------
// Which one is meant
// ---------------------------------------------------------------------------
/// Accepts the entry whose directory has the name `selector`.
pub open spec fn in_directory_named(selector: Seq<char>) -> spec_fn(EntryModel) -> bool {
    |e: EntryModel| selector.len() > 0 && base_name(e.directory) == selector
}

/// Accepts the entries whose snapshot was saved under the name or at the time
/// `selector`.
pub open spec fn saved_as(selector: Seq<char>) -> spec_fn(EntryModel) -> bool {
    |e: EntryModel|
        match e.snapshot {
            Ok(snapshot) => snapshot.name == selector || snapshot.timestamp == selector,
            Err(_) => false,
        }
}

/// Which of the saved snapshots, the oldest first, is meant: without a selector
/// the newest; else the one whose directory has that name, or else the newest with
/// that name or time.
pub open spec fn resolved(entries: Seq<EntryModel>, selector: Option<Seq<char>>) -> Result<
    int,
    Seq<char>,
> {
    if entries.len() == 0 {
        Err("no saved sessions; create one with rz --save NAME"@)
    } else {
        match selector {
            None => Ok(entries.len() - 1),
            Some(text) => match first_index(entries, in_directory_named(text)) {
                Some(i) => Ok(i),
                None => match last_index(entries, saved_as(text)) {
                    Some(i) => Ok(i),
                    None => Err(
                        "no saved session matches "@ + debug_text(text) + "; run rz --list"@,
                    ),
                },
            },
        }
    }
}

/// Whether the directory of an entry has the name `selector`. A path that ends in
/// no name has none.
fn has_directory_name(entry: &Entry, selector: &str) -> (r: bool)
    ensures
        r == in_directory_named(selector@)(entry@),
{
    !selector.is_empty() && same(file_name(entry.directory.as_str()).as_str(), selector)
}

/// Whether the snapshot of an entry was saved under the name or at the time
/// `selector`.
fn was_saved_as(entry: &Entry, selector: &str) -> (r: bool)
    ensures
        r == saved_as(selector@)(entry@),
{
    match &entry.snapshot {
        Ok(snapshot) => same(snapshot.name.as_str(), selector) || same(
            snapshot.timestamp.as_str(),
            selector,
        ),
        Err(_) => false,
    }
}

/// Which of the saved snapshots, the oldest first, is meant.
pub fn resolve_snapshot(entries: &Vec<Entry>, selector: Option<&str>) -> (r: Result<usize, Error>)
    ensures
        match r {
            Ok(i) => i < entries@.len() && resolved(
                entry_views(entries@),
                match selector {
                    Some(text) => Some(text@),
                    None => None,
                },
            ) == Ok::<int, Seq<char>>(i as int),
            Err(e) => resolved(
                entry_views(entries@),
                match selector {
                    Some(text) => Some(text@),
                    None => None,
                },
            ) == Err::<int, Seq<char>>(e@),
        },
{
    let ghost model = entry_views(entries@);
    if entries.len() == 0 {
        return Err(Error::from_text("no saved sessions; create one with rz --save NAME"));
    }
    let text = match selector {
        Some(text) => text,
        None => return Ok(entries.len() - 1),
    };
    let named = |k: usize| -> (b: bool)
        requires
            k < entries@.len(),
        ensures
            b == in_directory_named(text@)(entries@[k as int]@),
    { has_directory_name(&entries[k], text) };
    if let Some(i) = first_place::<EntryModel, _>(
        entries.len(),
        named,
        Ghost(model),
        Ghost(in_directory_named(text@)),
    ) {
        return Ok(i);
    }
    let fits = |k: usize| -> (b: bool)
        requires
            k < entries@.len(),
        ensures
            b == saved_as(text@)(entries@[k as int]@),
    { was_saved_as(&entries[k], text) };
    match last_place::<EntryModel, _>(
        entries.len(),
        fits,
        Ghost(model),
        Ghost(saved_as(text@)),
    ) {
        Some(i) => Ok(i),
        None => {
            let mut message = "no saved session matches ".to_owned();
            message.append(quoted(text).as_str());
            message.append("; run rz --list");
            Err(Error::new(message))
        },
    }
}

/// Whether entry `a` was saved no earlier than entry `b`, where both times can be
/// read.
pub open spec fn no_earlier(a: EntryModel, b: EntryModel) -> bool {
    match (entry_moment(a), entry_moment(b)) {
        (Some(x), Some(y)) => !earlier(x, y),
        _ => true,
    }
}

/// Of the saved snapshots, the last of some kind was saved no earlier than any of
/// that kind.
proof fn lemma_last_is_newest(
    entries: Seq<EntryModel>,
    wanted: spec_fn(EntryModel) -> bool,
    i: int,
)
    requires
        0 <= i < entries.len(),
        wanted(entries[i]),
    ensures
        last_index(saved_order(entries), wanted) matches Some(k) && 0 <= k < saved_order(
            entries,
        ).len() && wanted(saved_order(entries)[k]) && no_earlier(saved_order(entries)[k], entries[i]),
{
    let all = saved_order(entries);
    saved_time_orders(entries);
    assert(entries.contains(entries[i]));
    assert(all.contains(entries[i]));
    let q = choose|q: int| 0 <= q < all.len() && all[q] == entries[i];
    lemma_last_index(all, wanted);
    assert(wanted(all[q]));
    let k = last_index(all, wanted)->0;
    if q < k {
        assert(no_earlier(all[k], all[q]));
    } else if q > k {
        assert(!wanted(all[q]));
    }
}

/// Without a selector the newest snapshot is meant: where its time can be read, none
/// whose time can be read was saved later, whatever offsets the times are written
/// with.
pub proof fn newest_is_meant(entries: Seq<EntryModel>, i: int)
    requires
        0 <= i < entries.len(),
    ensures
        resolved(saved_order(entries), None) matches Ok(k) && 0 <= k < saved_order(entries).len()
            && no_earlier(saved_order(entries)[k], entries[i]),
{
    let all = saved_order(entries);
    let any = |e: EntryModel| true;
    lemma_last_is_newest(entries, any, i);
    assert(any(all.last()));
}

/// With the name of a snapshot, and no directory of that name, the newest snapshot
/// of that name or time is meant: where its time can be read, none of them whose time
/// can be read was saved later.
pub proof fn newest_of_a_name_is_meant(entries: Seq<EntryModel>, selector: Seq<char>, i: int)
    requires
        0 <= i < entries.len(),
        saved_as(selector)(entries[i]),
        forall|j: int|
            0 <= j < entries.len() ==> !in_directory_named(selector)(#[trigger] entries[j]),
    ensures
        resolved(saved_order(entries), Some(selector)) matches Ok(k) && 0 <= k < saved_order(
            entries,
        ).len() && saved_as(selector)(saved_order(entries)[k]) && no_earlier(saved_order(entries)[k], entries[i]),
{
    let all = saved_order(entries);
    saved_time_orders(entries);
    lemma_first_index(all, in_directory_named(selector));
    assert(first_index(all, in_directory_named(selector)) is None) by {
        match first_index(all, in_directory_named(selector)) {
            Some(k) => {
                assert(all.contains(all[k]));
                assert(entries.contains(all[k]));
                let j = choose|j: int| 0 <= j < entries.len() && entries[j] == all[k];
                assert(!in_directory_named(selector)(entries[j]));
            },
            None => {},
        }
    }
    lemma_last_is_newest(entries, saved_as(selector), i);
}

/// Accepts the entries whose snapshot has the name `name`.
pub open spec fn with_name(name: Seq<char>) -> spec_fn(EntryModel) -> bool {
    |e: EntryModel|
        match e.snapshot {
            Ok(snapshot) => snapshot.name == name,
            Err(_) => false,
        }
}

/// The identifier of the newest snapshot with a name.
pub open spec fn newest_id(entries: Seq<EntryModel>, name: Seq<char>) -> Option<Seq<char>> {
    match last_index(entries, with_name(name)) {
        Some(i) => match entries[i].snapshot {
            Ok(snapshot) => Some(snapshot.id),
            Err(_) => None,
        },
        None => None,
    }
}

/// The snapshot that is reported as the newest with a name has that name, and where
/// its time can be read, none with it whose time can be read was saved later.
pub proof fn newest_id_is_of_the_newest(entries: Seq<EntryModel>, name: Seq<char>, i: int)
    requires
        0 <= i < entries.len(),
        with_name(name)(entries[i]),
    ensures
        ({
            let all = saved_order(entries);
            last_index(all, with_name(name)) matches Some(k) && 0 <= k < all.len() && with_name(
                name,
            )(all[k]) && newest_id(all, name) == Some(all[k].snapshot->Ok_0.id) && no_earlier(
                all[k],
                entries[i],
            )
        }),
{
    lemma_last_is_newest(entries, with_name(name), i);
}

/// Whether the snapshot of an entry has the name `name`.
fn has_name(entry: &Entry, name: &str) -> (r: bool)
    ensures
        r == with_name(name@)(entry@),
{
    match &entry.snapshot {
        Ok(snapshot) => same(snapshot.name.as_str(), name),
        Err(_) => false,
    }
}

/// The identifier of the newest snapshot with a name.
pub fn newest_snapshot_id(entries: &Vec<Entry>, name: &str) -> (r: Option<String>)
    ensures
        optional_text(r) == newest_id(entry_views(entries@), name@),
{
    let ghost model = entry_views(entries@);
    let fits = |k: usize| -> (b: bool)
        requires
            k < entries@.len(),
        ensures
            b == with_name(name@)(entries@[k as int]@),
    { has_name(&entries[k], name) };
    match last_place::<EntryModel, _>(
        entries.len(),
        fits,
        Ghost(model),
        Ghost(with_name(name@)),
    ) {
        Some(i) => {
            assert(model[i as int] == entries@[i as int]@);
            match &entries[i].snapshot {
                Ok(snapshot) => Some(snapshot.id.clone()),
                Err(_) => None,
            }
        },
        None => None,
    }
}

// ---------------------------------------------------------------------------
// The list
// ---------------------------------------------------------------------------
/// The two lines about snapshot `number` of the list.
pub open spec fn listing_lines(number: nat, snapshot: SnapshotModel) -> Seq<Seq<char>> {
    seq![
        two_digits(number) + "  "@ + snapshot.id,
        "    "@ + shown_time(snapshot.saved_at) + "  |  "@ + layout_of(snapshot),
    ]
}

/// The lines about the newest `n` snapshots, the newest first; the first that
/// cannot be read is reported.
pub open spec fn listing(entries: Seq<EntryModel>, n: nat) -> Result<Seq<Seq<char>>, Seq<char>>
    decreases n,
{
    if n == 0 {
        Ok(Seq::empty())
    } else {
        match listing(entries, (n - 1) as nat) {
            Err(e) => Err(e),
            Ok(lines) => match entries[entries.len() - n].snapshot {
                Err(e) => Err(e),
                Ok(snapshot) => Ok(lines + listing_lines(n, snapshot)),
            },
        }
    }
}

/// What is said of a number that no snapshot has.
pub open spec fn range_fault(number: usize, count: nat) -> Seq<char> {
    "snapshot number "@ + decimal(number as nat) + " is out of range; choose 1-"@ + decimal(count)
        + " from rz --list"@
}

/// The list of the saved snapshots, which are given the oldest first; or the
/// details of the one with a number, which counts from the newest.
pub open spec fn list_report(
    entries: Seq<EntryModel>,
    number: Option<usize>,
    location: Seq<char>,
) -> Result<ReportModel, Seq<char>> {
    if entries.len() == 0 {
        Ok(
            ReportModel {
                title: "SAVED WORKSPACES"@,
                lines: seq!["No snapshots found."@, label_line("LOCATION"@, location)],
            },
        )
    } else {
        match number {
            Some(n) => if n > entries.len() {
                Err(range_fault(n, entries.len()))
            } else {
                let entry = entries[entries.len() - n];
                match entry.snapshot {
                    Err(e) => Err(e),
                    Ok(snapshot) => match snapshot_fault(snapshot) {
                        Some(e) => Err(e),
                        None => Ok(
                            ReportModel {
                                title: "WORKSPACE DETAILS"@,
                                lines: details_of(n, snapshot, entry.directory),
                            },
                        ),
                    },
                }
            },
            None => match listing(entries, entries.len()) {
                Err(e) => Err(e),
                Ok(lines) => Ok(
                    ReportModel {
                        title: "SAVED WORKSPACES"@,
                        lines: lines + seq![Seq::empty(), label_line("LOCATION"@, location)],
                    },
                ),
            },
        }
    }
}

/// A copy of a failure.
fn copy_error(e: &Error) -> (r: Error)
    ensures
        r@ == e@,
{
    Error::new(e.message.clone())
}

/// Adds the two lines about a snapshot of the list.
fn push_listing(lines: &mut Vec<String>, number: usize, snapshot: &Snapshot)
    ensures
        texts(final(lines)@) == texts(old(lines)@) + listing_lines(number as nat, snapshot@),
{
    let ghost before = texts(lines@);
    let mut first = two_digit_text(number as u64);
    first.append("  ");
    first.append(snapshot.id.as_str());
    push_text(lines, first);
    let mut second = "    ".to_owned();
    second.append(display_time(snapshot.saved_at.as_str()).as_str());
    second.append("  |  ");
    second.append(layout_summary(snapshot).as_str());
    push_text(lines, second);
    assert(texts(lines@) =~= before + listing_lines(number as nat, snapshot@));
}

/// A failure stays, whatever follows.
proof fn lemma_listing_fault(entries: Seq<EntryModel>, n: nat, m: nat)
    requires
        n <= m,
        listing(entries, n) is Err,
    ensures
        listing(entries, m) == listing(entries, n),
    decreases m,
{
    if n < m {
        lemma_listing_fault(entries, n, (m - 1) as nat);
    }
}

/// The list of the saved snapshots, or the details of one of them.
pub fn list(entries: &Vec<Entry>, number: Option<usize>, location: &str) -> (r: Result<
    Report,
    Error,
>)
    requires
        number is Some ==> number->0 >= 1,
    ensures
        match r {
            Ok(report) => list_report(entry_views(entries@), number, location@) == Ok::<
                ReportModel,
                Seq<char>,
            >(report@),
            Err(e) => list_report(entry_views(entries@), number, location@) == Err::<
                ReportModel,
                Seq<char>,
            >(e@),
        },
{
    let ghost model = entry_views(entries@);
    let count: usize = entries.len();
    let mut lines: Vec<String> = Vec::new();
    if count == 0 {
        push_text(&mut lines, "No snapshots found.".to_owned());
        push_text(&mut lines, labeled("LOCATION", location));
        assert(texts(lines@) =~= seq![
            "No snapshots found."@,
            label_line("LOCATION"@, location@),
        ]);
        return Ok(Report { title: "SAVED WORKSPACES".to_owned(), lines });
    }
    if let Some(n) = number {
        if n > count {
            let mut message = "snapshot number ".to_owned();
            message.append(decimal_text(n as u64).as_str());
            message.append(" is out of range; choose 1-");
            message.append(decimal_text(count as u64).as_str());
            message.append(" from rz --list");
            return Err(Error::new(message));
        }
        let entry = &entries[count - n];
        assert(model[count - n] == entry@);
        return match &entry.snapshot {
            Err(e) => Err(copy_error(e)),
            Ok(snapshot) => match snapshot_details(n, snapshot, entry.directory.as_str()) {
                Err(e) => Err(e),
                Ok(details) => Ok(
                    Report { title: "WORKSPACE DETAILS".to_owned(), lines: details },
                ),
            },
        };
    }
    let mut i: usize = 0;
    assert(texts(lines@) =~= Seq::<Seq<char>>::empty());
    while i < count
        invariant
            count == entries@.len(),
            model == entry_views(entries@),
            number is None,
            count > 0,
            i <= count,
            listing(model, i as nat) == Ok::<Seq<Seq<char>>, Seq<char>>(texts(lines@)),
        decreases count - i,
    {
        let entry = &entries[count - 1 - i];
        assert(model[model.len() - (i + 1)] == entry@);
        match &entry.snapshot {
            Err(e) => {
                proof {
                    lemma_listing_fault(model, (i + 1) as nat, count as nat);
                }
                return Err(copy_error(e));
            },
            Ok(snapshot) => {
                push_listing(&mut lines, i + 1, snapshot);
            },
        }
        i = i + 1;
    }
    let ghost body = texts(lines@);
    push_text(&mut lines, String::new());
    push_text(&mut lines, labeled("LOCATION", location));
    assert(texts(lines@) =~= body + seq![Seq::empty(), label_line("LOCATION"@, location@)]);
    Ok(Report { title: "SAVED WORKSPACES".to_owned(), lines })
}

/// The lines about snapshot `n` of the list stand at their place, and are about the
/// snapshot that has the number `n`.
proof fn lemma_listing_place(entries: Seq<EntryModel>, m: nat, n: nat)
    requires
        1 <= n <= m <= entries.len(),
        listing(entries, m) is Ok,
    ensures
        listing(entries, m)->Ok_0.len() == 2 * m,
        entries[entries.len() - n].snapshot is Ok,
        listing(entries, m)->Ok_0[2 * n - 2] == two_digits(n) + "  "@
            + entries[entries.len() - n].snapshot->Ok_0.id,
    decreases m,
{
    let before = listing(entries, (m - 1) as nat)->Ok_0;
    let snapshot = entries[entries.len() - m].snapshot->Ok_0;
    assert(listing(entries, m)->Ok_0 == before + listing_lines(m, snapshot));
    if m > 1 {
        if n < m {
            lemma_listing_place(entries, (m - 1) as nat, n);
        } else {
            lemma_listing_place(entries, (m - 1) as nat, 1);
        }
    }
    if n < m {
        assert((before + listing_lines(m, snapshot))[2 * n - 2] == before[2 * n - 2]);
    } else {
        assert((before + listing_lines(m, snapshot))[2 * n - 2] == listing_lines(m, snapshot)[0]);
    }
}

/// The snapshot that the list shows under a number is the one whose details are told
/// for that number.
pub proof fn numbers_of_the_list_agree(
    entries: Seq<EntryModel>,
    location: Seq<char>,
    n: usize,
)
    requires
        1 <= n <= entries.len(),
        list_report(entries, None, location) is Ok,
        list_report(entries, Some(n), location) is Ok,
    ensures
        ({
            let id = entries[entries.len() - n].snapshot->Ok_0.id;
            &&& list_report(entries, None, location)->Ok_0.lines[2 * n - 2] == two_digits(
                n as nat,
            ) + "  "@ + id
            &&& list_report(entries, Some(n), location)->Ok_0.lines[1] == label_line(
                "SNAPSHOT"@,
                id,
            )
        }),
{
    lemma_listing_place(entries, entries.len(), n as nat);
    let lines = listing(entries, entries.len())->Ok_0;
    let all = list_report(entries, None, location)->Ok_0.lines;
    assert(all[2 * n - 2] == lines[2 * n - 2]);
}

/// With the name of a directory, a snapshot in a directory of that name is meant,
/// whatever the snapshots themselves are called.
pub proof fn directory_names_come_first(entries: Seq<EntryModel>, i: int)
    requires
        0 <= i < entries.len(),
        base_name(entries[i].directory).len() > 0,
    ensures
        resolved(
            saved_order(entries),
            Some(base_name(entries[i].directory)),
        ) matches Ok(k) && 0 <= k < saved_order(entries).len() && base_name(
            saved_order(entries)[k].directory,
        ) == base_name(entries[i].directory),
{
    let all = saved_order(entries);
    let name = base_name(entries[i].directory);
    saved_time_orders(entries);
    assert(entries.contains(entries[i]));
    assert(all.contains(entries[i]));
    let q = choose|q: int| 0 <= q < all.len() && all[q] == entries[i];
    lemma_first_index(all, in_directory_named(name));
    assert(in_directory_named(name)(all[q]));
}

} // verus!
