//! What holds of every matching of conversations with terminals.
use vstd::prelude::*;

use crate::assign::{
    Matching, blank_named, blank_titled, by_agent_and_number, by_number, directories_of,
    earlier_title, fewer, free_in, give, groups_of, in_directory, in_group, is_taken,
    match_directories, match_earlier, match_earlier_all, match_projects, match_titles, matching,
    other_than, pair_up, put, titled_for, warnings_for,
};
use crate::list::{
    first_index, lemma_first_index, lemma_select, lemma_sorted_by_items, select, sorted_by,
};
use crate::model::{Agent, RowModel, SessionModel, SnapshotModel};
use crate::path::same_place;

verus! {

/// Whether session `s` may be shown by the terminal of row `r`: it stands in the
/// session's directory, or Ghostty told none.
pub open spec fn may_show(r: RowModel, s: SessionModel) -> bool {
    same_place(r.working_directory, s.cwd) || r.working_directory.len() == 0
}

/// Whether a pair is of a terminal of `rows` and a session of `sessions` that it
/// may show.
pub open spec fn pair_fits(
    rows: Seq<RowModel>,
    sessions: Seq<SessionModel>,
    pair: (Seq<char>, SessionModel),
) -> bool {
    &&& sessions.contains(pair.1)
    &&& exists|r: int|
        0 <= r < rows.len() && (#[trigger] rows[r]).terminal_id == pair.0 && may_show(
            rows[r],
            pair.1,
        )
}

/// Whether a matching is in order: no terminal shows two sessions, each pair
/// fits, what is left are sessions, and no conversation is both shown and left.
pub open spec fn sound(
    rows: Seq<RowModel>,
    sessions: Seq<SessionModel>,
    m: Matching,
) -> bool {
    &&& forall|i: int, j: int|
        0 <= i < j < m.pairs.len() ==> (#[trigger] m.pairs[i]).0 != (#[trigger] m.pairs[j]).0
    &&& forall|i: int| 0 <= i < m.pairs.len() ==> pair_fits(rows, sessions, #[trigger] m.pairs[i])
    &&& forall|k: int| 0 <= k < m.left.len() ==> sessions.contains(#[trigger] m.left[k])
    &&& forall|i: int, k: int|
        0 <= i < m.pairs.len() && 0 <= k < m.left.len() ==> (#[trigger] m.pairs[i]).1.key() != (
        #[trigger] m.left[k]).key()
}

/// Giving a fitting session keeps a matching in order.
proof fn lemma_give_sound(
    rows: Seq<RowModel>,
    sessions: Seq<SessionModel>,
    m: Matching,
    r: int,
    s: SessionModel,
)
    requires
        sound(rows, sessions, m),
        0 <= r < rows.len(),
        sessions.contains(s),
        may_show(rows[r], s),
    ensures
        sound(rows, sessions, give(m, rows[r].terminal_id, s)),
{
    let id = rows[r].terminal_id;
    let after = give(m, id, s);
    let keep = other_than(s.key());
    lemma_select(m.left, keep);
    assert(pair_fits(rows, sessions, (id, s)));
    assert forall|k: int| 0 <= k < after.left.len() implies sessions.contains(
        #[trigger] after.left[k],
    ) by {
        assert(m.left.contains(after.left[k]));
        let q = choose|q: int| 0 <= q < m.left.len() && m.left[q] == after.left[k];
        assert(sessions.contains(m.left[q]));
    }
    assert forall|i: int, j: int| 0 <= i < j < after.pairs.len() implies (
    #[trigger] after.pairs[i]).0 != (#[trigger] after.pairs[j]).0 by {
        if is_taken(m.pairs, id) {
            assert(m.pairs[i].0 != m.pairs[j].0);
        } else if j < m.pairs.len() {
            assert(m.pairs[i].0 != m.pairs[j].0);
        } else {
            assert(m.pairs[i].0 != id);
        }
    }
    assert forall|i: int| 0 <= i < after.pairs.len() implies pair_fits(
        rows,
        sessions,
        #[trigger] after.pairs[i],
    ) by {
        if i < m.pairs.len() {
            assert(pair_fits(rows, sessions, m.pairs[i]));
        }
    }
    assert forall|i: int, k: int|
        0 <= i < after.pairs.len() && 0 <= k < after.left.len() implies (
    #[trigger] after.pairs[i]).1.key() != (#[trigger] after.left[k]).key() by {
        assert(keep(after.left[k]));
        assert(m.left.contains(after.left[k]));
        let q = choose|q: int| 0 <= q < m.left.len() && m.left[q] == after.left[k];
        if i < m.pairs.len() {
            assert(m.pairs[i].1.key() != m.left[q].key());
        }
    }
}

proof fn lemma_titles_sound(
    rows: Seq<RowModel>,
    sessions: Seq<SessionModel>,
    m: Matching,
    ordered: Seq<SessionModel>,
)
    requires
        sound(rows, sessions, m),
        forall|k: int| 0 <= k < ordered.len() ==> sessions.contains(#[trigger] ordered[k]),
    ensures
        sound(rows, sessions, match_titles(rows, m, ordered)),
    decreases ordered.len(),
{
    if ordered.len() > 0 {
        let front = ordered.drop_last();
        assert forall|k: int| 0 <= k < front.len() implies sessions.contains(
            #[trigger] front[k],
        ) by {
            assert(sessions.contains(ordered[k]));
        }
        lemma_titles_sound(rows, sessions, m, front);
        let before = match_titles(rows, m, front);
        let s = ordered.last();
        let wanted = titled_for(before.pairs, s);
        lemma_first_index(rows, wanted);
        assert(sessions.contains(ordered[ordered.len() - 1]));
        match first_index(rows, wanted) {
            Some(i) => {
                assert(wanted(rows[i]));
                lemma_give_sound(rows, sessions, before, i, s);
            },
            None => {},
        }
    }
}

proof fn lemma_pair_up_sound(
    rows: Seq<RowModel>,
    sessions: Seq<SessionModel>,
    m: Matching,
    ordered: Seq<SessionModel>,
    free: Seq<RowModel>,
    cwd: Seq<char>,
    n: nat,
)
    requires
        sound(rows, sessions, m),
        n <= ordered.len(),
        n <= free.len(),
        forall|k: int|
            0 <= k < ordered.len() ==> sessions.contains(#[trigger] ordered[k]) && same_place(
                ordered[k].cwd,
                cwd,
            ),
        forall|k: int|
            0 <= k < free.len() ==> rows.contains(#[trigger] free[k]) && same_place(
                free[k].working_directory,
                cwd,
            ),
    ensures
        sound(rows, sessions, pair_up(m, ordered, free, n)),
    decreases n,
{
    if n > 0 {
        let p = (n - 1) as nat;
        lemma_pair_up_sound(rows, sessions, m, ordered, free, cwd, p);
        assert(rows.contains(free[n - 1]));
        let r = choose|r: int| 0 <= r < rows.len() && rows[r] == free[n - 1];
        assert(sessions.contains(ordered[n - 1]));
        lemma_give_sound(rows, sessions, pair_up(m, ordered, free, p), r, ordered[n - 1]);
    }
}

/// What the sessions and terminals of one directory are.
pub proof fn lemma_directory_parts(rows: Seq<RowModel>, m: Matching, cwd: Seq<char>)
    ensures
        ({
            let here = select(m.left, in_directory(cwd));
            let ordered = sorted_by(here, by_number());
            let free = select(rows, free_in(m.pairs, cwd));
            &&& ordered.len() == here.len()
            &&& forall|k: int|
                0 <= k < ordered.len() ==> m.left.contains(#[trigger] ordered[k]) && here.contains(
                    ordered[k],
                ) && same_place(ordered[k].cwd, cwd)
            &&& forall|k: int|
                0 <= k < free.len() ==> rows.contains(#[trigger] free[k]) && same_place(
                    free[k].working_directory,
                    cwd,
                ) && !is_taken(m.pairs, free[k].terminal_id)
        }),
{
    let here = select(m.left, in_directory(cwd));
    let ordered = sorted_by(here, by_number());
    let free = select(rows, free_in(m.pairs, cwd));
    lemma_select(m.left, in_directory(cwd));
    lemma_select(rows, free_in(m.pairs, cwd));
    lemma_sorted_by_items(here, by_number());
    assert forall|k: int| 0 <= k < ordered.len() implies m.left.contains(#[trigger] ordered[k])
        && here.contains(ordered[k]) && same_place(ordered[k].cwd, cwd) by {
        assert(ordered.contains(ordered[k]));
        assert(here.contains(ordered[k]));
        let q = choose|q: int| 0 <= q < here.len() && here[q] == ordered[k];
        assert(in_directory(cwd)(here[q]));
    }
    assert forall|k: int| 0 <= k < free.len() implies rows.contains(#[trigger] free[k])
        && same_place(free[k].working_directory, cwd) && !is_taken(
        m.pairs,
        free[k].terminal_id,
    ) by {
        assert(free_in(m.pairs, cwd)(free[k]));
    }
}

proof fn lemma_directories_sound(
    rows: Seq<RowModel>,
    sessions: Seq<SessionModel>,
    m: Matching,
    directories: Seq<(Agent, Seq<char>)>,
)
    requires
        sound(rows, sessions, m),
    ensures
        sound(rows, sessions, match_directories(rows, m, directories)),
    decreases directories.len(),
{
    if directories.len() > 0 {
        lemma_directories_sound(rows, sessions, m, directories.drop_last());
        let before = match_directories(rows, m, directories.drop_last());
        let cwd = directories.last().1;
        let here = select(before.left, in_directory(cwd));
        let ordered = sorted_by(here, by_number());
        let free = select(rows, free_in(before.pairs, cwd));
        lemma_directory_parts(rows, before, cwd);
        assert forall|k: int| 0 <= k < ordered.len() implies sessions.contains(
            #[trigger] ordered[k],
        ) && same_place(ordered[k].cwd, cwd) by {
            assert(before.left.contains(ordered[k]));
            let q = choose|q: int| 0 <= q < before.left.len() && before.left[q] == ordered[k];
            assert(sessions.contains(before.left[q]));
        }
        lemma_pair_up_sound(
            rows,
            sessions,
            before,
            ordered,
            free,
            cwd,
            fewer(ordered.len(), free.len()),
        );
    }
}

proof fn lemma_projects_sound(
    rows: Seq<RowModel>,
    sessions: Seq<SessionModel>,
    m: Matching,
    groups: Seq<(Agent, Seq<char>)>,
)
    requires
        sound(rows, sessions, m),
    ensures
        sound(rows, sessions, match_projects(rows, m, groups)),
    decreases groups.len(),
{
    if groups.len() > 0 {
        lemma_projects_sound(rows, sessions, m, groups.drop_last());
        let before = match_projects(rows, m, groups.drop_last());
        let group = groups.last();
        let members = select(before.left, in_group(group.0, group.1));
        let blank = select(rows, blank_named(before.pairs, group.1, group.0));
        lemma_select(before.left, in_group(group.0, group.1));
        lemma_select(rows, blank_named(before.pairs, group.1, group.0));
        if members.len() == 1 && blank.len() == 1 {
            assert(before.left.contains(members[0]));
            let q = choose|q: int| 0 <= q < before.left.len() && before.left[q] == members[0];
            assert(sessions.contains(before.left[q]));
            assert(rows.contains(blank[0]));
            let r = choose|r: int| 0 <= r < rows.len() && rows[r] == blank[0];
            assert(blank_named(before.pairs, group.1, group.0)(blank[0]));
            lemma_give_sound(rows, sessions, before, r, members[0]);
        }
    }
}

proof fn lemma_earlier_sound(
    rows: Seq<RowModel>,
    sessions: Seq<SessionModel>,
    m: Matching,
    some: Seq<SessionModel>,
    history: Seq<SnapshotModel>,
)
    requires
        sound(rows, sessions, m),
        forall|k: int| 0 <= k < some.len() ==> sessions.contains(#[trigger] some[k]),
    ensures
        sound(rows, sessions, match_earlier_all(rows, m, some, history)),
    decreases some.len(),
{
    if some.len() > 0 {
        let front = some.drop_last();
        assert forall|k: int| 0 <= k < front.len() implies sessions.contains(
            #[trigger] front[k],
        ) by {
            assert(sessions.contains(some[k]));
        }
        lemma_earlier_sound(rows, sessions, m, front, history);
        let before = match_earlier_all(rows, m, front, history);
        let s = some.last();
        assert(sessions.contains(some[some.len() - 1]));
        match earlier_title(history, s.key()) {
            Some(title) => {
                let blank = select(rows, blank_titled(before.pairs, title));
                lemma_select(rows, blank_titled(before.pairs, title));
                if blank.len() == 1 {
                    assert(rows.contains(blank[0]));
                    let r = choose|r: int| 0 <= r < rows.len() && rows[r] == blank[0];
                    assert(blank_titled(before.pairs, title)(blank[0]));
                    lemma_give_sound(rows, sessions, before, r, s);
                }
            },
            None => {},
        }
    }
}

/// No terminal shows two sessions; a session that a terminal shows is one of
/// those given, and the terminal stands in its directory or has none; and no
/// conversation is both shown and left over.
pub proof fn matching_is_sound(
    rows: Seq<RowModel>,
    sessions: Seq<SessionModel>,
    history: Seq<SnapshotModel>,
)
    ensures
        sound(rows, sessions, matching(rows, sessions, history)),
{
    let start = Matching { pairs: Seq::empty(), left: sessions };
    let ordered = sorted_by(sessions, by_agent_and_number());
    lemma_sorted_by_items(sessions, by_agent_and_number());
    assert forall|k: int| 0 <= k < ordered.len() implies sessions.contains(
        #[trigger] ordered[k],
    ) by {
        assert(ordered.contains(ordered[k]));
    }
    assert forall|k: int| 0 <= k < sessions.len() implies sessions.contains(
        #[trigger] start.left[k],
    ) by {
        assert(sessions[k] == start.left[k]);
    }
    assert(sound(rows, sessions, start));
    lemma_titles_sound(rows, sessions, start, ordered);
    let titled = match_titles(rows, start, ordered);
    lemma_directories_sound(rows, sessions, titled, directories_of(titled.left));
    let placed = match_directories(rows, titled, directories_of(titled.left));
    lemma_projects_sound(rows, sessions, placed, groups_of(placed.left));
    let named = match_projects(rows, placed, groups_of(placed.left));
    lemma_earlier_sound(rows, sessions, named, named.left, history);
}

/// With `warn_for_all`, there is one warning for each session that is left.
pub proof fn every_session_left_is_warned_of(rows: Seq<RowModel>, m: Matching, n: nat)
    requires
        n <= m.left.len(),
    ensures
        warnings_for(rows, m, true, n).len() == n,
    decreases n,
{
    if n > 0 {
        every_session_left_is_warned_of(rows, m, (n - 1) as nat);
    }
}

// ---------------------------------------------------------------------------
// No session is lost
// ---------------------------------------------------------------------------
/// Whether the terminals of `rows` have different identifiers.
pub open spec fn distinct_terminals(rows: Seq<RowModel>) -> bool {
    forall|i: int, j: int|
        0 <= i < j < rows.len() ==> (#[trigger] rows[i]).terminal_id != (
        #[trigger] rows[j]).terminal_id
}

/// Whether a terminal shows the conversation of `s`.
pub open spec fn is_shown(m: Matching, s: SessionModel) -> bool {
    exists|i: int| 0 <= i < m.pairs.len() && (#[trigger] m.pairs[i]).1.key() == s.key()
}

/// Whether each session is shown or left.
pub open spec fn complete(sessions: Seq<SessionModel>, m: Matching) -> bool {
    forall|k: int|
        0 <= k < sessions.len() ==> m.left.contains(#[trigger] sessions[k]) || is_shown(
            m,
            sessions[k],
        )
}

/// Giving a free terminal a session loses none.
proof fn lemma_give_complete(
    sessions: Seq<SessionModel>,
    m: Matching,
    id: Seq<char>,
    s: SessionModel,
)
    requires
        complete(sessions, m),
        !is_taken(m.pairs, id),
    ensures
        complete(sessions, give(m, id, s)),
{
    let after = give(m, id, s);
    let keep = other_than(s.key());
    lemma_select(m.left, keep);
    assert forall|k: int| 0 <= k < sessions.len() implies after.left.contains(
        #[trigger] sessions[k],
    ) || is_shown(after, sessions[k]) by {
        let x = sessions[k];
        if x.key() == s.key() {
            assert(after.pairs[m.pairs.len() as int].1.key() == x.key());
        } else if is_shown(m, x) {
            let i = choose|i: int| 0 <= i < m.pairs.len() && (#[trigger] m.pairs[i]).1.key() == x.key();
            assert(after.pairs[i].1.key() == x.key());
        } else {
            let q = choose|q: int| 0 <= q < m.left.len() && m.left[q] == x;
            assert(keep(m.left[q]));
        }
    }
}

proof fn lemma_titles_complete(
    rows: Seq<RowModel>,
    sessions: Seq<SessionModel>,
    m: Matching,
    ordered: Seq<SessionModel>,
)
    requires
        complete(sessions, m),
    ensures
        complete(sessions, match_titles(rows, m, ordered)),
    decreases ordered.len(),
{
    if ordered.len() > 0 {
        lemma_titles_complete(rows, sessions, m, ordered.drop_last());
        let before = match_titles(rows, m, ordered.drop_last());
        let wanted = titled_for(before.pairs, ordered.last());
        lemma_first_index(rows, wanted);
        match first_index(rows, wanted) {
            Some(i) => {
                assert(wanted(rows[i]));
                lemma_give_complete(sessions, before, rows[i].terminal_id, ordered.last());
            },
            None => {},
        }
    }
}

/// What is selected from terminals with different identifiers has different
/// identifiers.
pub proof fn lemma_select_distinct(rows: Seq<RowModel>, keep: spec_fn(RowModel) -> bool)
    requires
        distinct_terminals(rows),
    ensures
        distinct_terminals(select(rows, keep)),
    decreases rows.len(),
{
    if rows.len() > 0 {
        let front = rows.drop_last();
        assert forall|i: int, j: int| 0 <= i < j < front.len() implies (
        #[trigger] front[i]).terminal_id != (#[trigger] front[j]).terminal_id by {
            assert(rows[i].terminal_id != rows[j].terminal_id);
        }
        lemma_select_distinct(front, keep);
        lemma_select(front, keep);
        let rest = select(front, keep);
        let r = select(rows, keep);
        assert forall|i: int, j: int| 0 <= i < j < r.len() implies (#[trigger] r[i]).terminal_id
            != (#[trigger] r[j]).terminal_id by {
            if j < rest.len() {
                assert(rest[i].terminal_id != rest[j].terminal_id);
            } else {
                assert(front.contains(rest[i]));
                let q = choose|q: int| 0 <= q < front.len() && front[q] == rest[i];
                assert(rows[q].terminal_id != rows[rows.len() - 1].terminal_id);
            }
        }
    }
}

/// After giving terminals one after the other, the rest are still free.
pub proof fn lemma_pair_up_free(
    m: Matching,
    ordered: Seq<SessionModel>,
    free: Seq<RowModel>,
    n: nat,
    k: int,
)
    requires
        distinct_terminals(free),
        n <= k < free.len(),
        !is_taken(m.pairs, free[k].terminal_id),
    ensures
        !is_taken(pair_up(m, ordered, free, n).pairs, free[k].terminal_id),
    decreases n,
{
    if n > 0 {
        let p = (n - 1) as nat;
        lemma_pair_up_free(m, ordered, free, p, k);
        let before = pair_up(m, ordered, free, p);
        let id = free[n - 1].terminal_id;
        assert(free[n - 1].terminal_id != free[k].terminal_id);
        let after = put(before.pairs, id, ordered[n - 1]);
        assert forall|i: int| 0 <= i < after.len() implies (#[trigger] after[i]).0
            != free[k].terminal_id by {
            if i < before.pairs.len() {
                assert(before.pairs[i].0 != free[k].terminal_id);
            }
        }
    }
}

proof fn lemma_pair_up_complete(
    sessions: Seq<SessionModel>,
    m: Matching,
    ordered: Seq<SessionModel>,
    free: Seq<RowModel>,
    n: nat,
)
    requires
        complete(sessions, m),
        distinct_terminals(free),
        n <= free.len(),
        forall|k: int| 0 <= k < free.len() ==> !is_taken(m.pairs, (#[trigger] free[k]).terminal_id),
    ensures
        complete(sessions, pair_up(m, ordered, free, n)),
    decreases n,
{
    if n > 0 {
        let p = (n - 1) as nat;
        lemma_pair_up_complete(sessions, m, ordered, free, p);
        assert(!is_taken(m.pairs, free[n - 1].terminal_id));
        lemma_pair_up_free(m, ordered, free, p, n - 1);
        lemma_give_complete(
            sessions,
            pair_up(m, ordered, free, p),
            free[n - 1].terminal_id,
            ordered[n - 1],
        );
    }
}

proof fn lemma_directories_complete(
    rows: Seq<RowModel>,
    sessions: Seq<SessionModel>,
    m: Matching,
    directories: Seq<(Agent, Seq<char>)>,
)
    requires
        complete(sessions, m),
        distinct_terminals(rows),
    ensures
        complete(sessions, match_directories(rows, m, directories)),
    decreases directories.len(),
{
    if directories.len() > 0 {
        lemma_directories_complete(rows, sessions, m, directories.drop_last());
        let before = match_directories(rows, m, directories.drop_last());
        let cwd = directories.last().1;
        let here = select(before.left, in_directory(cwd));
        let ordered = sorted_by(here, by_number());
        let free = select(rows, free_in(before.pairs, cwd));
        lemma_directory_parts(rows, before, cwd);
        lemma_select_distinct(rows, free_in(before.pairs, cwd));
        lemma_pair_up_complete(
            sessions,
            before,
            ordered,
            free,
            fewer(ordered.len(), free.len()),
        );
    }
}

proof fn lemma_projects_complete(
    rows: Seq<RowModel>,
    sessions: Seq<SessionModel>,
    m: Matching,
    groups: Seq<(Agent, Seq<char>)>,
)
    requires
        complete(sessions, m),
    ensures
        complete(sessions, match_projects(rows, m, groups)),
    decreases groups.len(),
{
    if groups.len() > 0 {
        lemma_projects_complete(rows, sessions, m, groups.drop_last());
        let before = match_projects(rows, m, groups.drop_last());
        let group = groups.last();
        let members = select(before.left, in_group(group.0, group.1));
        let blank = select(rows, blank_named(before.pairs, group.1, group.0));
        lemma_select(rows, blank_named(before.pairs, group.1, group.0));
        if members.len() == 1 && blank.len() == 1 {
            assert(blank_named(before.pairs, group.1, group.0)(blank[0]));
            lemma_give_complete(sessions, before, blank[0].terminal_id, members[0]);
        }
    }
}

proof fn lemma_earlier_complete(
    rows: Seq<RowModel>,
    sessions: Seq<SessionModel>,
    m: Matching,
    some: Seq<SessionModel>,
    history: Seq<SnapshotModel>,
)
    requires
        complete(sessions, m),
    ensures
        complete(sessions, match_earlier_all(rows, m, some, history)),
    decreases some.len(),
{
    if some.len() > 0 {
        let front = some.drop_last();
        lemma_earlier_complete(rows, sessions, m, front, history);
        let before = match_earlier_all(rows, m, front, history);
        let s = some.last();
        match earlier_title(history, s.key()) {
            Some(title) => {
                let blank = select(rows, blank_titled(before.pairs, title));
                lemma_select(rows, blank_titled(before.pairs, title));
                if blank.len() == 1 {
                    assert(blank_titled(before.pairs, title)(blank[0]));
                    lemma_give_complete(sessions, before, blank[0].terminal_id, s);
                }
            },
            None => {},
        }
    }
}

/// Each session is shown by a terminal or left over: none is lost, where the
/// terminals have different identifiers.
pub proof fn matching_is_complete(
    rows: Seq<RowModel>,
    sessions: Seq<SessionModel>,
    history: Seq<SnapshotModel>,
)
    requires
        distinct_terminals(rows),
    ensures
        complete(sessions, matching(rows, sessions, history)),
{
    let start = Matching { pairs: Seq::empty(), left: sessions };
    let ordered = sorted_by(sessions, by_agent_and_number());
    assert forall|k: int| 0 <= k < sessions.len() implies start.left.contains(
        #[trigger] sessions[k],
    ) || is_shown(start, sessions[k]) by {
        assert(start.left[k] == sessions[k]);
    }
    lemma_titles_complete(rows, sessions, start, ordered);
    let titled = match_titles(rows, start, ordered);
    lemma_directories_complete(rows, sessions, titled, directories_of(titled.left));
    let placed = match_directories(rows, titled, directories_of(titled.left));
    lemma_projects_complete(rows, sessions, placed, groups_of(placed.left));
    let named = match_projects(rows, placed, groups_of(placed.left));
    lemma_earlier_complete(rows, sessions, named, named.left, history);
}

// ---------------------------------------------------------------------------
// No conversation is shown twice
// ---------------------------------------------------------------------------
/// Whether the sessions are of different conversations.
pub open spec fn distinct_conversations(s: Seq<SessionModel>) -> bool {
    forall|i: int, j: int|
        0 <= i < j < s.len() ==> (#[trigger] s[i]).key() != (#[trigger] s[j]).key()
}

/// Whether the terminals show different conversations.
pub open spec fn shows_each_once(m: Matching) -> bool {
    forall|i: int, j: int|
        0 <= i < j < m.pairs.len() ==> (#[trigger] m.pairs[i]).1.key() != (
        #[trigger] m.pairs[j]).1.key()
}

/// Giving a conversation that is not shown shows none twice.
proof fn lemma_give_once(
    rows: Seq<RowModel>,
    sessions: Seq<SessionModel>,
    m: Matching,
    id: Seq<char>,
    s: SessionModel,
)
    requires
        sound(rows, sessions, m),
        shows_each_once(m),
        !is_shown(m, s),
    ensures
        shows_each_once(give(m, id, s)),
        forall|x: SessionModel|
            #[trigger] is_shown(give(m, id, s), x) ==> is_shown(m, x) || x.key() == s.key(),
{
    let after = give(m, id, s);
    assert forall|i: int| 0 <= i < m.pairs.len() implies (#[trigger] m.pairs[i]).1.key()
        != s.key() by {}
    assert forall|i: int, j: int| 0 <= i < j < after.pairs.len() implies (
    #[trigger] after.pairs[i]).1.key() != (#[trigger] after.pairs[j]).1.key() by {
        assert(i < m.pairs.len());
        if j < m.pairs.len() {
            assert(m.pairs[i].1.key() != m.pairs[j].1.key());
            assert(m.pairs[i].0 != m.pairs[j].0);
        }
    }
    assert forall|x: SessionModel| #[trigger] is_shown(after, x) implies is_shown(m, x) || x.key()
        == s.key() by {
        let i = choose|i: int|
            0 <= i < after.pairs.len() && (#[trigger] after.pairs[i]).1.key() == x.key();
        if i < m.pairs.len() && after.pairs[i] == m.pairs[i] {
            assert(m.pairs[i].1.key() == x.key());
        }
    }
}

/// What is sorted keeps different conversations different.
proof fn lemma_sorted_distinct(
    s: Seq<SessionModel>,
    before: spec_fn(SessionModel, SessionModel) -> bool,
)
    requires
        distinct_conversations(s),
    ensures
        distinct_conversations(sorted_by(s, before)),
{
    let r = sorted_by(s, before);
    lemma_sorted_by_items(s, before);
    assert(s.no_duplicates()) by {
        assert forall|i: int, j: int| 0 <= i < s.len() && 0 <= j < s.len() && i != j implies s[i]
            != s[j] by {
            if i < j {
                assert(s[i].key() != s[j].key());
            } else {
                assert(s[j].key() != s[i].key());
            }
        }
    }
    s.lemma_multiset_has_no_duplicates();
    r.lemma_multiset_has_no_duplicates_conv();
    assert forall|i: int, j: int| 0 <= i < j < r.len() implies (#[trigger] r[i]).key() != (
    #[trigger] r[j]).key() by {
        assert(r.contains(r[i]) && r.contains(r[j]));
        assert(s.contains(r[i]) && s.contains(r[j]));
        let a = choose|a: int| 0 <= a < s.len() && s[a] == r[i];
        let b = choose|b: int| 0 <= b < s.len() && s[b] == r[j];
        assert(r[i] != r[j]);
        if a < b {
            assert(s[a].key() != s[b].key());
        } else if b < a {
            assert(s[b].key() != s[a].key());
        }
    }
}

/// What is selected keeps different conversations different.
proof fn lemma_select_conversations(s: Seq<SessionModel>, keep: spec_fn(SessionModel) -> bool)
    requires
        distinct_conversations(s),
    ensures
        distinct_conversations(select(s, keep)),
    decreases s.len(),
{
    if s.len() > 0 {
        let front = s.drop_last();
        assert forall|i: int, j: int| 0 <= i < j < front.len() implies (#[trigger] front[i]).key()
            != (#[trigger] front[j]).key() by {
            assert(s[i].key() != s[j].key());
        }
        lemma_select_conversations(front, keep);
        lemma_select(front, keep);
        let rest = select(front, keep);
        let r = select(s, keep);
        assert forall|i: int, j: int| 0 <= i < j < r.len() implies (#[trigger] r[i]).key() != (
        #[trigger] r[j]).key() by {
            if j < rest.len() {
                assert(rest[i].key() != rest[j].key());
            } else {
                assert(front.contains(rest[i]));
                let q = choose|q: int| 0 <= q < front.len() && front[q] == rest[i];
                assert(s[q].key() != s[s.len() - 1].key());
            }
        }
    }
}

/// Whether every conversation that `m` shows is shown by `from` or is one of
/// `given`.
spec fn shows_only(m: Matching, from: Matching, given: Seq<SessionModel>) -> bool {
    forall|x: SessionModel|
        #[trigger] is_shown(m, x) ==> is_shown(from, x) || exists|k: int|
            0 <= k < given.len() && (#[trigger] given[k]).key() == x.key()
}

proof fn lemma_titles_once(
    rows: Seq<RowModel>,
    sessions: Seq<SessionModel>,
    m: Matching,
    ordered: Seq<SessionModel>,
)
    requires
        sound(rows, sessions, m),
        shows_each_once(m),
        distinct_conversations(ordered),
        forall|k: int| 0 <= k < ordered.len() ==> sessions.contains(#[trigger] ordered[k]),
        forall|k: int| 0 <= k < ordered.len() ==> !is_shown(m, #[trigger] ordered[k]),
    ensures
        shows_each_once(match_titles(rows, m, ordered)),
        shows_only(match_titles(rows, m, ordered), m, ordered),
        distinct_conversations(m.left) ==> distinct_conversations(
            match_titles(rows, m, ordered).left,
        ),
    decreases ordered.len(),
{
    if ordered.len() > 0 {
        let front = ordered.drop_last();
        let s = ordered.last();
        assert forall|i: int, j: int| 0 <= i < j < front.len() implies (#[trigger] front[i]).key()
            != (#[trigger] front[j]).key() by {
            assert(ordered[i].key() != ordered[j].key());
        }
        assert forall|k: int| 0 <= k < front.len() implies sessions.contains(#[trigger] front[k])
            && !is_shown(m, front[k]) by {
            assert(sessions.contains(ordered[k]) && !is_shown(m, ordered[k]));
        }
        lemma_titles_once(rows, sessions, m, front);
        lemma_titles_sound(rows, sessions, m, front);
        let before = match_titles(rows, m, front);
        lemma_next_not_shown(before, m, ordered);
        match first_index(rows, titled_for(before.pairs, s)) {
            Some(i) => {
                lemma_give_once(rows, sessions, before, rows[i].terminal_id, s);
                if distinct_conversations(before.left) {
                    lemma_select_conversations(before.left, other_than(s.key()));
                }
                lemma_shows_only_step(
                    give(before, rows[i].terminal_id, s),
                    before,
                    m,
                    ordered,
                );
            },
            None => {
                lemma_shows_only_step(before, before, m, ordered);
            },
        }
    }
}

/// The next of different conversations is not shown yet.
proof fn lemma_next_not_shown(before: Matching, from: Matching, given: Seq<SessionModel>)
    requires
        given.len() > 0,
        shows_only(before, from, given.drop_last()),
        distinct_conversations(given),
        !is_shown(from, given.last()),
    ensures
        !is_shown(before, given.last()),
{
    if is_shown(before, given.last()) {
        let front = given.drop_last();
        let k = choose|k: int| 0 <= k < front.len() && (#[trigger] front[k]).key()
            == given.last().key();
        assert(given[k].key() != given[given.len() - 1].key());
    }
}

/// One more given conversation.
proof fn lemma_shows_only_step(
    after: Matching,
    before: Matching,
    from: Matching,
    given: Seq<SessionModel>,
)
    requires
        given.len() > 0,
        shows_only(before, from, given.drop_last()),
        forall|x: SessionModel|
            #[trigger] is_shown(after, x) ==> is_shown(before, x) || x.key() == given.last().key(),
    ensures
        shows_only(after, from, given),
{
    let front = given.drop_last();
    assert forall|x: SessionModel| #[trigger] is_shown(after, x) implies is_shown(from, x)
        || exists|k: int| 0 <= k < given.len() && (#[trigger] given[k]).key() == x.key() by {
        if is_shown(before, x) {
            if !is_shown(from, x) {
                let k = choose|k: int|
                    0 <= k < front.len() && (#[trigger] front[k]).key() == x.key();
                assert(given[k].key() == x.key());
            }
        } else {
            assert(given[given.len() - 1].key() == x.key());
        }
    }
}

proof fn lemma_pair_up_once(
    rows: Seq<RowModel>,
    sessions: Seq<SessionModel>,
    m: Matching,
    ordered: Seq<SessionModel>,
    free: Seq<RowModel>,
    cwd: Seq<char>,
    n: nat,
)
    requires
        sound(rows, sessions, m),
        shows_each_once(m),
        distinct_conversations(ordered),
        distinct_conversations(m.left),
        n <= ordered.len(),
        n <= free.len(),
        forall|k: int|
            0 <= k < ordered.len() ==> sessions.contains(#[trigger] ordered[k]) && same_place(
                ordered[k].cwd,
                cwd,
            ) && !is_shown(m, ordered[k]),
        forall|k: int|
            0 <= k < free.len() ==> rows.contains(#[trigger] free[k]) && same_place(
                free[k].working_directory,
                cwd,
            ),
    ensures
        shows_each_once(pair_up(m, ordered, free, n)),
        shows_only(pair_up(m, ordered, free, n), m, ordered.take(n as int)),
        distinct_conversations(pair_up(m, ordered, free, n).left),
    decreases n,
{
    if n > 0 {
        let p = (n - 1) as nat;
        lemma_pair_up_once(rows, sessions, m, ordered, free, cwd, p);
        lemma_pair_up_sound(rows, sessions, m, ordered, free, cwd, p);
        let before = pair_up(m, ordered, free, p);
        let given = ordered.take(n as int);
        let s = ordered[n - 1];
        assert(given.drop_last() == ordered.take(p as int));
        assert(given.last() == s);
        assert forall|i: int, j: int| 0 <= i < j < given.len() implies (#[trigger] given[i]).key()
            != (#[trigger] given[j]).key() by {
            assert(ordered[i].key() != ordered[j].key());
        }
        assert(!is_shown(m, ordered[n - 1]));
        lemma_next_not_shown(before, m, given);
        lemma_give_once(rows, sessions, before, free[n - 1].terminal_id, s);
        lemma_select_conversations(before.left, other_than(s.key()));
        lemma_shows_only_step(give(before, free[n - 1].terminal_id, s), before, m, given);
    }
}

/// What is left is not shown.
proof fn lemma_left_not_shown(
    rows: Seq<RowModel>,
    sessions: Seq<SessionModel>,
    m: Matching,
    s: SessionModel,
)
    requires
        sound(rows, sessions, m),
        m.left.contains(s),
    ensures
        !is_shown(m, s),
{
    let k = choose|k: int| 0 <= k < m.left.len() && m.left[k] == s;
    if is_shown(m, s) {
        let i = choose|i: int| 0 <= i < m.pairs.len() && (#[trigger] m.pairs[i]).1.key() == s.key();
        assert(m.pairs[i].1.key() != m.left[k].key());
    }
}

proof fn lemma_directories_once(
    rows: Seq<RowModel>,
    sessions: Seq<SessionModel>,
    m: Matching,
    directories: Seq<(Agent, Seq<char>)>,
)
    requires
        sound(rows, sessions, m),
        shows_each_once(m),
        distinct_conversations(m.left),
    ensures
        shows_each_once(match_directories(rows, m, directories)),
        distinct_conversations(match_directories(rows, m, directories).left),
    decreases directories.len(),
{
    if directories.len() > 0 {
        lemma_directories_once(rows, sessions, m, directories.drop_last());
        lemma_directories_sound(rows, sessions, m, directories.drop_last());
        let before = match_directories(rows, m, directories.drop_last());
        let cwd = directories.last().1;
        let here = select(before.left, in_directory(cwd));
        let ordered = sorted_by(here, by_number());
        let free = select(rows, free_in(before.pairs, cwd));
        lemma_directory_parts(rows, before, cwd);
        lemma_select_conversations(before.left, in_directory(cwd));
        lemma_sorted_distinct(here, by_number());
        assert forall|k: int| 0 <= k < ordered.len() implies sessions.contains(
            #[trigger] ordered[k],
        ) && same_place(ordered[k].cwd, cwd) && !is_shown(before, ordered[k]) by {
            assert(before.left.contains(ordered[k]));
            let q = choose|q: int| 0 <= q < before.left.len() && before.left[q] == ordered[k];
            assert(sessions.contains(before.left[q]));
            lemma_left_not_shown(rows, sessions, before, ordered[k]);
        }
        lemma_pair_up_once(
            rows,
            sessions,
            before,
            ordered,
            free,
            cwd,
            fewer(ordered.len(), free.len()),
        );
    }
}

proof fn lemma_projects_once(
    rows: Seq<RowModel>,
    sessions: Seq<SessionModel>,
    m: Matching,
    groups: Seq<(Agent, Seq<char>)>,
)
    requires
        sound(rows, sessions, m),
        shows_each_once(m),
        distinct_conversations(m.left),
    ensures
        shows_each_once(match_projects(rows, m, groups)),
        distinct_conversations(match_projects(rows, m, groups).left),
    decreases groups.len(),
{
    if groups.len() > 0 {
        lemma_projects_once(rows, sessions, m, groups.drop_last());
        lemma_projects_sound(rows, sessions, m, groups.drop_last());
        let before = match_projects(rows, m, groups.drop_last());
        let group = groups.last();
        let members = select(before.left, in_group(group.0, group.1));
        let blank = select(rows, blank_named(before.pairs, group.1, group.0));
        lemma_select(before.left, in_group(group.0, group.1));
        if members.len() == 1 && blank.len() == 1 {
            assert(before.left.contains(members[0]));
            lemma_left_not_shown(rows, sessions, before, members[0]);
            lemma_give_once(rows, sessions, before, blank[0].terminal_id, members[0]);
            lemma_select_conversations(before.left, other_than(members[0].key()));
        }
    }
}

proof fn lemma_earlier_once(
    rows: Seq<RowModel>,
    sessions: Seq<SessionModel>,
    m: Matching,
    some: Seq<SessionModel>,
    history: Seq<SnapshotModel>,
)
    requires
        sound(rows, sessions, m),
        shows_each_once(m),
        distinct_conversations(some),
        forall|k: int| 0 <= k < some.len() ==> sessions.contains(#[trigger] some[k]),
        forall|k: int| 0 <= k < some.len() ==> !is_shown(m, #[trigger] some[k]),
    ensures
        shows_each_once(match_earlier_all(rows, m, some, history)),
        shows_only(match_earlier_all(rows, m, some, history), m, some),
    decreases some.len(),
{
    if some.len() > 0 {
        let front = some.drop_last();
        let s = some.last();
        assert forall|i: int, j: int| 0 <= i < j < front.len() implies (#[trigger] front[i]).key()
            != (#[trigger] front[j]).key() by {
            assert(some[i].key() != some[j].key());
        }
        assert forall|k: int| 0 <= k < front.len() implies sessions.contains(#[trigger] front[k])
            && !is_shown(m, front[k]) by {
            assert(sessions.contains(some[k]) && !is_shown(m, some[k]));
        }
        lemma_earlier_once(rows, sessions, m, front, history);
        lemma_earlier_sound(rows, sessions, m, front, history);
        let before = match_earlier_all(rows, m, front, history);
        lemma_next_not_shown(before, m, some);
        let after = match_earlier(rows, before, s, history);
        if after != before {
            let title = earlier_title(history, s.key())->0;
            let blank = select(rows, blank_titled(before.pairs, title));
            lemma_give_once(rows, sessions, before, blank[0].terminal_id, s);
        }
        lemma_shows_only_step(after, before, m, some);
    }
}

/// Where the sessions are of different conversations, no conversation is shown
/// by two terminals.
pub proof fn no_conversation_is_shown_twice(
    rows: Seq<RowModel>,
    sessions: Seq<SessionModel>,
    history: Seq<SnapshotModel>,
)
    requires
        distinct_conversations(sessions),
    ensures
        shows_each_once(matching(rows, sessions, history)),
{
    let start = Matching { pairs: Seq::empty(), left: sessions };
    let ordered = sorted_by(sessions, by_agent_and_number());
    lemma_sorted_by_items(sessions, by_agent_and_number());
    lemma_sorted_distinct(sessions, by_agent_and_number());
    assert forall|k: int| 0 <= k < ordered.len() implies sessions.contains(#[trigger] ordered[k])
        && !is_shown(start, ordered[k]) by {
        assert(ordered.contains(ordered[k]));
    }
    assert forall|k: int| 0 <= k < sessions.len() implies sessions.contains(
        #[trigger] start.left[k],
    ) by {
        assert(sessions[k] == start.left[k]);
    }
    assert(sound(rows, sessions, start));
    lemma_titles_once(rows, sessions, start, ordered);
    lemma_titles_sound(rows, sessions, start, ordered);
    let titled = match_titles(rows, start, ordered);
    lemma_directories_once(rows, sessions, titled, directories_of(titled.left));
    lemma_directories_sound(rows, sessions, titled, directories_of(titled.left));
    let placed = match_directories(rows, titled, directories_of(titled.left));
    lemma_projects_once(rows, sessions, placed, groups_of(placed.left));
    lemma_projects_sound(rows, sessions, placed, groups_of(placed.left));
    let named = match_projects(rows, placed, groups_of(placed.left));
    assert forall|k: int| 0 <= k < named.left.len() implies sessions.contains(
        #[trigger] named.left[k],
    ) && !is_shown(named, named.left[k]) by {
        assert(named.left.contains(named.left[k]));
        lemma_left_not_shown(rows, sessions, named, named.left[k]);
    }
    lemma_earlier_once(rows, sessions, named, named.left, history);
}

} // verus!
