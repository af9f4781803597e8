//! Which terminal a conversation goes to, step by step.
use vstd::prelude::*;
use vstd::string::*;

use crate::agents::{terminal_number, trailing_digits};
use crate::assign::{
    Matching, blank_named, blank_titled, by_agent_and_directory, by_agent_and_number, by_number,
    directories_of, earlier_title, fewer, free_in, give, groups_of, in_directory, in_group,
    is_agent_title, is_taken, lasting_title, match_directories, match_directory, match_earlier,
    match_earlier_all, match_project, match_projects, match_title, match_titles, matching, mixed,
    name_among, names_project, other_than, pair_up, reason_for, shown, terminals_of, titled_for,
    warning_text, warnings_for,
};
use crate::assign_laws::{
    distinct_conversations, distinct_terminals, lemma_directory_parts, lemma_pair_up_free,
    lemma_select_distinct, matching_is_sound, no_conversation_is_shown_twice,
};
use crate::list::{
    first_index, flat, lemma_first_index, lemma_same_items, lemma_select, lemma_select_at,
    lemma_select_prefix, lemma_sorted_by_items, ordered_set, orders, select, sorted_by,
    sorting_orders,
};
use crate::model::{
    Agent, KeyModel, RowModel, SessionModel, SnapshotModel, TerminalModel, agent_label, agent_unit,
};
use crate::number::{decimal, decimal_reads_back, lemma_decimal_digits};
use crate::path::same_place;
use crate::text::{contains, is_digit};
use crate::text_laws::parts_are_found;

verus! {

// ---------------------------------------------------------------------------
// What is given stays
// ---------------------------------------------------------------------------
/// Whether `b` shows all that `a` shows, and maybe more.
spec fn extends(a: Matching, b: Matching) -> bool {
    a.pairs.len() <= b.pairs.len() && b.pairs.take(a.pairs.len() as int) == a.pairs
}

proof fn lemma_extends_self(a: Matching)
    ensures
        extends(a, a),
{
    assert(a.pairs.take(a.pairs.len() as int) == a.pairs);
}

proof fn lemma_extends_trans(a: Matching, b: Matching, c: Matching)
    requires
        extends(a, b),
        extends(b, c),
    ensures
        extends(a, c),
{
    assert(c.pairs.take(a.pairs.len() as int) =~= c.pairs.take(b.pairs.len() as int).take(
        a.pairs.len() as int,
    ));
}

proof fn lemma_give_extends(m: Matching, id: Seq<char>, s: SessionModel)
    requires
        !is_taken(m.pairs, id),
    ensures
        extends(m, give(m, id, s)),
        give(m, id, s).pairs == m.pairs.push((id, s)),
{
    assert(m.pairs.push((id, s)).take(m.pairs.len() as int) =~= m.pairs);
}

proof fn lemma_title_extends(rows: Seq<RowModel>, m: Matching, s: SessionModel)
    ensures
        extends(m, match_title(rows, m, s)),
{
    lemma_extends_self(m);
    lemma_first_index(rows, titled_for(m.pairs, s));
    match first_index(rows, titled_for(m.pairs, s)) {
        Some(i) => {
            assert(titled_for(m.pairs, s)(rows[i]));
            lemma_give_extends(m, rows[i].terminal_id, s);
        },
        None => {},
    }
}

proof fn lemma_titles_extend(
    rows: Seq<RowModel>,
    m: Matching,
    ordered: Seq<SessionModel>,
    n: int,
)
    requires
        0 <= n <= ordered.len(),
    ensures
        extends(match_titles(rows, m, ordered.take(n)), match_titles(rows, m, ordered)),
    decreases ordered.len(),
{
    if n == ordered.len() {
        assert(ordered.take(n) == ordered);
        lemma_extends_self(match_titles(rows, m, ordered));
    } else {
        let front = ordered.drop_last();
        lemma_titles_extend(rows, m, front, n);
        assert(front.take(n) =~= ordered.take(n));
        lemma_title_extends(rows, match_titles(rows, m, front), ordered.last());
        lemma_extends_trans(
            match_titles(rows, m, ordered.take(n)),
            match_titles(rows, m, front),
            match_titles(rows, m, ordered),
        );
    }
}

proof fn lemma_pair_up_extends(
    m: Matching,
    ordered: Seq<SessionModel>,
    free: Seq<RowModel>,
    n: nat,
)
    requires
        distinct_terminals(free),
        n <= free.len(),
        forall|k: int| 0 <= k < free.len() ==> !is_taken(m.pairs, (#[trigger] free[k]).terminal_id),
    ensures
        extends(m, pair_up(m, ordered, free, n)),
    decreases n,
{
    lemma_extends_self(m);
    if n > 0 {
        let p = (n - 1) as nat;
        lemma_pair_up_extends(m, ordered, free, p);
        assert(!is_taken(m.pairs, free[n - 1].terminal_id));
        lemma_pair_up_free(m, ordered, free, p, n - 1);
        lemma_give_extends(
            pair_up(m, ordered, free, p),
            free[n - 1].terminal_id,
            ordered[n - 1],
        );
        lemma_extends_trans(m, pair_up(m, ordered, free, p), pair_up(m, ordered, free, n));
    }
}

proof fn lemma_directories_extend(
    rows: Seq<RowModel>,
    m: Matching,
    directories: Seq<(Agent, Seq<char>)>,
)
    requires
        distinct_terminals(rows),
    ensures
        extends(m, match_directories(rows, m, directories)),
    decreases directories.len(),
{
    lemma_extends_self(m);
    if directories.len() > 0 {
        let before = match_directories(rows, m, directories.drop_last());
        lemma_directories_extend(rows, m, directories.drop_last());
        let cwd = directories.last().1;
        let ordered = sorted_by(select(before.left, in_directory(cwd)), by_number());
        let free = select(rows, free_in(before.pairs, cwd));
        lemma_directory_parts(rows, before, cwd);
        lemma_select_distinct(rows, free_in(before.pairs, cwd));
        lemma_pair_up_extends(before, ordered, free, fewer(ordered.len(), free.len()));
        lemma_extends_self(before);
        lemma_extends_trans(m, before, match_directories(rows, m, directories));
    }
}

proof fn lemma_projects_extend(
    rows: Seq<RowModel>,
    m: Matching,
    groups: Seq<(Agent, Seq<char>)>,
)
    ensures
        extends(m, match_projects(rows, m, groups)),
    decreases groups.len(),
{
    lemma_extends_self(m);
    if groups.len() > 0 {
        let before = match_projects(rows, m, groups.drop_last());
        lemma_projects_extend(rows, m, groups.drop_last());
        let group = groups.last();
        let blank = select(rows, blank_named(before.pairs, group.1, group.0));
        lemma_select(rows, blank_named(before.pairs, group.1, group.0));
        lemma_extends_self(before);
        let after = match_projects(rows, m, groups);
        if after != before {
            assert(blank_named(before.pairs, group.1, group.0)(blank[0]));
            let members = select(before.left, in_group(group.0, group.1));
            lemma_give_extends(before, blank[0].terminal_id, members[0]);
        }
        lemma_extends_trans(m, before, after);
    }
}

proof fn lemma_earlier_extends(
    rows: Seq<RowModel>,
    m: Matching,
    some: Seq<SessionModel>,
    history: Seq<SnapshotModel>,
)
    ensures
        extends(m, match_earlier_all(rows, m, some, history)),
    decreases some.len(),
{
    lemma_extends_self(m);
    if some.len() > 0 {
        let before = match_earlier_all(rows, m, some.drop_last(), history);
        lemma_earlier_extends(rows, m, some.drop_last(), history);
        lemma_extends_self(before);
        let s = some.last();
        let after = match_earlier_all(rows, m, some, history);
        if after != before {
            let title = earlier_title(history, s.key())->0;
            let blank = select(rows, blank_titled(before.pairs, title));
            lemma_select(rows, blank_titled(before.pairs, title));
            assert(blank_titled(before.pairs, title)(blank[0]));
            lemma_give_extends(before, blank[0].terminal_id, s);
        }
        lemma_extends_trans(m, before, after);
    }
}

// ---------------------------------------------------------------------------
// Titles come first
// ---------------------------------------------------------------------------
/// Whether a terminal of the session's directory shows it, in each pair.
spec fn placed_in_directory(
    rows: Seq<RowModel>,
    m: Matching,
    ordered: Seq<SessionModel>,
) -> bool {
    forall|i: int|
        0 <= i < m.pairs.len() ==> stands_in_directory(rows, ordered, #[trigger] m.pairs[i])
}

spec fn stands_in_directory(
    rows: Seq<RowModel>,
    ordered: Seq<SessionModel>,
    pair: (Seq<char>, SessionModel),
) -> bool {
    &&& ordered.contains(pair.1)
    &&& exists|r: int|
        0 <= r < rows.len() && (#[trigger] rows[r]).terminal_id == pair.0 && same_place(
            rows[r].working_directory,
            pair.1.cwd,
        )
}

proof fn lemma_titles_place(rows: Seq<RowModel>, m: Matching, ordered: Seq<SessionModel>)
    requires
        m.pairs.len() == 0,
    ensures
        placed_in_directory(rows, match_titles(rows, m, ordered), ordered),
    decreases ordered.len(),
{
    if ordered.len() > 0 {
        let front = ordered.drop_last();
        lemma_titles_place(rows, m, front);
        let before = match_titles(rows, m, front);
        let after = match_titles(rows, m, ordered);
        let s = ordered.last();
        assert(ordered[ordered.len() - 1] == s);
        lemma_first_index(rows, titled_for(before.pairs, s));
        assert forall|i: int| 0 <= i < after.pairs.len() implies stands_in_directory(
            rows,
            ordered,
            #[trigger] after.pairs[i],
        ) by {
            match first_index(rows, titled_for(before.pairs, s)) {
                Some(k) => {
                    assert(titled_for(before.pairs, s)(rows[k]));
                    lemma_give_extends(before, rows[k].terminal_id, s);
                    if i == before.pairs.len() {
                        assert(rows[k].terminal_id == after.pairs[i].0);
                    }
                },
                None => {},
            }
            if i < before.pairs.len() {
                assert(after.pairs[i] == before.pairs[i]);
                assert(stands_in_directory(rows, front, before.pairs[i]));
                let q = choose|q: int| 0 <= q < front.len() && front[q] == before.pairs[i].1;
                assert(ordered[q] == before.pairs[i].1);
            }
        }
    }
}

/// What a pair says, where no terminal has two.
proof fn lemma_shown(pairs: Seq<(Seq<char>, SessionModel)>, i: int)
    requires
        0 <= i < pairs.len(),
        forall|a: int, b: int|
            0 <= a < b < pairs.len() ==> (#[trigger] pairs[a]).0 != (#[trigger] pairs[b]).0,
    ensures
        shown(pairs, pairs[i].0) == Some(pairs[i].1),
    decreases pairs.len(),
{
    if i < pairs.len() - 1 {
        let front = pairs.drop_last();
        assert(pairs[i].0 != pairs[pairs.len() - 1].0);
        assert forall|a: int, b: int| 0 <= a < b < front.len() implies (#[trigger] front[a]).0 != (
        #[trigger] front[b]).0 by {
            assert(pairs[a].0 != pairs[b].0);
        }
        lemma_shown(front, i);
    }
}

/// What is shown is a pair.
proof fn lemma_shown_is_pair(pairs: Seq<(Seq<char>, SessionModel)>, id: Seq<char>)
    requires
        shown(pairs, id) is Some,
    ensures
        exists|i: int|
            0 <= i < pairs.len() && #[trigger] pairs[i] == (id, shown(pairs, id)->0),
    decreases pairs.len(),
{
    if pairs.last().0 == id {
        assert(pairs[pairs.len() - 1] == (id, shown(pairs, id)->0));
    } else {
        lemma_shown_is_pair(pairs.drop_last(), id);
        let i = choose|i: int|
            0 <= i < pairs.drop_last().len() && #[trigger] pairs.drop_last()[i] == (
                id,
                shown(pairs, id)->0,
            );
        assert(pairs[i] == (id, shown(pairs, id)->0));
    }
}

/// A conversation that is alone in its directory is shown by the terminal there whose
/// title is its agent's, where only one has such a title; and by no other terminal,
/// however early that was captured.
pub proof fn the_titled_terminal_shows_the_conversation(
    rows: Seq<RowModel>,
    sessions: Seq<SessionModel>,
    history: Seq<SnapshotModel>,
    k: int,
    j: int,
)
    requires
        distinct_terminals(rows),
        distinct_conversations(sessions),
        0 <= k < sessions.len(),
        0 <= j < rows.len(),
        forall|i: int|
            0 <= i < sessions.len() && i != k ==> !same_place(
                (#[trigger] sessions[i]).cwd,
                sessions[k].cwd,
            ),
        same_place(rows[j].working_directory, sessions[k].cwd),
        is_agent_title(rows[j].terminal_name, sessions[k].cwd, sessions[k].agent),
        forall|i: int|
            0 <= i < rows.len() && i != j && same_place(
                (#[trigger] rows[i]).working_directory,
                sessions[k].cwd,
            ) ==> !is_agent_title(rows[i].terminal_name, sessions[k].cwd, sessions[k].agent),
    ensures
        shown(matching(rows, sessions, history).pairs, rows[j].terminal_id) == Some(sessions[k]),
        forall|i: int|
            0 <= i < rows.len() && i != j ==> shown(
                matching(rows, sessions, history).pairs,
                (#[trigger] rows[i]).terminal_id,
            ) != Some(sessions[k]),
{
    let s = sessions[k];
    let id = rows[j].terminal_id;
    let start = Matching { pairs: Seq::empty(), left: sessions };
    let ordered = sorted_by(sessions, by_agent_and_number());
    lemma_sorted_by_items(sessions, by_agent_and_number());
    assert(sessions.no_duplicates()) by {
        assert forall|a: int, b: int|
            0 <= a < sessions.len() && 0 <= b < sessions.len() && a != b implies sessions[a]
            != sessions[b] by {
            if a < b {
                assert(sessions[a].key() != sessions[b].key());
            } else {
                assert(sessions[b].key() != sessions[a].key());
            }
        }
    }
    lemma_same_items(sessions, ordered);
    assert(sessions.contains(s));
    assert(ordered.contains(s));
    let p = choose|p: int| 0 <= p < ordered.len() && ordered[p] == s;
    let earlier = ordered.take(p);
    let before = match_titles(rows, start, earlier);
    lemma_titles_place(rows, start, earlier);
    assert(!is_taken(before.pairs, id)) by {
        if is_taken(before.pairs, id) {
            let i = choose|i: int| 0 <= i < before.pairs.len() && (#[trigger] before.pairs[i]).0 == id;
            assert(stands_in_directory(rows, earlier, before.pairs[i]));
            let x = before.pairs[i].1;
            let r = choose|r: int|
                0 <= r < rows.len() && (#[trigger] rows[r]).terminal_id == id && same_place(
                    rows[r].working_directory,
                    x.cwd,
                );
            if r < j {
                assert(rows[r].terminal_id != rows[j].terminal_id);
            } else if j < r {
                assert(rows[j].terminal_id != rows[r].terminal_id);
            }
            let q = choose|q: int| 0 <= q < earlier.len() && earlier[q] == x;
            assert(ordered[q] == x && q < p);
            assert(ordered[q] != ordered[p]);
            assert(sessions.contains(ordered[q]));
            let a = choose|a: int| 0 <= a < sessions.len() && sessions[a] == x;
            assert(a != k);
            assert(same_place(sessions[a].cwd, s.cwd));
        }
    }
    let wanted = titled_for(before.pairs, s);
    lemma_first_index(rows, wanted);
    assert(wanted(rows[j]));
    let f = first_index(rows, wanted)->0;
    assert(wanted(rows[f]));
    assert(f == j);
    let after = match_titles(rows, start, ordered.take(p + 1));
    assert(ordered.take(p + 1).drop_last() =~= earlier);
    assert(ordered.take(p + 1).last() == s);
    lemma_give_extends(before, id, s);
    assert(after == give(before, id, s));
    lemma_titles_extend(rows, start, ordered, p + 1);
    let titled = match_titles(rows, start, ordered);
    let placed = match_directories(rows, titled, directories_of(titled.left));
    let named = match_projects(rows, placed, groups_of(placed.left));
    let done = matching(rows, sessions, history);
    lemma_directories_extend(rows, titled, directories_of(titled.left));
    lemma_projects_extend(rows, placed, groups_of(placed.left));
    lemma_earlier_extends(rows, named, named.left, history);
    lemma_extends_trans(after, titled, placed);
    lemma_extends_trans(after, placed, named);
    lemma_extends_trans(after, named, done);
    let at = before.pairs.len() as int;
    assert(after.pairs[at] == (id, s));
    assert(done.pairs.take(after.pairs.len() as int)[at] == (id, s));
    assert(done.pairs[at] == (id, s));
    matching_is_sound(rows, sessions, history);
    lemma_shown(done.pairs, at);
    no_conversation_is_shown_twice(rows, sessions, history);
    assert forall|i: int| 0 <= i < rows.len() && i != j implies shown(
        done.pairs,
        (#[trigger] rows[i]).terminal_id,
    ) != Some(s) by {
        if shown(done.pairs, rows[i].terminal_id) == Some(s) {
            lemma_shown_is_pair(done.pairs, rows[i].terminal_id);
            let b = choose|b: int|
                0 <= b < done.pairs.len() && #[trigger] done.pairs[b] == (rows[i].terminal_id, s);
            if b < at {
                assert(done.pairs[b].1.key() != done.pairs[at].1.key());
            } else if at < b {
                assert(done.pairs[at].1.key() != done.pairs[b].1.key());
            }
            if i < j {
                assert(rows[i].terminal_id != rows[j].terminal_id);
            } else {
                assert(rows[j].terminal_id != rows[i].terminal_id);
            }
        }
    }
}

// ---------------------------------------------------------------------------
// The other steps
// ---------------------------------------------------------------------------
/// Whether the terminal at place `j` is the only one that `wanted` accepts.
pub open spec fn only_at(rows: Seq<RowModel>, wanted: spec_fn(RowModel) -> bool, j: int) -> bool {
    0 <= j < rows.len() && forall|i: int|
        0 <= i < rows.len() ==> (wanted(#[trigger] rows[i]) <==> i == j)
}

/// Whether no terminal is accepted.
pub open spec fn nowhere(rows: Seq<RowModel>, wanted: spec_fn(RowModel) -> bool) -> bool {
    forall|i: int| 0 <= i < rows.len() ==> !wanted(#[trigger] rows[i])
}

proof fn lemma_nowhere(rows: Seq<RowModel>, wanted: spec_fn(RowModel) -> bool)
    requires
        nowhere(rows, wanted),
    ensures
        select(rows, wanted) == Seq::<RowModel>::empty(),
        first_index(rows, wanted) is None,
{
    lemma_select(rows, wanted);
    lemma_first_index(rows, wanted);
    if select(rows, wanted).len() > 0 {
        assert(wanted(select(rows, wanted)[0]));
        assert(rows.contains(select(rows, wanted)[0]));
        let i = choose|i: int| 0 <= i < rows.len() && rows[i] == select(rows, wanted)[0];
        assert(!wanted(rows[i]));
    }
    assert(select(rows, wanted) =~= Seq::empty());
}

proof fn lemma_only_at(rows: Seq<RowModel>, wanted: spec_fn(RowModel) -> bool, j: int)
    requires
        only_at(rows, wanted, j),
    ensures
        select(rows, wanted) == seq![rows[j]],
    decreases rows.len(),
{
    let front = rows.drop_last();
    if j < rows.len() - 1 {
        assert(only_at(front, wanted, j)) by {
            assert forall|i: int| 0 <= i < front.len() implies (wanted(#[trigger] front[i]) <==> i
                == j) by {
                assert(wanted(rows[i]) <==> i == j);
            }
        }
        lemma_only_at(front, wanted, j);
        assert(!wanted(rows[rows.len() - 1]));
    } else {
        assert(nowhere(front, wanted)) by {
            assert forall|i: int| 0 <= i < front.len() implies !wanted(#[trigger] front[i]) by {
                assert(!wanted(rows[i]));
            }
        }
        lemma_nowhere(front, wanted);
        assert(wanted(rows[j]));
        assert(Seq::<RowModel>::empty().push(rows[j]) =~= seq![rows[j]]);
    }
}

/// The terminals of a directory.
pub open spec fn of_directory(cwd: Seq<char>) -> spec_fn(RowModel) -> bool {
    |r: RowModel| same_place(r.working_directory, cwd)
}

/// The terminals of a directory with a title of the session's agent.
pub open spec fn with_title_of(s: SessionModel) -> spec_fn(RowModel) -> bool {
    |r: RowModel|
        same_place(r.working_directory, s.cwd) && is_agent_title(r.terminal_name, s.cwd, s.agent)
}

/// The terminals without a directory whose title names the session's project.
pub open spec fn naming(s: SessionModel) -> spec_fn(RowModel) -> bool {
    |r: RowModel|
        r.working_directory.len() == 0 && names_project(r.terminal_name, s.cwd, s.agent)
}

/// The terminals without a directory whose title is `title`, but for a sign of
/// activity.
pub open spec fn retitled(title: Seq<char>) -> spec_fn(RowModel) -> bool {
    |r: RowModel|
        r.working_directory.len() == 0 && lasting_title(r.terminal_name) == lasting_title(title)
}

proof fn lemma_sort_one(s: SessionModel, before: spec_fn(SessionModel, SessionModel) -> bool)
    ensures
        sorted_by(seq![s], before) == seq![s],
{
    assert(seq![s].drop_last() =~= Seq::empty());
    assert(sorted_by(Seq::<SessionModel>::empty(), before) =~= Seq::empty());
    assert(sorted_by(seq![s], before) =~= seq![s]);
}

proof fn lemma_select_one(s: SessionModel, keep: spec_fn(SessionModel) -> bool)
    ensures
        select(seq![s], keep) == if keep(s) {
            seq![s]
        } else {
            Seq::empty()
        },
{
    assert(seq![s].drop_last() =~= Seq::empty());
    assert(select(Seq::<SessionModel>::empty(), keep) =~= Seq::empty());
    assert(Seq::<SessionModel>::empty().push(s) =~= seq![s]);
}

proof fn lemma_select_agree(
    rows: Seq<RowModel>,
    a: spec_fn(RowModel) -> bool,
    b: spec_fn(RowModel) -> bool,
)
    requires
        forall|r: RowModel| #[trigger] a(r) == b(r),
    ensures
        select(rows, a) == select(rows, b),
        first_index(rows, a) == first_index(rows, b),
    decreases rows.len(),
{
    if rows.len() > 0 {
        lemma_select_agree(rows.drop_last(), a, b);
        assert(a(rows.last()) == b(rows.last()));
    }
}

/// What is left of nothing is nothing.
proof fn lemma_nothing_left(
    rows: Seq<RowModel>,
    m: Matching,
    history: Seq<SnapshotModel>,
)
    requires
        m.left.len() == 0,
    ensures
        match_directories(rows, m, directories_of(m.left)) == m,
        match_projects(rows, m, groups_of(m.left)) == m,
        match_earlier_all(rows, m, m.left, history) == m,
{
    let f = |s: SessionModel| (Agent::Amp, s.cwd);
    let g = |s: SessionModel| (s.agent, s.cwd);
    assert(m.left.map_values(f).len() == 0);
    assert(m.left.map_values(g).len() == 0);
    assert(directories_of(m.left) =~= Seq::empty());
    assert(groups_of(m.left) =~= Seq::empty());
}

/// One session, alone.
proof fn lemma_one(rows: Seq<RowModel>, s: SessionModel)
    ensures
        ({
            let start = Matching { pairs: Seq::empty(), left: seq![s] };
            &&& sorted_by(seq![s], by_agent_and_number()) == seq![s]
            &&& match_titles(rows, start, seq![s]) == match_title(rows, start, s)
            &&& directories_of(seq![s]) == seq![(Agent::Amp, s.cwd)]
            &&& groups_of(seq![s]) == seq![(s.agent, s.cwd)]
            &&& match_directories(rows, start, seq![(Agent::Amp, s.cwd)]) == match_directory(
                rows,
                start,
                s.cwd,
            )
            &&& match_projects(rows, start, seq![(s.agent, s.cwd)]) == match_project(
                rows,
                start,
                (s.agent, s.cwd),
            )
            &&& select(seq![s], other_than(s.key())) == Seq::<SessionModel>::empty()
            &&& forall|id: Seq<char>| !#[trigger] is_taken(start.pairs, id)
        }),
{
    let start = Matching { pairs: Seq::empty(), left: seq![s] };
    lemma_sort_one(s, by_agent_and_number());
    assert(seq![s].drop_last() =~= Seq::empty());
    let f = |s: SessionModel| (Agent::Amp, s.cwd);
    let g = |s: SessionModel| (s.agent, s.cwd);
    let d = (Agent::Amp, s.cwd);
    let e = (s.agent, s.cwd);
    assert(seq![s].map_values(f) =~= seq![d]);
    assert(seq![s].map_values(g) =~= seq![e]);
    assert(seq![d].drop_last() =~= Seq::empty());
    assert(seq![e].drop_last() =~= Seq::empty());
    assert(ordered_set(Seq::<(Agent, Seq<char>)>::empty(), by_agent_and_directory())
        =~= Seq::empty());
    assert(directories_of(seq![s]) =~= seq![d]);
    assert(groups_of(seq![s]) =~= seq![e]);
    lemma_select_one(s, other_than(s.key()));
    assert(seq![s].last() == s && seq![d].last() == d && seq![e].last() == e);
    assert(match_titles(rows, start, Seq::empty()) == start);
    assert(match_titles(rows, start, seq![s]) == match_title(rows, start, s));
    assert(match_directories(rows, start, Seq::empty()) == start);
    assert(match_directories(rows, start, seq![d]) == match_directory(rows, start, s.cwd));
    assert(match_projects(rows, start, Seq::empty()) == start);
    assert(match_projects(rows, start, seq![e]) == match_project(rows, start, e));
}

/// Where a lone conversation is not given by its title.
proof fn lemma_one_untitled(rows: Seq<RowModel>, s: SessionModel)
    requires
        nowhere(rows, with_title_of(s)),
    ensures
        ({
            let start = Matching { pairs: Seq::empty(), left: seq![s] };
            match_titles(rows, start, sorted_by(seq![s], by_agent_and_number())) == start
        }),
{
    let start = Matching { pairs: Seq::empty(), left: seq![s] };
    lemma_one(rows, s);
    lemma_select_agree(rows, titled_for(start.pairs, s), with_title_of(s));
    lemma_nowhere(rows, with_title_of(s));
}

/// What stays where a lone conversation finds no terminal in its directory.
proof fn lemma_one_elsewhere(rows: Seq<RowModel>, s: SessionModel)
    requires
        nowhere(rows, of_directory(s.cwd)),
    ensures
        ({
            let start = Matching { pairs: Seq::empty(), left: seq![s] };
            &&& match_titles(rows, start, sorted_by(seq![s], by_agent_and_number())) == start
            &&& match_directories(rows, start, directories_of(seq![s])) == start
        }),
{
    let start = Matching { pairs: Seq::empty(), left: seq![s] };
    assert(nowhere(rows, with_title_of(s))) by {
        assert forall|i: int| 0 <= i < rows.len() implies !with_title_of(s)(
            #[trigger] rows[i],
        ) by {
            assert(!of_directory(s.cwd)(rows[i]));
        }
    }
    lemma_one_untitled(rows, s);
    lemma_one(rows, s);
    lemma_select_agree(rows, free_in(start.pairs, s.cwd), of_directory(s.cwd));
    lemma_nowhere(rows, of_directory(s.cwd));
}

/// A lone conversation whose agent shows in no title of its directory goes to the
/// first terminal of that directory.
pub proof fn a_lone_conversation_goes_to_its_directory(
    rows: Seq<RowModel>,
    s: SessionModel,
    history: Seq<SnapshotModel>,
    j: int,
)
    requires
        0 <= j < rows.len(),
        same_place(rows[j].working_directory, s.cwd),
        forall|i: int|
            0 <= i < j ==> !same_place((#[trigger] rows[i]).working_directory, s.cwd),
        nowhere(rows, with_title_of(s)),
    ensures
        matching(rows, seq![s], history).pairs == seq![(rows[j].terminal_id, s)],
        matching(rows, seq![s], history).left.len() == 0,
{
    let start = Matching { pairs: Seq::empty(), left: seq![s] };
    lemma_one(rows, s);
    lemma_one_untitled(rows, s);
    lemma_select_one(s, in_directory(s.cwd));
    lemma_sort_one(s, by_number());
    lemma_select_agree(rows, free_in(start.pairs, s.cwd), of_directory(s.cwd));
    let free = select(rows, of_directory(s.cwd));
    lemma_first_selected(rows, of_directory(s.cwd), j);
    assert(!mixed(seq![s]));
    let given = give(start, rows[j].terminal_id, s);
    assert(pair_up(start, seq![s], free, 0) == start);
    assert(pair_up(start, seq![s], free, 1) == given);
    lemma_give_extends(start, rows[j].terminal_id, s);
    assert(given.pairs =~= seq![(rows[j].terminal_id, s)]);
    assert(match_directory(rows, start, s.cwd) == given);
    lemma_nothing_left(rows, given, history);
}

/// The first item that is accepted is selected first.
proof fn lemma_first_selected(rows: Seq<RowModel>, wanted: spec_fn(RowModel) -> bool, j: int)
    requires
        0 <= j < rows.len(),
        wanted(rows[j]),
        forall|i: int| 0 <= i < j ==> !wanted(#[trigger] rows[i]),
    ensures
        select(rows, wanted).len() > 0,
        select(rows, wanted)[0] == rows[j],
    decreases rows.len(),
{
    let front = rows.drop_last();
    if j < rows.len() - 1 {
        assert forall|i: int| 0 <= i < j implies !wanted(#[trigger] front[i]) by {
            assert(!wanted(rows[i]));
        }
        lemma_first_selected(front, wanted, j);
    } else {
        assert(nowhere(front, wanted)) by {
            assert forall|i: int| 0 <= i < front.len() implies !wanted(#[trigger] front[i]) by {
                assert(!wanted(rows[i]));
            }
        }
        lemma_nowhere(front, wanted);
    }
}

/// A lone conversation that has no terminal in its directory goes to the one terminal
/// without a directory whose title names its project.
pub proof fn a_lone_conversation_goes_where_its_project_is_named(
    rows: Seq<RowModel>,
    s: SessionModel,
    history: Seq<SnapshotModel>,
    j: int,
)
    requires
        nowhere(rows, of_directory(s.cwd)),
        only_at(rows, naming(s), j),
    ensures
        matching(rows, seq![s], history).pairs == seq![(rows[j].terminal_id, s)],
        matching(rows, seq![s], history).left.len() == 0,
{
    let start = Matching { pairs: Seq::empty(), left: seq![s] };
    lemma_one(rows, s);
    lemma_one_elsewhere(rows, s);
    lemma_select_one(s, in_group(s.agent, s.cwd));
    lemma_select_agree(rows, blank_named(start.pairs, s.cwd, s.agent), naming(s));
    lemma_only_at(rows, naming(s), j);
    let given = give(start, rows[j].terminal_id, s);
    lemma_give_extends(start, rows[j].terminal_id, s);
    assert(given.pairs =~= seq![(rows[j].terminal_id, s)]);
    assert(match_project(rows, start, (s.agent, s.cwd)) == given);
    lemma_nothing_left(rows, given, history);
}

/// A lone conversation whose project no title names goes to the one terminal without
/// a directory that has the title under which it was saved before.
pub proof fn a_lone_conversation_goes_where_it_was(
    rows: Seq<RowModel>,
    s: SessionModel,
    history: Seq<SnapshotModel>,
    title: Seq<char>,
    j: int,
)
    requires
        nowhere(rows, of_directory(s.cwd)),
        nowhere(rows, naming(s)),
        earlier_title(history, s.key()) == Some(title),
        only_at(rows, retitled(title), j),
    ensures
        matching(rows, seq![s], history).pairs == seq![(rows[j].terminal_id, s)],
        matching(rows, seq![s], history).left.len() == 0,
{
    let start = Matching { pairs: Seq::empty(), left: seq![s] };
    lemma_one(rows, s);
    lemma_one_elsewhere(rows, s);
    lemma_select_one(s, in_group(s.agent, s.cwd));
    lemma_select_agree(rows, blank_named(start.pairs, s.cwd, s.agent), naming(s));
    lemma_nowhere(rows, naming(s));
    assert(match_project(rows, start, (s.agent, s.cwd)) == start);
    lemma_select_agree(rows, blank_titled(start.pairs, title), retitled(title));
    lemma_only_at(rows, retitled(title), j);
    let given = give(start, rows[j].terminal_id, s);
    lemma_give_extends(start, rows[j].terminal_id, s);
    assert(given.pairs =~= seq![(rows[j].terminal_id, s)]);
    assert(seq![s].drop_last() =~= Seq::empty());
    assert(match_earlier_all(rows, start, Seq::empty(), history) == start);
    assert(match_earlier_all(rows, start, seq![s], history) == match_earlier(
        rows,
        start,
        s,
        history,
    ));
}

/// A conversation is not guessed into a terminal: with none in its directory, and
/// none without a directory whose title names its project or is its earlier one, it
/// stays where it is.
pub proof fn a_conversation_is_not_guessed(
    rows: Seq<RowModel>,
    s: SessionModel,
    history: Seq<SnapshotModel>,
)
    requires
        nowhere(rows, of_directory(s.cwd)),
        forall|i: int|
            0 <= i < rows.len() && (#[trigger] rows[i]).working_directory.len() == 0
                ==> !names_project(rows[i].terminal_name, s.cwd, s.agent) && (earlier_title(
                history,
                s.key(),
            ) matches Some(title) ==> lasting_title(rows[i].terminal_name) != lasting_title(
                title,
            )),
    ensures
        matching(rows, seq![s], history).pairs.len() == 0,
        matching(rows, seq![s], history).left == seq![s],
{
    let start = Matching { pairs: Seq::empty(), left: seq![s] };
    lemma_one(rows, s);
    lemma_one_elsewhere(rows, s);
    lemma_select_one(s, in_group(s.agent, s.cwd));
    lemma_select_agree(rows, blank_named(start.pairs, s.cwd, s.agent), naming(s));
    assert(nowhere(rows, naming(s)));
    lemma_nowhere(rows, naming(s));
    assert(match_project(rows, start, (s.agent, s.cwd)) == start);
    match earlier_title(history, s.key()) {
        Some(title) => {
            lemma_select_agree(rows, blank_titled(start.pairs, title), retitled(title));
            assert(nowhere(rows, retitled(title)));
            lemma_nowhere(rows, retitled(title));
        },
        None => {},
    }
    assert(seq![s].drop_last() =~= Seq::empty());
    assert(match_earlier_all(rows, start, Seq::empty(), history) == start);
    assert(match_earlier(rows, start, s, history) == start);
}

// ---------------------------------------------------------------------------
// Several conversations in one directory
// ---------------------------------------------------------------------------
/// In a directory with conversations of different agents, none is given by the
/// directory alone.
pub proof fn mixed_directories_are_not_guessed(
    rows: Seq<RowModel>,
    m: Matching,
    cwd: Seq<char>,
    a: int,
    b: int,
)
    requires
        0 <= a < m.left.len(),
        0 <= b < m.left.len(),
        same_place(m.left[a].cwd, cwd),
        same_place(m.left[b].cwd, cwd),
        m.left[a].agent != m.left[b].agent,
    ensures
        match_directory(rows, m, cwd) == m,
{
    let here = select(m.left, in_directory(cwd));
    lemma_select(m.left, in_directory(cwd));
    assert(in_directory(cwd)(m.left[a]) && in_directory(cwd)(m.left[b]));
    assert(here.contains(m.left[a]) && here.contains(m.left[b]));
    let p = choose|p: int| 0 <= p < here.len() && here[p] == m.left[a];
    let q = choose|q: int| 0 <= q < here.len() && here[q] == m.left[b];
    if here[p].agent != here[0].agent {
        assert(0 < p);
    } else {
        assert(0 < q && here[q].agent != here[0].agent);
    }
}

/// In a directory with conversations of one agent, the terminals are given in the
/// order in which they were captured, to the conversations in the order of the
/// numbers of their own terminals.
pub proof fn directories_are_dealt_in_order(
    rows: Seq<RowModel>,
    m: Matching,
    cwd: Seq<char>,
    n: int,
)
    requires
        distinct_terminals(rows),
        !mixed(select(m.left, in_directory(cwd))),
        0 <= n < select(m.left, in_directory(cwd)).len(),
        n < select(rows, free_in(m.pairs, cwd)).len(),
    ensures
        match_directory(rows, m, cwd).pairs.len() > m.pairs.len() + n,
        match_directory(rows, m, cwd).pairs[m.pairs.len() + n].0 == select(
            rows,
            free_in(m.pairs, cwd),
        )[n].terminal_id,
        n > 0 ==> terminal_number(
            match_directory(rows, m, cwd).pairs[m.pairs.len() + n - 1].1.tty,
        ) <= terminal_number(match_directory(rows, m, cwd).pairs[m.pairs.len() + n].1.tty),
{
    let here = select(m.left, in_directory(cwd));
    let ordered = sorted_by(here, by_number());
    let free = select(rows, free_in(m.pairs, cwd));
    lemma_directory_parts(rows, m, cwd);
    lemma_select_distinct(rows, free_in(m.pairs, cwd));
    let all = fewer(ordered.len(), free.len());
    lemma_pair_up_pairs(m, ordered, free, all);
    sorting_orders(here, by_number());
    let done = match_directory(rows, m, cwd);
    assert(done.pairs[m.pairs.len() + n] == (free[n].terminal_id, ordered[n]));
    if n > 0 {
        assert(!by_number()(ordered[n], ordered[n - 1]));
        assert(done.pairs[m.pairs.len() + (n - 1)] == (free[n - 1].terminal_id, ordered[n - 1]));
    }
}

proof fn lemma_pair_up_pairs(
    m: Matching,
    ordered: Seq<SessionModel>,
    free: Seq<RowModel>,
    n: nat,
)
    requires
        distinct_terminals(free),
        n <= free.len(),
        n <= ordered.len(),
        forall|k: int| 0 <= k < free.len() ==> !is_taken(m.pairs, (#[trigger] free[k]).terminal_id),
    ensures
        pair_up(m, ordered, free, n).pairs.len() == m.pairs.len() + n,
        forall|i: int|
            0 <= i < n ==> pair_up(m, ordered, free, n).pairs[#[trigger] (m.pairs.len() + i)] == (
                free[i].terminal_id,
                ordered[i],
            ),
    decreases n,
{
    if n > 0 {
        let p = (n - 1) as nat;
        lemma_pair_up_pairs(m, ordered, free, p);
        assert(!is_taken(m.pairs, free[n - 1].terminal_id));
        lemma_pair_up_free(m, ordered, free, p, n - 1);
        let before = pair_up(m, ordered, free, p);
        lemma_give_extends(before, free[n - 1].terminal_id, ordered[n - 1]);
    }
}

/// The number of a terminal is the one at the end of its name, whatever comes before;
/// without one it is a million.
pub proof fn terminals_are_numbered_by_their_names(prefix: Seq<char>, n: nat)
    requires
        prefix.len() == 0 || !is_digit(prefix.last()),
        n <= u32::MAX,
    ensures
        terminal_number(prefix + decimal(n)) == n,
        terminal_number(prefix) == 1_000_000,
{
    lemma_decimal_digits(n);
    lemma_trailing(prefix, decimal(n));
    lemma_trailing(prefix, Seq::empty());
    assert(prefix + Seq::<char>::empty() =~= prefix);
    decimal_reads_back(n, u32::MAX as nat);
}

proof fn lemma_trailing(prefix: Seq<char>, digits: Seq<char>)
    requires
        prefix.len() == 0 || !is_digit(prefix.last()),
        forall|i: int| 0 <= i < digits.len() ==> is_digit(#[trigger] digits[i]),
    ensures
        trailing_digits(prefix + digits) == digits,
    decreases digits.len(),
{
    if digits.len() == 0 {
        assert(prefix + digits =~= prefix);
        assert(trailing_digits(prefix) =~= digits);
    } else {
        let front = digits.drop_last();
        assert forall|i: int| 0 <= i < front.len() implies is_digit(#[trigger] front[i]) by {
            assert(is_digit(digits[i]));
        }
        lemma_trailing(prefix, front);
        assert(is_digit(digits[digits.len() - 1]));
        assert((prefix + digits).drop_last() =~= prefix + front);
        assert(trailing_digits(prefix + digits) =~= digits);
    }
}

// ---------------------------------------------------------------------------
// Earlier titles
// ---------------------------------------------------------------------------
/// The title under which a conversation was saved is that of the first terminal that
/// held it and had a title.
pub proof fn the_first_titled_terminal_tells(
    before: Seq<TerminalModel>,
    terminal: TerminalModel,
    after: Seq<TerminalModel>,
    key: KeyModel,
)
    requires
        terminal.session() == Some(key),
        terminal.name.len() > 0,
        forall|i: int|
            0 <= i < before.len() ==> (#[trigger] before[i]).session() != Some(key)
                || before[i].name.len() == 0,
    ensures
        name_among(before + seq![terminal] + after, key) == Some(terminal.name),
        name_among(before, key) is None,
    decreases before.len() + after.len(),
{
    let all = before + seq![terminal] + after;
    lemma_no_name(before, key);
    if after.len() > 0 {
        the_first_titled_terminal_tells(before, terminal, after.drop_last(), key);
        assert(all.drop_last() =~= before + seq![terminal] + after.drop_last());
    } else {
        assert(all.drop_last() =~= before);
        assert(all.last() == terminal);
    }
}

proof fn lemma_no_name(before: Seq<TerminalModel>, key: KeyModel)
    requires
        forall|i: int|
            0 <= i < before.len() ==> (#[trigger] before[i]).session() != Some(key)
                || before[i].name.len() == 0,
    ensures
        name_among(before, key) is None,
    decreases before.len(),
{
    if before.len() > 0 {
        let front = before.drop_last();
        assert forall|i: int| 0 <= i < front.len() implies (#[trigger] front[i]).session() != Some(
            key,
        ) || front[i].name.len() == 0 by {
            assert(before[i].session() != Some(key) || before[i].name.len() == 0);
        }
        lemma_no_name(front, key);
        assert(before[before.len() - 1] == before.last());
    }
}

/// A newer snapshot tells before the older ones: only where it does not know the
/// conversation do they.
pub proof fn newer_snapshots_tell_first(
    newest: SnapshotModel,
    older: Seq<SnapshotModel>,
    key: KeyModel,
)
    ensures
        earlier_title(seq![newest] + older, key) == match name_among(newest.terminals(), key) {
            Some(title) => Some(title),
            None => earlier_title(older, key),
        },
    decreases older.len(),
{
    let f = |s: SnapshotModel| s.terminals();
    let all = seq![newest] + older;
    if older.len() == 0 {
        assert(all.map_values(f).drop_last() =~= Seq::empty());
        assert(all.map_values(f).last() == newest.terminals());
        assert(flat(Seq::<Seq<TerminalModel>>::empty()) =~= Seq::<TerminalModel>::empty());
        assert(terminals_of(all) =~= newest.terminals());
        assert(older.map_values(f) =~= Seq::empty());
        assert(terminals_of(older) =~= Seq::empty());
    } else {
        newer_snapshots_tell_first(newest, older.drop_last(), key);
        let last = older.last().terminals();
        assert(all.map_values(f).drop_last() =~= (seq![newest] + older.drop_last()).map_values(f));
        assert(older.map_values(f).drop_last() =~= older.drop_last().map_values(f));
        lemma_name_concat(terminals_of(seq![newest] + older.drop_last()), last, key);
        lemma_name_concat(terminals_of(older.drop_last()), last, key);
    }
}

proof fn lemma_name_concat(a: Seq<TerminalModel>, b: Seq<TerminalModel>, key: KeyModel)
    ensures
        name_among(a + b, key) == match name_among(a, key) {
            Some(name) => Some(name),
            None => name_among(b, key),
        },
    decreases b.len(),
{
    if b.len() == 0 {
        assert(a + b =~= a);
    } else {
        lemma_name_concat(a, b.drop_last(), key);
        assert((a + b).drop_last() =~= a + b.drop_last());
    }
}

// ---------------------------------------------------------------------------
// Warnings
// ---------------------------------------------------------------------------
/// A warning tells the agent, the conversation, its terminal, its directory and the
/// reason, and that it will not resume.
pub proof fn warnings_tell_everything(s: SessionModel, reason: Seq<char>)
    ensures
        contains(warning_text(s, reason), agent_label(s.agent) + " "@ + agent_unit(s.agent)),
        contains(warning_text(s, reason), " "@ + s.session_id + " on "@ + s.tty + " in "@ + s.cwd),
        contains(warning_text(s, reason), " was not matched: "@ + reason),
        contains(warning_text(s, reason), "it will not auto-resume"@),
{
    let w = warning_text(s, reason);
    let one = agent_label(s.agent) + " "@ + agent_unit(s.agent);
    let two = " "@ + s.session_id + " on "@ + s.tty + " in "@ + s.cwd;
    let three = " was not matched: "@ + reason;
    let four = "; it will not auto-resume"@;
    let none = Seq::<char>::empty();
    assert(w =~= none + one + (two + three + four));
    parts_are_found(none, one, two + three + four);
    assert(w =~= one + two + (three + four));
    parts_are_found(one, two, three + four);
    assert(w =~= (one + two) + three + four);
    parts_are_found(one + two, three, four);
    reveal_strlit("; it will not auto-resume");
    reveal_strlit("it will not auto-resume");
    assert(four =~= "; "@ + "it will not auto-resume"@) by {
        reveal_strlit("; ");
    }
    assert(w =~= (one + two + three + "; "@) + "it will not auto-resume"@);
    parts_are_found(one + two + three + "; "@, "it will not auto-resume"@, none);
}

/// Without `warn_for_all`, a session that is left is warned of exactly where a free
/// terminal without a directory has a title that names its project.
pub proof fn warnings_are_only_where_a_terminal_may_be(rows: Seq<RowModel>, m: Matching, n: nat)
    requires
        n < m.left.len(),
    ensures
        warnings_for(rows, m, false, n + 1).len() == warnings_for(rows, m, false, n).len() + (
        if exists|i: int|
            0 <= i < rows.len() && !is_taken(m.pairs, (#[trigger] rows[i]).terminal_id)
                && rows[i].working_directory.len() == 0 && names_project(
                rows[i].terminal_name,
                m.left[n as int].cwd,
                m.left[n as int].agent,
            ) {
            1nat
        } else {
            0nat
        }),
        warnings_for(rows, m, true, n + 1).last() == warning_text(
            m.left[n as int],
            reason_for(rows, m, m.left[n as int]),
        ),
{
    let s = m.left[n as int];
    let wanted = blank_named(m.pairs, s.cwd, s.agent);
    lemma_select(rows, wanted);
    if exists|i: int|
        0 <= i < rows.len() && !is_taken(m.pairs, (#[trigger] rows[i]).terminal_id)
            && rows[i].working_directory.len() == 0 && names_project(
            rows[i].terminal_name,
            s.cwd,
            s.agent,
        ) {
        let i = choose|i: int|
            0 <= i < rows.len() && !is_taken(m.pairs, (#[trigger] rows[i]).terminal_id)
                && rows[i].working_directory.len() == 0 && names_project(
                rows[i].terminal_name,
                s.cwd,
                s.agent,
            );
        assert(wanted(rows[i]));
        assert(select(rows, wanted).contains(rows[i]));
    } else {
        assert(nowhere(rows, wanted));
        lemma_nowhere(rows, wanted);
    }
}

/// Why a conversation was left: other agents share its directory, where a terminal of
/// it is free; several titles name its project; or nothing points to a terminal.
pub proof fn reasons_are_told(rows: Seq<RowModel>, m: Matching, s: SessionModel, a: int, b: int)
    requires
        0 <= a < rows.len(),
        0 <= b < rows.len(),
    ensures
        !is_taken(m.pairs, rows[a].terminal_id) && same_place(rows[a].working_directory, s.cwd) && (
        exists|i: int|
            0 <= i < m.left.len() && (#[trigger] m.left[i]).agent != s.agent && same_place(
                m.left[i].cwd,
                s.cwd,
            )) ==> reason_for(rows, m, s)
            == "multiple agent types share this directory and terminal titles do not identify them"@,
        a < b && blank_named(m.pairs, s.cwd, s.agent)(rows[a]) && blank_named(
            m.pairs,
            s.cwd,
            s.agent,
        )(rows[b]) && (forall|i: int|
            0 <= i < m.left.len() ==> (#[trigger] m.left[i]).agent == s.agent) ==> reason_for(
            rows,
            m,
            s,
        ) == "multiple blank-directory Ghostty terminals have matching project titles"@,
        nowhere(rows, of_directory(s.cwd)) && nowhere(rows, naming(s)) ==> reason_for(rows, m, s)
            == "Ghostty exposed no terminal with that directory, a unique matching project title, or a unique prior session title"@,
{
    let wanted = blank_named(m.pairs, s.cwd, s.agent);
    if !is_taken(m.pairs, rows[a].terminal_id) && same_place(rows[a].working_directory, s.cwd) {
        assert(free_in(m.pairs, s.cwd)(rows[a]));
    }
    if a < b && wanted(rows[a]) && wanted(rows[b]) {
        lemma_select_at(rows, wanted, a);
        lemma_select_at(rows, wanted, b);
        lemma_select_prefix(rows.take(b), wanted, a + 1);
        assert(rows.take(b).take(a + 1) =~= rows.take(a + 1));
        assert(rows.take(a + 1).drop_last() =~= rows.take(a));
        assert(rows.take(a + 1).last() == rows[a]);
        assert(select(rows, wanted).len() > 1);
    }
    if nowhere(rows, of_directory(s.cwd)) && nowhere(rows, naming(s)) {
        assert forall|i: int| 0 <= i < rows.len() implies !free_in(m.pairs, s.cwd)(
            #[trigger] rows[i],
        ) by {
            assert(!of_directory(s.cwd)(rows[i]));
        }
        assert(nowhere(rows, wanted)) by {
            assert forall|i: int| 0 <= i < rows.len() implies !wanted(#[trigger] rows[i]) by {
                assert(!naming(s)(rows[i]));
            }
        }
        lemma_nowhere(rows, wanted);
    }
}

// ---------------------------------------------------------------------------
// What is not decided, and in which order
// ---------------------------------------------------------------------------
/// Two items that are accepted are both selected.
proof fn lemma_two_selected<T>(s: Seq<T>, wanted: spec_fn(T) -> bool, a: int, b: int)
    requires
        0 <= a < b < s.len(),
        wanted(s[a]),
        wanted(s[b]),
    ensures
        select(s, wanted).len() > 1,
{
    lemma_select_at(s, wanted, a);
    lemma_select_at(s, wanted, b);
    lemma_select_prefix(s.take(b), wanted, a + 1);
    assert(s.take(b).take(a + 1) =~= s.take(a + 1));
    assert(s.take(a + 1).drop_last() =~= s.take(a));
    assert(s.take(a + 1).last() == s[a]);
}

/// Where the titles of two terminals name a project, or two conversations of one agent
/// are left in its directory, none of the terminals gets one of the conversations.
pub proof fn several_projects_are_not_guessed(
    rows: Seq<RowModel>,
    m: Matching,
    agent: Agent,
    cwd: Seq<char>,
    a: int,
    b: int,
)
    requires
        0 <= a < b,
        b < rows.len() && blank_named(m.pairs, cwd, agent)(rows[a]) && blank_named(
            m.pairs,
            cwd,
            agent,
        )(rows[b]) || b < m.left.len() && m.left[a].agent == agent && m.left[b].agent == agent
            && same_place(m.left[a].cwd, cwd) && same_place(m.left[b].cwd, cwd),
    ensures
        match_project(rows, m, (agent, cwd)) == m,
{
    let wanted = blank_named(m.pairs, cwd, agent);
    let among = in_group(agent, cwd);
    if b < rows.len() && wanted(rows[a]) && wanted(rows[b]) {
        lemma_two_selected(rows, wanted, a, b);
    } else {
        assert(among(m.left[a]) && among(m.left[b]));
        lemma_two_selected(m.left, among, a, b);
    }
}

/// Where two terminals have the title under which a conversation was saved before, none
/// of them gets it.
pub proof fn several_titles_are_not_guessed(
    rows: Seq<RowModel>,
    m: Matching,
    s: SessionModel,
    history: Seq<SnapshotModel>,
    title: Seq<char>,
    a: int,
    b: int,
)
    requires
        0 <= a < b < rows.len(),
        earlier_title(history, s.key()) == Some(title),
        blank_titled(m.pairs, title)(rows[a]),
        blank_titled(m.pairs, title)(rows[b]),
    ensures
        match_earlier(rows, m, s, history) == m,
{
    lemma_two_selected(rows, blank_titled(m.pairs, title), a, b);
}

/// A lone conversation that two terminals without a directory may show, by the name of
/// its project, is left, where it was not saved before.
pub proof fn a_lone_conversation_is_not_guessed_among_several(
    rows: Seq<RowModel>,
    s: SessionModel,
    history: Seq<SnapshotModel>,
    a: int,
    b: int,
)
    requires
        0 <= a < b < rows.len(),
        nowhere(rows, of_directory(s.cwd)),
        naming(s)(rows[a]),
        naming(s)(rows[b]),
        earlier_title(history, s.key()) is None,
    ensures
        matching(rows, seq![s], history).pairs.len() == 0,
        matching(rows, seq![s], history).left == seq![s],
{
    let start = Matching { pairs: Seq::empty(), left: seq![s] };
    lemma_one(rows, s);
    lemma_one_elsewhere(rows, s);
    lemma_select_agree(rows, blank_named(start.pairs, s.cwd, s.agent), naming(s));
    lemma_two_selected(rows, naming(s), a, b);
    assert(match_project(rows, start, (s.agent, s.cwd)) == start);
    assert(seq![s].drop_last() =~= Seq::empty());
    assert(match_earlier_all(rows, start, Seq::empty(), history) == start);
    assert(match_earlier(rows, start, s, history) == start);
}

/// Whether `a` is told before `b`: conversations of Amp before those of Codex.
pub open spec fn amp_before_codex(a: Agent, b: Agent) -> bool {
    a == Agent::Amp && b == Agent::Codex
}

/// By their titles the conversations of Amp are matched before those of Codex, and
/// those of one agent by the numbers of their terminals.
pub proof fn conversations_are_matched_in_order(sessions: Seq<SessionModel>, i: int, j: int)
    requires
        0 <= i < j < sessions.len(),
    ensures
        ({
            let order = sorted_by(sessions, by_agent_and_number());
            &&& !amp_before_codex(order[j].agent, order[i].agent)
            &&& order[i].agent == order[j].agent ==> terminal_number(order[i].tty)
                <= terminal_number(order[j].tty)
        }),
{
    let before = by_agent_and_number();
    assert(orders(before));
    sorting_orders(sessions, before);
    let order = sorted_by(sessions, before);
    assert(!before(order[j], order[i]));
}

} // verus!
