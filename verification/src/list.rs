//! Selecting, ordering and grouping the items of a sequence.
use vstd::prelude::*;

verus! {

/// The items of `s` that `keep` accepts, in order.
pub open spec fn select<T>(s: Seq<T>, keep: spec_fn(T) -> bool) -> Seq<T>
    decreases s.len(),
{
    if s.len() == 0 {
        Seq::empty()
    } else if keep(s.last()) {
        select(s.drop_last(), keep).push(s.last())
    } else {
        select(s.drop_last(), keep)
    }
}

/// Where the first item of `s` stands that `wanted` accepts.
pub open spec fn first_index<T>(s: Seq<T>, wanted: spec_fn(T) -> bool) -> Option<int>
    decreases s.len(),
{
    if s.len() == 0 {
        None
    } else {
        match first_index(s.drop_last(), wanted) {
            Some(i) => Some(i),
            None => if wanted(s.last()) {
                Some(s.len() - 1)
            } else {
                None
            },
        }
    }
}

/// Where the last item of `s` stands that `wanted` accepts.
pub open spec fn last_index<T>(s: Seq<T>, wanted: spec_fn(T) -> bool) -> Option<int>
    decreases s.len(),
{
    if s.len() == 0 {
        None
    } else if wanted(s.last()) {
        Some(s.len() - 1)
    } else {
        last_index(s.drop_last(), wanted)
    }
}

/// The sequences of `s` one after the other.
pub open spec fn flat<T>(s: Seq<Seq<T>>) -> Seq<T>
    decreases s.len(),
{
    if s.len() == 0 {
        Seq::empty()
    } else {
        flat(s.drop_last()) + s.last()
    }
}

/// `sorted` with `x` put behind the items that it does not come before.
pub open spec fn insert_by<T>(sorted: Seq<T>, x: T, before: spec_fn(T, T) -> bool) -> Seq<T>
    decreases sorted.len(),
{
    if sorted.len() > 0 && before(x, sorted.last()) {
        insert_by(sorted.drop_last(), x, before).push(sorted.last())
    } else {
        sorted.push(x)
    }
}

/// `s` in the order that `before` gives; items that it does not tell apart stay
/// in the order in which they stand.
pub open spec fn sorted_by<T>(s: Seq<T>, before: spec_fn(T, T) -> bool) -> Seq<T>
    decreases s.len(),
{
    if s.len() == 0 {
        Seq::empty()
    } else {
        insert_by(sorted_by(s.drop_last(), before), s.last(), before)
    }
}

/// `set` with `x` in its place, unless an item is there that `before` does not
/// tell from it.
pub open spec fn include_by<T>(set: Seq<T>, x: T, before: spec_fn(T, T) -> bool) -> Seq<T>
    decreases set.len(),
{
    if set.len() == 0 || before(set.last(), x) {
        set.push(x)
    } else if before(x, set.last()) {
        include_by(set.drop_last(), x, before).push(set.last())
    } else {
        set
    }
}

/// The items of `s` in the order that `before` gives, each kind once: the first
/// of those that it does not tell apart.
pub open spec fn ordered_set<T>(s: Seq<T>, before: spec_fn(T, T) -> bool) -> Seq<T>
    decreases s.len(),
{
    if s.len() == 0 {
        Seq::empty()
    } else {
        include_by(ordered_set(s.drop_last(), before), s.last(), before)
    }
}

/// Whether `before` orders items strictly, with items that it does not tell
/// apart in the same place of the order.
pub open spec fn orders<T>(before: spec_fn(T, T) -> bool) -> bool {
    &&& forall|a: T, b: T| #[trigger] before(a, b) ==> !before(b, a)
    &&& forall|a: T, b: T, c: T|
        #![trigger before(a, b), before(b, c)]
        !before(a, b) && !before(b, c) ==> !before(a, c)
}

/// Whether no item stands in front of one that comes before it.
pub open spec fn in_order<T>(s: Seq<T>, before: spec_fn(T, T) -> bool) -> bool {
    forall|i: int, j: int| 0 <= i < j < s.len() ==> !before(#[trigger] s[j], #[trigger] s[i])
}

/// Whether each item comes before the ones behind it.
pub open spec fn strictly_in_order<T>(s: Seq<T>, before: spec_fn(T, T) -> bool) -> bool {
    forall|i: int, j: int| 0 <= i < j < s.len() ==> before(#[trigger] s[i], #[trigger] s[j])
}

// ---------------------------------------------------------------------------
// Facts
// ---------------------------------------------------------------------------
/// What is selected are items of `s` that `keep` accepts, and all of them.
pub proof fn lemma_select<T>(s: Seq<T>, keep: spec_fn(T) -> bool)
    ensures
        select(s, keep).len() <= s.len(),
        forall|i: int|
            0 <= i < select(s, keep).len() ==> keep(#[trigger] select(s, keep)[i]) && s.contains(
                select(s, keep)[i],
            ),
        forall|i: int|
            0 <= i < s.len() && keep(#[trigger] s[i]) ==> select(s, keep).contains(s[i]),
    decreases s.len(),
{
    if s.len() > 0 {
        let front = s.drop_last();
        let rest = select(front, keep);
        lemma_select(front, keep);
        assert forall|i: int| 0 <= i < select(s, keep).len() implies keep(
            #[trigger] select(s, keep)[i],
        ) && s.contains(select(s, keep)[i]) by {
            if i < rest.len() {
                assert(rest[i] == select(s, keep)[i]);
                let k = choose|k: int| 0 <= k < front.len() && front[k] == rest[i];
                assert(s[k] == rest[i]);
            } else {
                assert(s[s.len() - 1] == select(s, keep)[i]);
            }
        }
        assert forall|i: int| 0 <= i < s.len() && keep(#[trigger] s[i]) implies select(
            s,
            keep,
        ).contains(s[i]) by {
            if i < front.len() {
                assert(front[i] == s[i]);
                let k = choose|k: int| 0 <= k < rest.len() && rest[k] == s[i];
                assert(select(s, keep)[k] == s[i]);
            } else {
                assert(select(s, keep)[rest.len() as int] == s[i]);
            }
        }
    }
}

/// What a search finds is the first item that `wanted` accepts; it finds none
/// only where there is none.
pub proof fn lemma_first_index<T>(s: Seq<T>, wanted: spec_fn(T) -> bool)
    ensures
        match first_index(s, wanted) {
            Some(i) => 0 <= i < s.len() && wanted(s[i]) && forall|j: int|
                0 <= j < i ==> !wanted(#[trigger] s[j]),
            None => forall|j: int| 0 <= j < s.len() ==> !wanted(#[trigger] s[j]),
        },
    decreases s.len(),
{
    if s.len() > 0 {
        let front = s.drop_last();
        lemma_first_index(front, wanted);
        match first_index(front, wanted) {
            Some(i) => {
                assert forall|j: int| 0 <= j < i implies !wanted(#[trigger] s[j]) by {
                    assert(front[j] == s[j]);
                }
            },
            None => {
                assert forall|j: int| 0 <= j < s.len() - 1 implies !wanted(#[trigger] s[j]) by {
                    assert(front[j] == s[j]);
                }
            },
        }
    }
}

/// What a search from the back finds is the last item that `wanted` accepts; it
/// finds none only where there is none.
pub proof fn lemma_last_index<T>(s: Seq<T>, wanted: spec_fn(T) -> bool)
    ensures
        match last_index(s, wanted) {
            Some(i) => 0 <= i < s.len() && wanted(s[i]) && forall|j: int|
                i < j < s.len() ==> !wanted(#[trigger] s[j]),
            None => forall|j: int| 0 <= j < s.len() ==> !wanted(#[trigger] s[j]),
        },
    decreases s.len(),
{
    if s.len() > 0 && !wanted(s.last()) {
        let front = s.drop_last();
        lemma_last_index(front, wanted);
        match last_index(front, wanted) {
            Some(i) => {
                assert forall|j: int| i < j < s.len() implies !wanted(#[trigger] s[j]) by {
                    if j < s.len() - 1 {
                        assert(front[j] == s[j]);
                    }
                }
            },
            None => {
                assert forall|j: int| 0 <= j < s.len() implies !wanted(#[trigger] s[j]) by {
                    if j < s.len() - 1 {
                        assert(front[j] == s[j]);
                    }
                }
            },
        }
    }
}

/// Putting one item in its place adds it and nothing else.
proof fn lemma_insert_by_items<T>(sorted: Seq<T>, x: T, before: spec_fn(T, T) -> bool)
    ensures
        insert_by(sorted, x, before).to_multiset() == sorted.to_multiset().insert(x),
    decreases sorted.len(),
{
    broadcast use vstd::seq_lib::group_to_multiset_ensures;

    if sorted.len() > 0 && before(x, sorted.last()) {
        lemma_insert_by_items(sorted.drop_last(), x, before);
        assert(sorted.drop_last().push(sorted.last()) =~= sorted);
        assert(sorted.drop_last().to_multiset().insert(x).insert(sorted.last())
            =~= sorted.drop_last().to_multiset().insert(sorted.last()).insert(x));
    }
}

/// Putting one item in its place keeps the order.
proof fn lemma_insert_by_order<T>(sorted: Seq<T>, x: T, before: spec_fn(T, T) -> bool)
    requires
        orders(before),
        in_order(sorted, before),
    ensures
        in_order(insert_by(sorted, x, before), before),
        forall|i: int|
            0 <= i < insert_by(sorted, x, before).len() ==> {
                let e = #[trigger] insert_by(sorted, x, before)[i];
                e == x || sorted.contains(e)
            },
    decreases sorted.len(),
{
    let r = insert_by(sorted, x, before);
    if sorted.len() > 0 && before(x, sorted.last()) {
        let front = sorted.drop_last();
        let inner = insert_by(front, x, before);
        assert(in_order(front, before)) by {
            assert forall|i: int, j: int| 0 <= i < j < front.len() implies !before(
                #[trigger] front[j],
                #[trigger] front[i],
            ) by {
                assert(!before(sorted[j], sorted[i]));
            }
        }
        lemma_insert_by_order(front, x, before);
        assert forall|i: int| 0 <= i < r.len() implies {
            let e = #[trigger] r[i];
            e == x || sorted.contains(e)
        } by {
            if i < inner.len() {
                assert(r[i] == inner[i]);
                if inner[i] != x {
                    let k = choose|k: int| 0 <= k < front.len() && front[k] == inner[i];
                    assert(sorted[k] == inner[i]);
                }
            } else {
                assert(sorted[sorted.len() - 1] == r[i]);
            }
        }
        assert forall|i: int, j: int| 0 <= i < j < r.len() implies !before(
            #[trigger] r[j],
            #[trigger] r[i],
        ) by {
            assert(r[i] == inner[i]);
            if j < inner.len() {
                assert(r[j] == inner[j]);
            } else {
                assert(r[j] == sorted.last());
                if inner[i] != x {
                    let k = choose|k: int| 0 <= k < front.len() && front[k] == inner[i];
                    assert(!before(sorted[sorted.len() - 1], sorted[k]));
                }
            }
        }
    } else {
        assert forall|i: int| 0 <= i < r.len() implies {
            let e = #[trigger] r[i];
            e == x || sorted.contains(e)
        } by {
            if i < sorted.len() {
                assert(sorted[i] == r[i]);
            }
        }
        assert forall|i: int, j: int| 0 <= i < j < r.len() implies !before(
            #[trigger] r[j],
            #[trigger] r[i],
        ) by {
            if j < sorted.len() {
                assert(!before(sorted[j], sorted[i]));
            } else {
                assert(r[j] == x);
                assert(!before(x, sorted[sorted.len() - 1]));
                if i < sorted.len() - 1 {
                    assert(!before(sorted[sorted.len() - 1], sorted[i]));
                }
            }
        }
    }
}

/// Sorting keeps the items and puts them in order.
pub proof fn sorting_orders<T>(s: Seq<T>, before: spec_fn(T, T) -> bool)
    requires
        orders(before),
    ensures
        in_order(sorted_by(s, before), before),
        sorted_by(s, before).to_multiset() == s.to_multiset(),
        sorted_by(s, before).len() == s.len(),
    decreases s.len(),
{
    broadcast use vstd::seq_lib::group_to_multiset_ensures;

    if s.len() > 0 {
        sorting_orders(s.drop_last(), before);
        lemma_insert_by_order(sorted_by(s.drop_last(), before), s.last(), before);
        lemma_insert_by_items(sorted_by(s.drop_last(), before), s.last(), before);
        assert(s.drop_last().push(s.last()) =~= s);
        lemma_insert_by_len(sorted_by(s.drop_last(), before), s.last(), before);
    } else {
        assert(sorted_by(s, before) =~= s);
    }
}

/// Putting one item in its place makes the sequence longer by one.
proof fn lemma_insert_by_len<T>(sorted: Seq<T>, x: T, before: spec_fn(T, T) -> bool)
    ensures
        insert_by(sorted, x, before).len() == sorted.len() + 1,
    decreases sorted.len(),
{
    if sorted.len() > 0 && before(x, sorted.last()) {
        lemma_insert_by_len(sorted.drop_last(), x, before);
    }
}

/// Sorting keeps how many items there are, and which.
pub proof fn lemma_sorted_by_items<T>(s: Seq<T>, before: spec_fn(T, T) -> bool)
    ensures
        sorted_by(s, before).len() == s.len(),
        sorted_by(s, before).to_multiset() == s.to_multiset(),
        forall|x: T| #[trigger] sorted_by(s, before).contains(x) <==> s.contains(x),
    decreases s.len(),
{
    broadcast use vstd::seq_lib::group_to_multiset_ensures;

    if s.len() > 0 {
        lemma_sorted_by_items(s.drop_last(), before);
        lemma_insert_by_items(sorted_by(s.drop_last(), before), s.last(), before);
        assert(s.drop_last().push(s.last()) =~= s);
        lemma_insert_by_len(sorted_by(s.drop_last(), before), s.last(), before);
    } else {
        assert(sorted_by(s, before) =~= s);
    }
    assert forall|x: T| #[trigger] sorted_by(s, before).contains(x) <==> s.contains(x) by {
        assert(sorted_by(s, before).contains(x) <==> sorted_by(s, before).to_multiset().count(x)
            > 0);
        assert(s.contains(x) <==> s.to_multiset().count(x) > 0);
    }
}

/// Accepts the items that `before` does not tell from `y`.
pub open spec fn alike<T>(before: spec_fn(T, T) -> bool, y: T) -> spec_fn(T) -> bool {
    |e: T| !before(e, y) && !before(y, e)
}

/// Items that `before` does not tell from `y` keep their places relative to each
/// other when the sequence is sorted.
pub proof fn sorting_is_stable<T>(s: Seq<T>, before: spec_fn(T, T) -> bool, y: T)
    requires
        orders(before),
    ensures
        select(sorted_by(s, before), alike(before, y)) == select(s, alike(before, y)),
    decreases s.len(),
{
    if s.len() > 0 {
        let front = s.drop_last();
        let sorted = sorted_by(front, before);
        sorting_is_stable(front, before, y);
        sorting_orders(front, before);
        lemma_insert_by_select(sorted, s.last(), before, y);
        assert(sorted.push(s.last()).drop_last() =~= sorted);
    }
}

/// An item that is put in its place stands behind those like it.
proof fn lemma_insert_by_select<T>(sorted: Seq<T>, x: T, before: spec_fn(T, T) -> bool, y: T)
    requires
        orders(before),
        in_order(sorted, before),
    ensures
        select(insert_by(sorted, x, before), alike(before, y)) == select(
            sorted.push(x),
            alike(before, y),
        ),
    decreases sorted.len(),
{
    let like = alike(before, y);
    if sorted.len() > 0 && before(x, sorted.last()) {
        let front = sorted.drop_last();
        assert(in_order(front, before)) by {
            assert forall|i: int, j: int| 0 <= i < j < front.len() implies !before(
                #[trigger] front[j],
                #[trigger] front[i],
            ) by {
                assert(!before(sorted[j], sorted[i]));
            }
        }
        lemma_insert_by_select(front, x, before, y);
        let inner = insert_by(front, x, before);
        let whole = inner.push(sorted.last());
        assert(whole.drop_last() =~= inner);
        assert(front.push(x).drop_last() =~= front);
        assert(sorted.push(x).drop_last() =~= sorted);
        if like(x) && like(sorted.last()) {
            assert(!before(x, y) && !before(y, sorted.last()));
            assert(!before(x, sorted.last()));
        }
        assert(insert_by(sorted, x, before) == whole);
        let a = select(front, like);
        assert(select(front.push(x), like) == if like(x) {
            a.push(x)
        } else {
            a
        });
        assert(select(whole, like) == if like(sorted.last()) {
            select(inner, like).push(sorted.last())
        } else {
            select(inner, like)
        });
        assert(select(sorted, like) == if like(sorted.last()) {
            a.push(sorted.last())
        } else {
            a
        });
        assert(select(sorted.push(x), like) == if like(x) {
            select(sorted, like).push(x)
        } else {
            select(sorted, like)
        });
    }
}

/// Sorting commutes with a change of the items that keeps the order.
pub proof fn lemma_sorted_by_map<T, U>(
    s: Seq<T>,
    f: spec_fn(T) -> U,
    fine: spec_fn(T, T) -> bool,
    before: spec_fn(U, U) -> bool,
)
    requires
        forall|a: T, b: T| #[trigger] fine(a, b) == before(f(a), f(b)),
    ensures
        sorted_by(s, fine).map_values(f) == sorted_by(s.map_values(f), before),
    decreases s.len(),
{
    if s.len() > 0 {
        lemma_sorted_by_map(s.drop_last(), f, fine, before);
        lemma_insert_by_map(sorted_by(s.drop_last(), fine), s.last(), f, fine, before);
        assert(s.map_values(f).drop_last() =~= s.drop_last().map_values(f));
    } else {
        assert(sorted_by(s, fine).map_values(f) =~= sorted_by(s.map_values(f), before));
    }
}

/// Putting an item in its place commutes with such a change.
proof fn lemma_insert_by_map<T, U>(
    sorted: Seq<T>,
    x: T,
    f: spec_fn(T) -> U,
    fine: spec_fn(T, T) -> bool,
    before: spec_fn(U, U) -> bool,
)
    requires
        forall|a: T, b: T| #[trigger] fine(a, b) == before(f(a), f(b)),
    ensures
        insert_by(sorted, x, fine).map_values(f) == insert_by(sorted.map_values(f), f(x), before),
    decreases sorted.len(),
{
    if sorted.len() > 0 {
        assert(sorted.map_values(f).drop_last() =~= sorted.drop_last().map_values(f));
        assert(fine(x, sorted.last()) == before(f(x), f(sorted.last())));
        if fine(x, sorted.last()) {
            lemma_insert_by_map(sorted.drop_last(), x, f, fine, before);
        }
    }
    assert(insert_by(sorted, x, fine).map_values(f) =~= insert_by(
        sorted.map_values(f),
        f(x),
        before,
    ));
}

/// Putting an item into an ordered set keeps it ordered.
proof fn lemma_include_by<T>(set: Seq<T>, x: T, before: spec_fn(T, T) -> bool)
    requires
        orders(before),
        strictly_in_order(set, before),
    ensures
        strictly_in_order(include_by(set, x, before), before),
        forall|i: int|
            0 <= i < include_by(set, x, before).len() ==> {
                let e = #[trigger] include_by(set, x, before)[i];
                e == x || set.contains(e)
            },
    decreases set.len(),
{
    let r = include_by(set, x, before);
    if set.len() == 0 || before(set.last(), x) {
        assert forall|i: int, j: int| 0 <= i < j < r.len() implies before(
            #[trigger] r[i],
            #[trigger] r[j],
        ) by {
            if j < set.len() {
                assert(before(set[i], set[j]));
            } else if i < set.len() - 1 {
                assert(before(set[i], set[set.len() - 1]));
                assert(!before(x, set.last()) && !before(set.last(), set[i]));
                assert(!before(x, set[i]));
                if !before(set[i], x) {
                    assert(!before(set[i], x) && !before(x, set.last()));
                    assert(!before(set[i], set.last()));
                }
            }
        }
        assert forall|i: int| 0 <= i < r.len() implies {
            let e = #[trigger] r[i];
            e == x || set.contains(e)
        } by {
            if i < set.len() {
                assert(set[i] == r[i]);
            }
        }
    } else if before(x, set.last()) {
        let front = set.drop_last();
        let inner = include_by(front, x, before);
        assert(strictly_in_order(front, before)) by {
            assert forall|i: int, j: int| 0 <= i < j < front.len() implies before(
                #[trigger] front[i],
                #[trigger] front[j],
            ) by {
                assert(before(set[i], set[j]));
            }
        }
        lemma_include_by(front, x, before);
        assert forall|i: int| 0 <= i < r.len() implies {
            let e = #[trigger] r[i];
            e == x || set.contains(e)
        } by {
            if i < inner.len() {
                assert(r[i] == inner[i]);
                if inner[i] != x {
                    let k = choose|k: int| 0 <= k < front.len() && front[k] == inner[i];
                    assert(set[k] == inner[i]);
                }
            } else {
                assert(set[set.len() - 1] == r[i]);
            }
        }
        assert forall|i: int, j: int| 0 <= i < j < r.len() implies before(
            #[trigger] r[i],
            #[trigger] r[j],
        ) by {
            assert(r[i] == inner[i]);
            if j < inner.len() {
                assert(r[j] == inner[j]);
            } else if inner[i] != x {
                let k = choose|k: int| 0 <= k < front.len() && front[k] == inner[i];
                assert(before(set[k], set[set.len() - 1]));
            }
        }
    }
}

/// An ordered set holds items of `s`, each kind once, in order.
pub proof fn ordered_set_is_ordered<T>(s: Seq<T>, before: spec_fn(T, T) -> bool)
    requires
        orders(before),
    ensures
        strictly_in_order(ordered_set(s, before), before),
        forall|i: int|
            0 <= i < ordered_set(s, before).len() ==> s.contains(
                #[trigger] ordered_set(s, before)[i],
            ),
    decreases s.len(),
{
    if s.len() > 0 {
        let front = s.drop_last();
        ordered_set_is_ordered(front, before);
        lemma_include_by(ordered_set(front, before), s.last(), before);
        let r = ordered_set(s, before);
        assert forall|i: int| 0 <= i < r.len() implies s.contains(#[trigger] r[i]) by {
            if r[i] == s.last() {
                assert(s[s.len() - 1] == r[i]);
            } else {
                let set = ordered_set(front, before);
                let k = choose|k: int| 0 <= k < set.len() && set[k] == r[i];
                assert(front.contains(set[k]));
                let m = choose|m: int| 0 <= m < front.len() && front[m] == set[k];
                assert(s[m] == r[i]);
            }
        }
    }
}

/// Putting an item into an ordered set leaves every kind that was there, and its
/// own.
proof fn lemma_include_by_covers<T>(set: Seq<T>, x: T, before: spec_fn(T, T) -> bool)
    requires
        orders(before),
    ensures
        exists|k: int|
            0 <= k < include_by(set, x, before).len() && alike(before, x)(
                #[trigger] include_by(set, x, before)[k],
            ),
        forall|i: int|
            0 <= i < set.len() ==> include_by(set, x, before).contains(#[trigger] set[i]),
    decreases set.len(),
{
    let r = include_by(set, x, before);
    if set.len() == 0 || before(set.last(), x) {
        if before(x, x) {
            assert(!before(x, x));
        }
        assert(alike(before, x)(r[set.len() as int]));
        assert forall|i: int| 0 <= i < set.len() implies r.contains(#[trigger] set[i]) by {
            assert(r[i] == set[i]);
        }
    } else if before(x, set.last()) {
        let front = set.drop_last();
        let inner = include_by(front, x, before);
        lemma_include_by_covers(front, x, before);
        let k = choose|k: int| 0 <= k < inner.len() && alike(before, x)(#[trigger] inner[k]);
        assert(alike(before, x)(r[k]));
        assert forall|i: int| 0 <= i < set.len() implies r.contains(#[trigger] set[i]) by {
            if i < front.len() {
                assert(inner.contains(front[i]));
                let q = choose|q: int| 0 <= q < inner.len() && inner[q] == front[i];
                assert(r[q] == set[i]);
            } else {
                assert(r[inner.len() as int] == set[i]);
            }
        }
    } else {
        assert(alike(before, x)(r[set.len() - 1]));
    }
}

/// An ordered set holds every kind that `s` holds.
pub proof fn ordered_set_covers<T>(s: Seq<T>, before: spec_fn(T, T) -> bool, i: int)
    requires
        orders(before),
        0 <= i < s.len(),
    ensures
        exists|k: int|
            0 <= k < ordered_set(s, before).len() && alike(before, s[i])(
                #[trigger] ordered_set(s, before)[k],
            ),
    decreases s.len(),
{
    let front = s.drop_last();
    let set = ordered_set(front, before);
    let r = ordered_set(s, before);
    lemma_include_by_covers(set, s.last(), before);
    if i < front.len() {
        ordered_set_covers(front, before, i);
        let k = choose|k: int| 0 <= k < set.len() && alike(before, front[i])(#[trigger] set[k]);
        assert(r.contains(set[k]));
        let q = choose|q: int| 0 <= q < r.len() && r[q] == set[k];
        assert(alike(before, s[i])(r[q]));
    }
}

// ---------------------------------------------------------------------------
// Groups
// ---------------------------------------------------------------------------
/// Accepts the items with the number `key` of `x`.
pub open spec fn keyed<T>(key: spec_fn(T) -> int, x: T) -> spec_fn(T) -> bool {
    |y: T| key(y) == key(x)
}

/// Whether one number is below the other.
pub open spec fn by_key<T>(key: spec_fn(T) -> int) -> spec_fn(T, T) -> bool {
    |a: T, b: T| key(a) < key(b)
}

/// The items of `s` by kinds: for each of `kinds`, those with its number.
pub open spec fn grouped<T>(s: Seq<T>, key: spec_fn(T) -> int, kinds: Seq<T>) -> Seq<Seq<T>> {
    kinds.map_values(|k: T| select(s, keyed(key, k)))
}

/// Whether one of `kinds` has the number of `x`.
pub open spec fn is_kind<T>(key: spec_fn(T) -> int, kinds: Seq<T>, x: T) -> bool {
    exists|k: int| 0 <= k < kinds.len() && key(#[trigger] kinds[k]) == key(x)
}

/// One more item makes one group longer, if its kind is there.
proof fn lemma_grouped_push<T>(s: Seq<T>, key: spec_fn(T) -> int, kinds: Seq<T>)
    requires
        s.len() > 0,
        forall|i: int, j: int|
            0 <= i < j < kinds.len() ==> key(#[trigger] kinds[i]) != key(#[trigger] kinds[j]),
    ensures
        flat(grouped(s, key, kinds)).to_multiset() == if is_kind(key, kinds, s.last()) {
            flat(grouped(s.drop_last(), key, kinds)).to_multiset().insert(s.last())
        } else {
            flat(grouped(s.drop_last(), key, kinds)).to_multiset()
        },
    decreases kinds.len(),
{
    broadcast use vstd::seq_lib::group_to_multiset_ensures;

    let x = s.last();
    let rest = s.drop_last();
    if kinds.len() > 0 {
        let first = kinds.drop_last();
        let last = kinds.last();
        assert forall|i: int, j: int| 0 <= i < j < first.len() implies key(#[trigger] first[i])
            != key(#[trigger] first[j]) by {
            assert(key(kinds[i]) != key(kinds[j]));
        }
        lemma_grouped_push(s, key, first);
        assert(grouped(s, key, kinds).drop_last() =~= grouped(s, key, first));
        assert(grouped(rest, key, kinds).drop_last() =~= grouped(rest, key, first));
        let a = select(s, keyed(key, last));
        let b = select(rest, keyed(key, last));
        vstd::seq_lib::lemma_multiset_commutative(flat(grouped(s, key, first)), a);
        vstd::seq_lib::lemma_multiset_commutative(flat(grouped(rest, key, first)), b);
        let whole = flat(grouped(rest, key, first)).to_multiset();
        if key(last) == key(x) {
            assert(key(kinds[kinds.len() - 1]) == key(x));
            assert forall|k: int| 0 <= k < first.len() implies key(#[trigger] first[k]) != key(
                x,
            ) by {
                assert(key(kinds[k]) != key(kinds[kinds.len() - 1]));
            }
            assert(a == b.push(x));
            assert(a.to_multiset() =~= b.to_multiset().insert(x));
            assert(whole.add(b.to_multiset().insert(x)) =~= whole.add(b.to_multiset()).insert(x));
        } else {
            assert(a == b);
            if is_kind(key, kinds, x) {
                let k = choose|k: int| 0 <= k < kinds.len() && key(#[trigger] kinds[k]) == key(x);
                assert(first[k] == kinds[k]);
                assert(whole.insert(x).add(b.to_multiset()) =~= whole.add(b.to_multiset()).insert(
                    x,
                ));
            } else {
                assert forall|k: int| 0 <= k < first.len() implies key(#[trigger] first[k]) != key(
                    x,
                ) by {
                    assert(key(kinds[k]) != key(x));
                }
            }
        }
    }
}

/// Grouping by kinds that are all there, each once, keeps every item once.
pub proof fn lemma_grouped_items<T>(s: Seq<T>, key: spec_fn(T) -> int, kinds: Seq<T>)
    requires
        forall|i: int, j: int|
            0 <= i < j < kinds.len() ==> key(#[trigger] kinds[i]) != key(#[trigger] kinds[j]),
        forall|i: int| 0 <= i < s.len() ==> is_kind(key, kinds, #[trigger] s[i]),
    ensures
        flat(grouped(s, key, kinds)).to_multiset() == s.to_multiset(),
    decreases s.len(),
{
    broadcast use vstd::seq_lib::group_to_multiset_ensures;

    if s.len() == 0 {
        lemma_grouped_none(s, key, kinds);
        assert(flat(grouped(s, key, kinds)) =~= s);
    } else {
        let rest = s.drop_last();
        assert forall|i: int| 0 <= i < rest.len() implies is_kind(
            key,
            kinds,
            #[trigger] rest[i],
        ) by {
            assert(is_kind(key, kinds, s[i]));
        }
        lemma_grouped_items(rest, key, kinds);
        lemma_grouped_push(s, key, kinds);
        assert(is_kind(key, kinds, s[s.len() - 1]));
        assert(rest.push(s.last()) =~= s);
    }
}

proof fn lemma_grouped_none<T>(s: Seq<T>, key: spec_fn(T) -> int, kinds: Seq<T>)
    requires
        s.len() == 0,
    ensures
        flat(grouped(s, key, kinds)).len() == 0,
    decreases kinds.len(),
{
    if kinds.len() > 0 {
        lemma_grouped_none(s, key, kinds.drop_last());
        assert(grouped(s, key, kinds).drop_last() =~= grouped(s, key, kinds.drop_last()));
    }
}

/// Grouping by the kinds that occur keeps every item once.
pub proof fn grouping_keeps_items<T>(s: Seq<T>, key: spec_fn(T) -> int)
    ensures
        flat(grouped(s, key, ordered_set(s, by_key(key)))).to_multiset() == s.to_multiset(),
{
    let kinds = ordered_set(s, by_key(key));
    ordered_set_is_ordered(s, by_key(key));
    assert forall|i: int, j: int| 0 <= i < j < kinds.len() implies key(#[trigger] kinds[i]) != key(
        #[trigger] kinds[j],
    ) by {
        assert(by_key(key)(kinds[i], kinds[j]));
    }
    assert forall|i: int| 0 <= i < s.len() implies is_kind(key, kinds, #[trigger] s[i]) by {
        ordered_set_covers(s, by_key(key), i);
        let k = choose|k: int|
            0 <= k < kinds.len() && alike(by_key(key), s[i])(#[trigger] kinds[k]);
        assert(key(kinds[k]) == key(s[i]));
    }
    lemma_grouped_items(s, key, kinds);
}

/// Pieces that hold the same items make wholes that hold the same items.
pub proof fn lemma_flat_items<T>(a: Seq<Seq<T>>, b: Seq<Seq<T>>)
    requires
        a.len() == b.len(),
        forall|i: int| 0 <= i < a.len() ==> (#[trigger] a[i]).to_multiset() == b[i].to_multiset(),
    ensures
        flat(a).to_multiset() == flat(b).to_multiset(),
    decreases a.len(),
{
    if a.len() > 0 {
        let x = a.drop_last();
        let y = b.drop_last();
        assert forall|i: int| 0 <= i < x.len() implies (#[trigger] x[i]).to_multiset()
            == y[i].to_multiset() by {
            assert(a[i].to_multiset() == b[i].to_multiset());
        }
        lemma_flat_items(x, y);
        assert(a[a.len() - 1].to_multiset() == b[b.len() - 1].to_multiset());
        vstd::seq_lib::lemma_multiset_commutative(flat(x), a.last());
        vstd::seq_lib::lemma_multiset_commutative(flat(y), b.last());
    }
}

/// Changing the items of the whole changes those of the pieces.
pub proof fn lemma_flat_map<T, U>(a: Seq<Seq<T>>, f: spec_fn(T) -> U)
    ensures
        flat(a).map_values(f) == flat(a.map_values(|p: Seq<T>| p.map_values(f))),
    decreases a.len(),
{
    let b = a.map_values(|p: Seq<T>| p.map_values(f));
    if a.len() > 0 {
        lemma_flat_map(a.drop_last(), f);
        assert(b.drop_last() =~= a.drop_last().map_values(|p: Seq<T>| p.map_values(f)));
    }
    assert(flat(a).map_values(f) =~= flat(b));
}

// ---------------------------------------------------------------------------
// Where selected items stand
// ---------------------------------------------------------------------------
/// What is selected from the first items comes first in what is selected from all.
pub proof fn lemma_select_prefix<T>(s: Seq<T>, keep: spec_fn(T) -> bool, n: int)
    requires
        0 <= n <= s.len(),
    ensures
        select(s.take(n), keep).len() <= select(s, keep).len(),
        select(s.take(n), keep) == select(s, keep).take(select(s.take(n), keep).len() as int),
    decreases s.len() - n,
{
    let part = select(s.take(n), keep);
    if n == s.len() {
        assert(s.take(n) == s);
        assert(part.take(part.len() as int) == part);
    } else {
        lemma_select_prefix(s, keep, n + 1);
        assert(s.take(n + 1).drop_last() == s.take(n));
        let more = select(s.take(n + 1), keep);
        assert(more.take(part.len() as int) =~= part);
        assert(select(s, keep).take(part.len() as int) =~= more.take(part.len() as int));
    }
}

/// An item that is accepted stands behind those that are selected before it.
pub proof fn lemma_select_at<T>(s: Seq<T>, keep: spec_fn(T) -> bool, i: int)
    requires
        0 <= i < s.len(),
        keep(s[i]),
    ensures
        select(s.take(i), keep).len() < select(s, keep).len(),
        select(s, keep)[select(s.take(i), keep).len() as int] == s[i],
{
    let part = select(s.take(i), keep);
    let more = select(s.take(i + 1), keep);
    assert(s.take(i + 1).drop_last() == s.take(i));
    assert(s.take(i + 1).last() == s[i]);
    lemma_select_prefix(s, keep, i + 1);
    assert(more == part.push(s[i]));
    assert(more[part.len() as int] == s[i]);
}

/// Accepts what `keep` does not accept.
pub open spec fn others<T>(keep: spec_fn(T) -> bool) -> spec_fn(T) -> bool {
    |x: T| !keep(x)
}

/// Every item is accepted or not.
pub proof fn lemma_select_both<T>(s: Seq<T>, keep: spec_fn(T) -> bool)
    ensures
        s.to_multiset() == select(s, keep).to_multiset().add(
            select(s, others(keep)).to_multiset(),
        ),
        s.len() == select(s, keep).len() + select(s, others(keep)).len(),
    decreases s.len(),
{
    broadcast use vstd::seq_lib::group_to_multiset_ensures;

    let a = select(s, keep);
    let b = select(s, others(keep));
    if s.len() > 0 {
        let front = s.drop_last();
        lemma_select_both(front, keep);
        let x = select(front, keep);
        let y = select(front, others(keep));
        assert(front.push(s.last()) =~= s);
        assert(s.to_multiset() =~= front.to_multiset().insert(s.last()));
        if keep(s.last()) {
            assert(x.to_multiset().insert(s.last()).add(y.to_multiset()) =~= x.to_multiset().add(
                y.to_multiset(),
            ).insert(s.last()));
        } else {
            assert(x.to_multiset().add(y.to_multiset().insert(s.last())) =~= x.to_multiset().add(
                y.to_multiset(),
            ).insert(s.last()));
        }
    } else {
        assert(a =~= s && b =~= s);
        assert(s.to_multiset() =~= s.to_multiset().add(s.to_multiset()));
    }
}

/// Sorting leaves what is in order as it is.
pub proof fn sorting_leaves_order<T>(s: Seq<T>, before: spec_fn(T, T) -> bool)
    requires
        in_order(s, before),
    ensures
        sorted_by(s, before) == s,
    decreases s.len(),
{
    if s.len() > 0 {
        let front = s.drop_last();
        assert forall|i: int, j: int| 0 <= i < j < front.len() implies !before(
            #[trigger] front[j],
            #[trigger] front[i],
        ) by {
            assert(!before(s[j], s[i]));
        }
        sorting_leaves_order(front, before);
        if front.len() > 0 {
            assert(!before(s[s.len() - 1], s[s.len() - 2]));
        }
        assert(front.push(s.last()) =~= s);
    } else {
        assert(sorted_by(s, before) =~= s);
    }
}

// ---------------------------------------------------------------------------
// The same items in another order
// ---------------------------------------------------------------------------
/// What is selected goes by what is accepted.
proof fn lemma_select_alike<T>(s: Seq<T>, keep: spec_fn(T) -> bool, other: spec_fn(T) -> bool)
    requires
        forall|x: T| #[trigger] keep(x) == other(x),
    ensures
        select(s, keep) == select(s, other),
    decreases s.len(),
{
    if s.len() > 0 {
        lemma_select_alike(s.drop_last(), keep, other);
        assert(keep(s.last()) == other(s.last()));
    }
}

/// What is selected are the items that are accepted, as often as they occur.
pub proof fn lemma_select_items<T>(s: Seq<T>, keep: spec_fn(T) -> bool)
    ensures
        select(s, keep).to_multiset() == s.to_multiset().filter(keep),
    decreases s.len(),
{
    broadcast use vstd::seq_lib::group_to_multiset_ensures;
    broadcast use vstd::multiset::group_multiset_axioms;

    if s.len() > 0 {
        let front = s.drop_last();
        lemma_select_items(front, keep);
        assert(front.push(s.last()) =~= s);
        assert(s.to_multiset() =~= front.to_multiset().insert(s.last()));
        if keep(s.last()) {
            assert(front.to_multiset().filter(keep).insert(s.last())
                =~= s.to_multiset().filter(keep));
        } else {
            assert(front.to_multiset().filter(keep) =~= s.to_multiset().filter(keep));
        }
    } else {
        assert(select(s, keep) =~= s);
        assert(s.to_multiset() =~= s.to_multiset().filter(keep));
    }
}

/// Sequences of the same items hold the same ones.
pub proof fn lemma_same_items<T>(a: Seq<T>, b: Seq<T>)
    requires
        a.to_multiset() == b.to_multiset(),
    ensures
        a.len() == b.len(),
        forall|x: T| #[trigger] a.contains(x) <==> b.contains(x),
        a.no_duplicates() ==> b.no_duplicates(),
{
    broadcast use vstd::seq_lib::group_to_multiset_ensures;

    assert(a.len() == a.to_multiset().len());
    assert(b.len() == b.to_multiset().len());
    assert forall|x: T| #[trigger] a.contains(x) <==> b.contains(x) by {
        assert(a.contains(x) <==> a.to_multiset().count(x) > 0);
        assert(b.contains(x) <==> b.to_multiset().count(x) > 0);
    }
    if a.no_duplicates() {
        a.lemma_multiset_has_no_duplicates();
        b.lemma_multiset_has_no_duplicates_conv();
    }
}

/// Whether the numbers of the items rise.
pub open spec fn rising<T>(s: Seq<T>, key: spec_fn(T) -> int) -> bool {
    forall|i: int, j: int| 0 <= i < j < s.len() ==> key(#[trigger] s[i]) < key(#[trigger] s[j])
}

/// Only one sequence of the same items has rising numbers.
pub proof fn rising_is_unique<T>(a: Seq<T>, b: Seq<T>, key: spec_fn(T) -> int)
    requires
        rising(a, key),
        rising(b, key),
        forall|x: T| #[trigger] a.contains(x) <==> b.contains(x),
    ensures
        a == b,
    decreases a.len(),
{
    if a.len() == 0 {
        if b.len() > 0 {
            assert(b.contains(b[0]));
            assert(a.contains(b[0]));
        }
        assert(a =~= b);
    } else {
        assert(a.contains(a.last()));
        assert(b.contains(a.last()));
        assert(b.len() > 0);
        assert(b.contains(b.last()));
        assert(a.contains(b.last()));
        let m = a.len() - 1;
        let n = b.len() - 1;
        let p = choose|p: int| 0 <= p < b.len() && b[p] == a.last();
        let q = choose|q: int| 0 <= q < a.len() && a[q] == b.last();
        if q < m {
            assert(key(a[q]) < key(a[m]));
        }
        if p < n {
            assert(key(b[p]) < key(b[n]));
        }
        assert(a.last() == b.last());
        let x = a.drop_last();
        let y = b.drop_last();
        assert forall|e: T| #[trigger] x.contains(e) <==> y.contains(e) by {
            if x.contains(e) {
                let i = choose|i: int| 0 <= i < x.len() && x[i] == e;
                assert(a[i] == e);
                assert(key(a[i]) < key(a[m]));
                assert(a.contains(e));
                assert(b.contains(e));
                let j = choose|j: int| 0 <= j < b.len() && b[j] == e;
                assert(j != n);
                assert(y[j] == e);
            }
            if y.contains(e) {
                let i = choose|i: int| 0 <= i < y.len() && y[i] == e;
                assert(b[i] == e);
                assert(key(b[i]) < key(b[n]));
                assert(b.contains(e));
                assert(a.contains(e));
                let j = choose|j: int| 0 <= j < a.len() && a[j] == e;
                assert(j != m);
                assert(x[j] == e);
            }
        }
        assert forall|i: int, j: int| 0 <= i < j < x.len() implies key(#[trigger] x[i]) < key(
            #[trigger] x[j],
        ) by {
            assert(key(a[i]) < key(a[j]));
        }
        assert forall|i: int, j: int| 0 <= i < j < y.len() implies key(#[trigger] y[i]) < key(
            #[trigger] y[j],
        ) by {
            assert(key(b[i]) < key(b[j]));
        }
        rising_is_unique(x, y, key);
        assert(a =~= x.push(a.last()));
        assert(b =~= y.push(b.last()));
    }
}

/// The numbers of the kinds that occur.
spec fn kind_keys<T>(s: Seq<T>, key: spec_fn(T) -> int) -> Seq<int> {
    ordered_set(s, by_key(key)).map_values(key)
}

/// The numbers of the kinds that occur rise, and are those of the items.
proof fn lemma_kind_keys<T>(s: Seq<T>, key: spec_fn(T) -> int)
    ensures
        rising(kind_keys(s, key), |n: int| n),
        forall|n: int| #[trigger]
            kind_keys(s, key).contains(n) <==> exists|i: int|
                0 <= i < s.len() && key(#[trigger] s[i]) == n,
{
    let kinds = ordered_set(s, by_key(key));
    let keys = kind_keys(s, key);
    ordered_set_is_ordered(s, by_key(key));
    assert forall|i: int, j: int| 0 <= i < j < keys.len() implies (|n: int| n)(#[trigger] keys[i])
        < (|n: int| n)(#[trigger] keys[j]) by {
        assert(by_key(key)(kinds[i], kinds[j]));
    }
    assert forall|n: int| #[trigger] keys.contains(n) <==> exists|i: int|
        0 <= i < s.len() && key(#[trigger] s[i]) == n by {
        if keys.contains(n) {
            let k = choose|k: int| 0 <= k < keys.len() && keys[k] == n;
            assert(s.contains(kinds[k]));
            let i = choose|i: int| 0 <= i < s.len() && s[i] == kinds[k];
            assert(key(s[i]) == n);
        }
        if exists|i: int| 0 <= i < s.len() && key(#[trigger] s[i]) == n {
            let i = choose|i: int| 0 <= i < s.len() && key(#[trigger] s[i]) == n;
            ordered_set_covers(s, by_key(key), i);
            let k = choose|k: int|
                0 <= k < kinds.len() && alike(by_key(key), s[i])(#[trigger] kinds[k]);
            assert(keys[k] == n);
        }
    }
}

/// The same items in another order make the same groups, up to the order in each.
pub proof fn grouping_ignores_the_order<T>(a: Seq<T>, b: Seq<T>, key: spec_fn(T) -> int)
    requires
        a.to_multiset() == b.to_multiset(),
    ensures
        ({
            let x = grouped(a, key, ordered_set(a, by_key(key)));
            let y = grouped(b, key, ordered_set(b, by_key(key)));
            &&& x.len() == y.len()
            &&& forall|i: int|
                0 <= i < x.len() ==> (#[trigger] x[i]).to_multiset() == y[i].to_multiset()
        }),
{
    let kinds_a = ordered_set(a, by_key(key));
    let kinds_b = ordered_set(b, by_key(key));
    let x = grouped(a, key, kinds_a);
    let y = grouped(b, key, kinds_b);
    lemma_same_items(a, b);
    lemma_kind_keys(a, key);
    lemma_kind_keys(b, key);
    let keys_a = kind_keys(a, key);
    let keys_b = kind_keys(b, key);
    assert forall|n: int| #[trigger] keys_a.contains(n) <==> keys_b.contains(n) by {
        if keys_a.contains(n) {
            let i = choose|i: int| 0 <= i < a.len() && key(#[trigger] a[i]) == n;
            assert(a.contains(a[i]));
            assert(b.contains(a[i]));
            let j = choose|j: int| 0 <= j < b.len() && b[j] == a[i];
            assert(key(b[j]) == n);
        }
        if keys_b.contains(n) {
            let i = choose|i: int| 0 <= i < b.len() && key(#[trigger] b[i]) == n;
            assert(b.contains(b[i]));
            assert(a.contains(b[i]));
            let j = choose|j: int| 0 <= j < a.len() && a[j] == b[i];
            assert(key(a[j]) == n);
        }
    }
    rising_is_unique(keys_a, keys_b, |n: int| n);
    assert(kinds_a.len() == keys_a.len() && kinds_b.len() == keys_b.len());
    assert forall|i: int| 0 <= i < x.len() implies (#[trigger] x[i]).to_multiset()
        == y[i].to_multiset() by {
        assert(keys_a[i] == key(kinds_a[i]) && keys_b[i] == key(kinds_b[i]));
        lemma_select_alike(b, keyed(key, kinds_b[i]), keyed(key, kinds_a[i]));
        lemma_select_items(a, keyed(key, kinds_a[i]));
        lemma_select_items(b, keyed(key, kinds_a[i]));
    }
}

/// The same items in another order are sorted alike, where their numbers differ.
pub proof fn sorting_ignores_the_order<T>(a: Seq<T>, b: Seq<T>, key: spec_fn(T) -> int)
    requires
        a.to_multiset() == b.to_multiset(),
        forall|i: int, j: int|
            0 <= i < j < a.len() ==> key(#[trigger] a[i]) != key(#[trigger] a[j]),
    ensures
        sorted_by(a, by_key(key)) == sorted_by(b, by_key(key)),
{
    let x = sorted_by(a, by_key(key));
    let y = sorted_by(b, by_key(key));
    lemma_sorted_by_items(a, by_key(key));
    lemma_sorted_by_items(b, by_key(key));
    sorting_orders(a, by_key(key));
    sorting_orders(b, by_key(key));
    lemma_same_items(a, x);
    lemma_same_items(a, y);
    lemma_rising(a, x, key);
    lemma_rising(a, y, key);
    assert forall|e: T| #[trigger] x.contains(e) <==> y.contains(e) by {
        assert(a.contains(e) <==> x.contains(e));
        assert(a.contains(e) <==> y.contains(e));
    }
    rising_is_unique(x, y, key);
}

/// Items in order whose numbers differ have rising numbers.
proof fn lemma_rising<T>(a: Seq<T>, sorted: Seq<T>, key: spec_fn(T) -> int)
    requires
        a.to_multiset() == sorted.to_multiset(),
        in_order(sorted, by_key(key)),
        forall|i: int, j: int|
            0 <= i < j < a.len() ==> key(#[trigger] a[i]) != key(#[trigger] a[j]),
    ensures
        rising(sorted, key),
{
    assert(a.no_duplicates()) by {
        assert forall|i: int, j: int| 0 <= i < a.len() && 0 <= j < a.len() && i != j implies a[i]
            != a[j] by {
            if i < j {
                assert(key(a[i]) != key(a[j]));
            } else {
                assert(key(a[j]) != key(a[i]));
            }
        }
    }
    lemma_same_items(a, sorted);
    assert forall|i: int, j: int| 0 <= i < j < sorted.len() implies key(#[trigger] sorted[i]) < key(
        #[trigger] sorted[j],
    ) by {
        assert(!by_key(key)(sorted[j], sorted[i]));
        assert(sorted.contains(sorted[i]) && sorted.contains(sorted[j]));
        assert(a.contains(sorted[i]) && a.contains(sorted[j]));
        let p = choose|p: int| 0 <= p < a.len() && a[p] == sorted[i];
        let q = choose|q: int| 0 <= q < a.len() && a[q] == sorted[j];
        assert(sorted[i] != sorted[j]);
        if p < q {
            assert(key(a[p]) != key(a[q]));
        } else {
            assert(key(a[q]) != key(a[p]));
        }
    }
}

// ---------------------------------------------------------------------------
// Sorting
// ---------------------------------------------------------------------------
/// Puts `x` in its place in `sorted`.
fn insert_ordered<T, F: Fn(&T, &T) -> bool>(
    sorted: &mut Vec<T>,
    x: T,
    is_before: &F,
    Ghost(before): Ghost<spec_fn(T, T) -> bool>,
)
    requires
        forall|a: &T, b: &T| #[trigger] is_before.requires((a, b)),
        forall|a: &T, b: &T, r: bool|
            #[trigger] is_before.ensures((a, b), r) ==> r == before(*a, *b),
    ensures
        final(sorted)@ == insert_by(old(sorted)@, x, before),
{
    let ghost all = sorted@;
    let mut at: usize = sorted.len();
    assert(all.take(at as int) == all);
    assert(insert_by(all, x, before) =~= insert_by(all.take(at as int), x, before) + all.skip(
        at as int,
    ));
    while at > 0 && is_before(&x, &sorted[at - 1])
        invariant
            sorted@ == all,
            at <= all.len(),
            forall|a: &T, b: &T| #[trigger] is_before.requires((a, b)),
            forall|a: &T, b: &T, r: bool|
                #[trigger] is_before.ensures((a, b), r) ==> r == before(*a, *b),
            insert_by(all, x, before) == insert_by(all.take(at as int), x, before) + all.skip(
                at as int,
            ),
        decreases at,
    {
        proof {
            let front = all.take(at as int);
            assert(front.drop_last() == all.take(at - 1));
            assert(insert_by(all, x, before) =~= insert_by(all.take(at - 1), x, before) + all.skip(
                at - 1,
            ));
        }
        at = at - 1;
    }
    proof {
        if at > 0 {
            assert(all.take(at as int).last() == all[at - 1]);
        }
        assert(insert_by(all, x, before) =~= all.insert(at as int, x));
    }
    sorted.insert(at, x);
}

/// The items of `v` in the order that `is_before` gives.
pub(crate) fn sort_by<T, F: Fn(&T, &T) -> bool>(
    v: Vec<T>,
    is_before: F,
    Ghost(before): Ghost<spec_fn(T, T) -> bool>,
) -> (r: Vec<T>)
    requires
        forall|a: &T, b: &T| #[trigger] is_before.requires((a, b)),
        forall|a: &T, b: &T, r: bool|
            #[trigger] is_before.ensures((a, b), r) ==> r == before(*a, *b),
    ensures
        r@ == sorted_by(v@, before),
{
    let ghost all = v@;
    let mut rest = v;
    let mut r: Vec<T> = Vec::new();
    let ghost mut done: int = 0;
    while rest.len() > 0
        invariant
            0 <= done <= all.len(),
            rest@ == all.skip(done),
            r@ == sorted_by(all.take(done), before),
            forall|a: &T, b: &T| #[trigger] is_before.requires((a, b)),
            forall|a: &T, b: &T, r: bool|
                #[trigger] is_before.ensures((a, b), r) ==> r == before(*a, *b),
        decreases rest@.len(),
    {
        let x = rest.remove(0);
        proof {
            assert(all.take(done + 1).drop_last() == all.take(done));
            assert(all.take(done + 1).last() == x);
        }
        insert_ordered(&mut r, x, &is_before, Ghost(before));
        proof {
            done = done + 1;
        }
    }
    assert(all.take(done) == all);
    r
}

// ---------------------------------------------------------------------------
// Searching
// ---------------------------------------------------------------------------
/// The places of the items that `accepts` takes, of `n` items.
pub(crate) fn select_places<T, F: Fn(usize) -> bool>(
    n: usize,
    accepts: F,
    Ghost(items): Ghost<Seq<T>>,
    Ghost(keep): Ghost<spec_fn(T) -> bool>,
) -> (r: Vec<usize>)
    requires
        n == items.len(),
        forall|i: usize| i < n ==> #[trigger] accepts.requires((i,)),
        forall|i: usize, b: bool|
            i < n && #[trigger] accepts.ensures((i,), b) ==> b == keep(items[i as int]),
    ensures
        r@.len() == select(items, keep).len(),
        forall|k: int|
            0 <= k < r@.len() ==> #[trigger] r@[k] < n && items[r@[k] as int] == select(
                items,
                keep,
            )[k],
{
    let mut r: Vec<usize> = Vec::new();
    let mut i: usize = 0;
    while i < n
        invariant
            i <= n == items.len(),
            forall|i: usize| i < n ==> #[trigger] accepts.requires((i,)),
            forall|i: usize, b: bool|
                i < n && #[trigger] accepts.ensures((i,), b) ==> b == keep(items[i as int]),
            r@.len() == select(items.take(i as int), keep).len(),
            forall|k: int|
                0 <= k < r@.len() ==> #[trigger] r@[k] < n && items[r@[k] as int] == select(
                    items.take(i as int),
                    keep,
                )[k],
        decreases n - i,
    {
        assert(items.take(i + 1).drop_last() == items.take(i as int));
        assert(items.take(i + 1).last() == items[i as int]);
        if accepts(i) {
            r.push(i);
        }
        i = i + 1;
    }
    assert(items.take(n as int) == items);
    r
}

/// The place of the first item that `accepts` takes, of `n` items.
pub(crate) fn first_place<T, F: Fn(usize) -> bool>(
    n: usize,
    accepts: F,
    Ghost(items): Ghost<Seq<T>>,
    Ghost(wanted): Ghost<spec_fn(T) -> bool>,
) -> (r: Option<usize>)
    requires
        n == items.len(),
        forall|i: usize| i < n ==> #[trigger] accepts.requires((i,)),
        forall|i: usize, b: bool|
            i < n && #[trigger] accepts.ensures((i,), b) ==> b == wanted(items[i as int]),
    ensures
        match r {
            Some(i) => i < n && first_index(items, wanted) == Some(i as int),
            None => first_index(items, wanted) is None,
        },
{
    let mut i: usize = 0;
    while i < n
        invariant
            i <= n == items.len(),
            forall|i: usize| i < n ==> #[trigger] accepts.requires((i,)),
            forall|i: usize, b: bool|
                i < n && #[trigger] accepts.ensures((i,), b) ==> b == wanted(items[i as int]),
            first_index(items.take(i as int), wanted) is None,
        decreases n - i,
    {
        assert(items.take(i + 1).drop_last() == items.take(i as int));
        assert(items.take(i + 1).last() == items[i as int]);
        if accepts(i) {
            proof {
                lemma_first_index_prefix(items, wanted, i + 1);
            }
            return Some(i);
        }
        i = i + 1;
    }
    assert(items.take(n as int) == items);
    None
}

/// What is found in a prefix is found in the whole.
pub proof fn lemma_first_index_prefix<T>(s: Seq<T>, wanted: spec_fn(T) -> bool, n: int)
    requires
        0 <= n <= s.len(),
        first_index(s.take(n), wanted) is Some,
    ensures
        first_index(s, wanted) == first_index(s.take(n), wanted),
    decreases s.len() - n,
{
    if n == s.len() {
        assert(s.take(n) == s);
    } else {
        assert(s.take(n + 1).drop_last() == s.take(n));
        lemma_first_index_prefix(s, wanted, n + 1);
    }
}

/// The place of the last item that `accepts` takes, of `n` items.
pub(crate) fn last_place<T, F: Fn(usize) -> bool>(
    n: usize,
    accepts: F,
    Ghost(items): Ghost<Seq<T>>,
    Ghost(wanted): Ghost<spec_fn(T) -> bool>,
) -> (r: Option<usize>)
    requires
        n == items.len(),
        forall|i: usize| i < n ==> #[trigger] accepts.requires((i,)),
        forall|i: usize, b: bool|
            i < n && #[trigger] accepts.ensures((i,), b) ==> b == wanted(items[i as int]),
    ensures
        match r {
            Some(i) => i < n && last_index(items, wanted) == Some(i as int),
            None => last_index(items, wanted) is None,
        },
{
    let mut i: usize = n;
    assert(items.take(n as int) == items);
    while i > 0
        invariant
            i <= n == items.len(),
            forall|i: usize| i < n ==> #[trigger] accepts.requires((i,)),
            forall|i: usize, b: bool|
                i < n && #[trigger] accepts.ensures((i,), b) ==> b == wanted(items[i as int]),
            last_index(items, wanted) == last_index(items.take(i as int), wanted),
        decreases i,
    {
        assert(items.take(i as int).drop_last() == items.take(i - 1));
        assert(items.take(i as int).last() == items[i - 1]);
        if accepts(i - 1) {
            return Some(i - 1);
        }
        i = i - 1;
    }
    None
}

/// The items that stand at `places`.
pub open spec fn at_places<T>(items: Seq<T>, places: Seq<usize>) -> Seq<T> {
    places.map_values(|p: usize| items[p as int])
}

/// Puts the item at place `x` into an ordered set of places.
fn include_place<T, F: Fn(usize, usize) -> bool>(
    set: &mut Vec<usize>,
    x: usize,
    is_before: &F,
    Ghost(items): Ghost<Seq<T>>,
    Ghost(before): Ghost<spec_fn(T, T) -> bool>,
)
    requires
        x < items.len(),
        forall|k: int| 0 <= k < old(set)@.len() ==> #[trigger] old(set)@[k] < items.len(),
        forall|a: usize, b: usize|
            a < items.len() && b < items.len() ==> #[trigger] is_before.requires((a, b)),
        forall|a: usize, b: usize, r: bool|
            a < items.len() && b < items.len() && #[trigger] is_before.ensures((a, b), r) ==> r
                == before(items[a as int], items[b as int]),
    ensures
        forall|k: int| 0 <= k < final(set)@.len() ==> #[trigger] final(set)@[k] < items.len(),
        at_places(items, final(set)@) == include_by(
            at_places(items, old(set)@),
            items[x as int],
            before,
        ),
{
    let ghost all = at_places(items, set@);
    let ghost item = items[x as int];
    let mut at: usize = set.len();
    proof {
        assert(all.take(at as int) == all);
        assert(include_by(all, item, before) =~= include_by(all.take(at as int), item, before)
            + all.skip(at as int));
    }
    while at > 0 && !is_before(set[at - 1], x)
        invariant
            x < items.len(),
            item == items[x as int],
            all == at_places(items, set@),
            at <= set@.len(),
            forall|k: int| 0 <= k < set@.len() ==> #[trigger] set@[k] < items.len(),
            forall|a: usize, b: usize|
                a < items.len() && b < items.len() ==> #[trigger] is_before.requires((a, b)),
            forall|a: usize, b: usize, r: bool|
                a < items.len() && b < items.len() && #[trigger] is_before.ensures((a, b), r) ==> r
                    == before(items[a as int], items[b as int]),
            include_by(all, item, before) == include_by(all.take(at as int), item, before)
                + all.skip(at as int),
        decreases at,
    {
        proof {
            assert(all.take(at as int).last() == items[set@[at - 1] as int]);
            assert(all.take(at as int).drop_last() == all.take(at - 1));
        }
        if !is_before(x, set[at - 1]) {
            proof {
                assert(all.take(at as int) + all.skip(at as int) =~= all);
            }
            return ;
        }
        proof {
            assert(include_by(all, item, before) =~= include_by(all.take(at - 1), item, before)
                + all.skip(at - 1));
        }
        at = at - 1;
    }
    proof {
        if at > 0 {
            assert(all.take(at as int).last() == items[set@[at - 1] as int]);
        }
        assert(include_by(all, item, before) =~= all.insert(at as int, item));
    }
    let ghost earlier = set@;
    set.insert(at, x);
    assert(at_places(items, set@) =~= all.insert(at as int, item));
    assert forall|k: int| 0 <= k < set@.len() implies #[trigger] set@[k] < items.len() by {
        if k < at {
            assert(set@[k] == earlier[k]);
        } else if k > at {
            assert(set@[k] == earlier[k - 1]);
        }
    }
}

/// The places of the first item of each kind, of `n` items, in order.
pub(crate) fn ordered_places<T, F: Fn(usize, usize) -> bool>(
    n: usize,
    is_before: F,
    Ghost(items): Ghost<Seq<T>>,
    Ghost(before): Ghost<spec_fn(T, T) -> bool>,
) -> (r: Vec<usize>)
    requires
        n == items.len(),
        forall|a: usize, b: usize| a < n && b < n ==> #[trigger] is_before.requires((a, b)),
        forall|a: usize, b: usize, r: bool|
            a < n && b < n && #[trigger] is_before.ensures((a, b), r) ==> r == before(
                items[a as int],
                items[b as int],
            ),
    ensures
        forall|k: int| 0 <= k < r@.len() ==> #[trigger] r@[k] < n,
        at_places(items, r@) == ordered_set(items, before),
{
    let mut r: Vec<usize> = Vec::new();
    let mut i: usize = 0;
    assert(at_places(items, r@) =~= ordered_set(items.take(0), before));
    while i < n
        invariant
            i <= n == items.len(),
            forall|k: int| 0 <= k < r@.len() ==> #[trigger] r@[k] < n,
            forall|a: usize, b: usize| a < n && b < n ==> #[trigger] is_before.requires((a, b)),
            forall|a: usize, b: usize, r: bool|
                a < n && b < n && #[trigger] is_before.ensures((a, b), r) ==> r == before(
                    items[a as int],
                    items[b as int],
                ),
            at_places(items, r@) == ordered_set(items.take(i as int), before),
        decreases n - i,
    {
        assert(items.take(i + 1).drop_last() == items.take(i as int));
        assert(items.take(i + 1).last() == items[i as int]);
        include_place::<T, F>(&mut r, i, &is_before, Ghost(items), Ghost(before));
        i = i + 1;
    }
    assert(items.take(n as int) == items);
    r
}

} // verus!
