//! What holds of all text.
use vstd::prelude::*;
use vstd::string::*;

use crate::text::{
    contains, ends_with, is_space, lemma_trim_end, lemma_trim_start, lower, occurs_at, starts_with,
    text_before, trim, trim_end, trim_start,
};

verus! {

/// What is put together holds its parts, at the beginning, in the middle and at the
/// end.
pub proof fn parts_are_found(a: Seq<char>, t: Seq<char>, b: Seq<char>)
    ensures
        contains(a + t + b, t),
        starts_with(t + b, t),
        ends_with(a + t, t),
        contains(a + t, t),
        contains(t + b, t),
{
    assert((a + t + b).subrange(a.len() as int, (a.len() + t.len()) as int) =~= t);
    assert(occurs_at(a + t + b, t, a.len() as int));
    assert((t + b).subrange(0, t.len() as int) =~= t);
    assert(occurs_at(t + b, t, 0));
    assert((a + t).subrange(a.len() as int, (a.len() + t.len()) as int) =~= t);
    assert(occurs_at(a + t, t, a.len() as int));
}

/// What holds a part is put together of it and what is around it.
pub proof fn found_parts_are_there(s: Seq<char>, t: Seq<char>)
    ensures
        contains(s, t) ==> exists|a: Seq<char>, b: Seq<char>| s == #[trigger] (a + t + b),
        starts_with(s, t) ==> exists|b: Seq<char>| s == #[trigger] (t + b),
        ends_with(s, t) ==> exists|a: Seq<char>| s == #[trigger] (a + t),
{
    if contains(s, t) {
        let i = choose|i: int| occurs_at(s, t, i);
        let a = s.take(i);
        let b = s.skip(i + t.len());
        assert(s =~= a + t + b);
    }
    if starts_with(s, t) {
        assert(s =~= t + s.skip(t.len() as int));
    }
    if ends_with(s, t) {
        assert(s =~= s.take(s.len() - t.len()) + t);
    }
}

/// Lower case is made character by character.
pub proof fn lower_goes_by_characters(a: Seq<char>, b: Seq<char>)
    ensures
        lower(a + b) == lower(a) + lower(b),
        lower(a).len() == a.len(),
        lower(lower(a)) == lower(a),
        forall|i: int|
            0 <= i < a.len() ==> #[trigger] lower(a)[i] == if 'A' as int <= a[i] as int <= 'Z' as int {
                (a[i] as int + 32) as char
            } else {
                a[i]
            },
{
    assert(lower(a + b) =~= lower(a) + lower(b));
    assert(lower(lower(a)) =~= lower(a));
}

/// Whether `s` holds whitespace and nothing else.
pub open spec fn is_blank(s: Seq<char>) -> bool {
    forall|i: int| 0 <= i < s.len() ==> is_space(#[trigger] s[i])
}

/// Whether `s` holds something, and no whitespace at either end.
pub open spec fn is_trim(s: Seq<char>) -> bool {
    s.len() > 0 && !is_space(s[0]) && !is_space(s.last())
}

/// Whitespace around a text is trimmed, and nothing else.
pub proof fn trimming_takes_whitespace(before: Seq<char>, core: Seq<char>, after: Seq<char>)
    requires
        is_blank(before),
        is_blank(after),
        core.len() == 0 || is_trim(core),
    ensures
        trim(before + core + after) == core,
        core.len() > 0 ==> trim_start(before + core + after) == core + after,
{
    let s = before + core + after;
    if core.len() == 0 {
        assert forall|i: int| 0 <= i < s.len() implies is_space(#[trigger] s[i]) by {
            if i < before.len() {
                assert(s[i] == before[i]);
            } else {
                assert(s[i] == after[i - before.len()]);
            }
        }
        lemma_trim_start(s, s.len() as int);
        assert(s.skip(s.len() as int) =~= Seq::empty());
        assert(trim(s) =~= core);
    } else {
        let n = before.len() as int;
        assert forall|i: int| 0 <= i < n implies is_space(#[trigger] s[i]) by {
            assert(s[i] == before[i]);
        }
        assert(s[n] == core[0]);
        lemma_trim_start(s, n);
        let rest = s.skip(n);
        assert(rest =~= core + after);
        let m = core.len() as int;
        assert forall|i: int| m <= i < rest.len() implies is_space(#[trigger] rest[i]) by {
            assert(rest[i] == after[i - m]);
        }
        assert(rest[m - 1] == core.last());
        lemma_trim_end(rest, m);
        assert(rest.take(m) =~= core);
    }
}

/// What is trimmed is a text without whitespace at its ends, with whitespace around
/// it.
pub proof fn trimmed_text_is_trim(s: Seq<char>)
    ensures
        trim(s).len() == 0 || is_trim(trim(s)),
        exists|before: Seq<char>, after: Seq<char>|
            is_blank(before) && is_blank(after) && s == #[trigger] (before + trim(s) + after),
{
    lemma_trim_start_parts(s);
    let t = trim_start(s);
    lemma_trim_end_parts(t);
    let before = choose|before: Seq<char>| is_blank(before) && s == #[trigger] (before + t);
    let after = choose|after: Seq<char>| is_blank(after) && t == #[trigger] (trim_end(t) + after);
    assert(s =~= before + trim(s) + after);
    if trim(s).len() > 0 {
        assert(t[0] == trim(s)[0]);
    }
}

proof fn lemma_trim_start_parts(s: Seq<char>)
    ensures
        exists|before: Seq<char>| is_blank(before) && s == #[trigger] (before + trim_start(s)),
        trim_start(s).len() > 0 ==> !is_space(trim_start(s)[0]),
    decreases s.len(),
{
    if s.len() > 0 && is_space(s.first()) {
        lemma_trim_start_parts(s.drop_first());
        let rest = choose|before: Seq<char>|
            is_blank(before) && s.drop_first() == #[trigger] (before + trim_start(s.drop_first()));
        let before = seq![s.first()] + rest;
        assert forall|i: int| 0 <= i < before.len() implies is_space(#[trigger] before[i]) by {
            if i > 0 {
                assert(before[i] == rest[i - 1]);
            }
        }
        assert(s =~= seq![s.first()] + s.drop_first());
        assert(s.drop_first() == rest + trim_start(s));
        assert(s =~= before + trim_start(s));
    } else {
        let none = Seq::<char>::empty();
        assert(is_blank(none));
        assert(s =~= none + trim_start(s));
    }
}

proof fn lemma_trim_end_parts(s: Seq<char>)
    ensures
        exists|after: Seq<char>| is_blank(after) && s == #[trigger] (trim_end(s) + after),
        trim_end(s).len() > 0 ==> !is_space(trim_end(s).last()),
    decreases s.len(),
{
    if s.len() > 0 && is_space(s.last()) {
        lemma_trim_end_parts(s.drop_last());
        let rest = choose|after: Seq<char>|
            is_blank(after) && s.drop_last() == #[trigger] (trim_end(s.drop_last()) + after);
        let after = rest.push(s.last());
        assert forall|i: int| 0 <= i < after.len() implies is_space(#[trigger] after[i]) by {
            if i < rest.len() {
                assert(after[i] == rest[i]);
            }
        }
        assert(s =~= s.drop_last().push(s.last()));
        assert(s.drop_last() == trim_end(s) + rest);
        assert(s =~= trim_end(s) + after);
    } else {
        let none = Seq::<char>::empty();
        assert(is_blank(none));
        assert(s =~= trim_end(s) + none);
    }
}

/// Texts are ordered by the first character in which they differ; a text comes before
/// every longer one that begins with it.
pub proof fn texts_are_ordered_by_characters(
    front: Seq<char>,
    a: char,
    b: char,
    x: Seq<char>,
    y: Seq<char>,
)
    ensures
        (a as int) < b as int ==> text_before(front + seq![a] + x, front + seq![b] + y),
        (a as int) > b as int ==> !text_before(front + seq![a] + x, front + seq![b] + y),
        text_before(front, front + seq![a] + x),
        !text_before(front + seq![a] + x, front),
        !text_before(front, front),
    decreases front.len(),
{
    let s = front + seq![a] + x;
    let t = front + seq![b] + y;
    if front.len() > 0 {
        let rest = front.drop_first();
        texts_are_ordered_by_characters(rest, a, b, x, y);
        assert(s.drop_first() =~= rest + seq![a] + x);
        assert(t.drop_first() =~= rest + seq![b] + y);
        assert(s.first() == front.first() && t.first() == front.first());
    } else {
        assert(s.first() == a && t.first() == b);
    }
}

} // verus!
