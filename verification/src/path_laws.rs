//! What holds of paths and of lines.
use vstd::prelude::*;
use vstd::string::*;

use crate::path::{
    base_name, below, is_file_name, joined_name_stands_in, parts, piece_parts, rooted, same_place,
    stands_in,
};
use crate::quote::one_line;
use crate::text::{lemma_split_nonempty, lemma_split_tail, lines, replace, split, without_return};

verus! {

// ---------------------------------------------------------------------------
// Paths
// ---------------------------------------------------------------------------
/// A slash at the end changes neither the place nor the name that a path ends in.
pub proof fn slashes_at_the_end_do_not_matter(path: Seq<char>)
    requires
        path.len() > 0,
    ensures
        same_place(path + "/"@, path),
        base_name(path + "/"@) == base_name(path),
{
    reveal_strlit("/");
    let longer = path + "/"@;
    assert(longer.drop_last() =~= path);
    assert(longer.last() == '/');
    let pieces = split(path, '/');
    lemma_split_nonempty(path, '/');
    assert(split(longer, '/') == pieces.push(Seq::empty()));
    assert(pieces.push(Seq::empty()).drop_last() =~= pieces);
    assert(rooted(longer) == rooted(path));
    assert(parts(longer) == parts(path));
}

/// Two names in a directory are two places, neither of them the directory.
pub proof fn names_are_places(directory: Seq<char>, a: Seq<char>, b: Seq<char>)
    requires
        directory.len() > 0,
        is_file_name(a),
        is_file_name(b),
    ensures
        same_place(below(directory, a), below(directory, b)) <==> a == b,
        !same_place(below(directory, a), directory),
        !stands_in(directory, directory),
        stands_in(below(directory, a), directory),
{
    joined_name_stands_in(directory, a);
    joined_name_stands_in(directory, b);
    assert(parts(below(directory, a)).len() == parts(directory).len() + 1);
}

/// A path from the root is itself, wherever it is seen from; any other stands below
/// where it is seen from, behind one slash.
pub proof fn paths_are_seen_from_a_place(base: Seq<char>, tail: Seq<char>)
    ensures
        tail.len() > 0 && tail[0] == '/' ==> below(base, tail) == tail,
        base.len() == 0 ==> below(base, tail) == tail,
        base.len() > 0 && base.last() == '/' && !(tail.len() > 0 && tail[0] == '/') ==> below(
            base,
            tail,
        ) == base + tail,
        base.len() > 0 && base.last() != '/' && !(tail.len() > 0 && tail[0] == '/') ==> below(
            base,
            tail,
        ) == base + "/"@ + tail,
{
}

/// A path that ends in `..` ends in no name, and a path of nothing has none.
pub proof fn some_paths_end_in_no_name(directory: Seq<char>)
    requires
        directory.len() > 0,
    ensures
        base_name(directory + "/"@ + ".."@).len() == 0,
        base_name(Seq::empty()).len() == 0,
{
    reveal_strlit("/");
    reveal_strlit("..");
    reveal_strlit(".");
    let base = directory + "/"@;
    let path = base + ".."@;
    assert(base.drop_last() =~= directory);
    assert(base.last() == '/');
    lemma_split_nonempty(directory, '/');
    let pieces = split(directory, '/');
    assert(split(base, '/') == pieces.push(Seq::empty()));
    assert(!".."@.contains('/')) by {
        if ".."@.contains('/') {
            let k = choose|k: int| 0 <= k < ".."@.len() && ".."@[k] == '/';
            assert(k == 0 || k == 1);
        }
    }
    lemma_split_tail(base, ".."@, '/');
    let all = split(path, '/');
    assert(pieces.push(Seq::empty()).drop_last() =~= pieces);
    assert(Seq::<char>::empty() + ".."@ =~= ".."@);
    assert(all == pieces.push(".."@));
    assert(all.drop_last() =~= pieces);
    assert(".."@.len() == 2 && "."@.len() == 1);
    assert(parts(path).last().rank == 2);
    let none = Seq::<char>::empty();
    assert(split(none, '/') == seq![none]);
    assert(seq![none].drop_last() =~= Seq::<Seq<char>>::empty());
    assert(piece_parts(Seq::<Seq<char>>::empty(), false) =~= Seq::empty());
    assert(parts(none).len() == 0);
}

// ---------------------------------------------------------------------------
// Lines
// ---------------------------------------------------------------------------
/// The pieces of two texts with the separator between them are those of both.
proof fn lemma_split_two(a: Seq<char>, sep: char, b: Seq<char>)
    ensures
        split(a + seq![sep] + b, sep) == split(a, sep) + split(b, sep),
    decreases b.len(),
{
    let all = a + seq![sep] + b;
    if b.len() == 0 {
        assert(all.drop_last() =~= a);
        assert(all.last() == sep);
        assert(split(b, sep) =~= seq![Seq::<char>::empty()]);
        assert(split(all, sep) =~= split(a, sep) + split(b, sep));
    } else {
        let front = b.drop_last();
        lemma_split_two(a, sep, front);
        lemma_split_nonempty(front, sep);
        assert(all.drop_last() =~= a + seq![sep] + front);
        assert(all.last() == b.last());
        let before = split(a, sep) + split(front, sep);
        assert(before.last() == split(front, sep).last());
        assert(before.drop_last() =~= split(a, sep) + split(front, sep).drop_last());
        assert(split(all, sep) =~= split(a, sep) + split(b, sep));
    }
}

/// A text without a separator is one piece.
proof fn lemma_one_piece(a: Seq<char>, sep: char)
    requires
        !a.contains(sep),
    ensures
        split(a, sep) == seq![a],
{
    let none = Seq::<char>::empty();
    lemma_split_tail(none, a, sep);
    assert(split(none, sep) == seq![none]);
    assert(none + a =~= a);
    assert(split(a, sep) =~= seq![a]);
}

/// A text is read line by line: a line ends at a line break, and a carriage return in
/// front of it belongs to the break. What stands behind the last break is a line where
/// it holds something.
pub proof fn text_is_read_line_by_line(line: Seq<char>, rest: Seq<char>)
    requires
        !line.contains('\n'),
    ensures
        lines(Seq::empty()).len() == 0,
        line.len() > 0 ==> lines(line) == seq![line],
        line.len() == 0 || line.last() != '\r' ==> lines(line + seq!['\n'] + rest) == seq![line]
            + lines(rest),
        lines(line + seq!['\r'] + seq!['\n'] + rest) == seq![line] + lines(rest),
{
    let f = |p: Seq<char>| without_return(p);
    let none = Seq::<char>::empty();
    assert(split(none, '\n') == seq![none]);
    assert(seq![none].drop_last().map_values(f).len() == 0);
    lemma_one_piece(line, '\n');
    assert(seq![line].drop_last().map_values(f) =~= Seq::empty());
    if line.len() > 0 {
        assert(lines(line) =~= seq![line]);
    }
    lemma_line_first(line, rest);
    let ended = line + seq!['\r'];
    assert(!ended.contains('\n')) by {
        if ended.contains('\n') {
            let k = choose|k: int| 0 <= k < ended.len() && ended[k] == '\n';
            assert(k < line.len());
            assert(line[k] == '\n');
        }
    }
    lemma_line_first(ended, rest);
    assert(without_return(ended) =~= line);
}

/// The first line of a text.
proof fn lemma_line_first(line: Seq<char>, rest: Seq<char>)
    requires
        !line.contains('\n'),
    ensures
        lines(line + seq!['\n'] + rest) == seq![without_return(line)] + lines(rest),
{
    let f = |p: Seq<char>| without_return(p);
    lemma_one_piece(line, '\n');
    lemma_split_two(line, '\n', rest);
    lemma_split_nonempty(rest, '\n');
    let pieces = split(rest, '\n');
    let all = split(line + seq!['\n'] + rest, '\n');
    assert(all == seq![line] + pieces);
    assert(all.last() == pieces.last());
    assert(all.drop_last() =~= seq![line] + pieces.drop_last());
    assert(all.drop_last().map_values(f) =~= seq![without_return(line)]
        + pieces.drop_last().map_values(f));
    assert(lines(line + seq!['\n'] + rest) =~= seq![without_return(line)] + lines(rest));
}

/// What is put on one line keeps its length and all its characters but for line breaks,
/// which become spaces.
pub proof fn one_line_keeps_the_characters(value: Seq<char>, i: int)
    requires
        0 <= i < value.len(),
    ensures
        one_line(value).len() == value.len(),
        value[i] == '\n' || value[i] == '\r' ==> one_line(value)[i] == ' ',
        value[i] != '\n' && value[i] != '\r' ==> one_line(value)[i] == value[i],
{
    lemma_replace_one(value, '\r', i);
    lemma_replace_one(replace(value, '\r', " "@), '\n', i);
}

/// Replacing a character by a space goes place by place.
proof fn lemma_replace_one(value: Seq<char>, c: char, i: int)
    requires
        0 <= i < value.len(),
    ensures
        replace(value, c, " "@).len() == value.len(),
        replace(value, c, " "@)[i] == if value[i] == c {
            ' '
        } else {
            value[i]
        },
    decreases value.len(),
{
    reveal_strlit(" ");
    let front = value.drop_last();
    if front.len() == 0 {
        assert(replace(front, c, " "@).len() == 0);
    } else if i < front.len() {
        lemma_replace_one(front, c, i);
    } else {
        lemma_replace_one(front, c, 0);
    }
}

} // verus!
