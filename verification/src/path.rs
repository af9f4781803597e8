//! Paths in the manner of Unix: which parts they have, when two name the same
//! place, and which comes first.
use vstd::prelude::*;
use vstd::string::*;

use crate::text::{
    chars_of, comes_before, lemma_split_nonempty, lemma_split_tail, same, split, split_text,
    text_before, texts,
};

verus! {

/// One part of a path.
pub struct Part {
    /// 0 for the root, 1 for `.`, 2 for `..`, 3 for a name.
    pub rank: int,
    /// The name, where the part is one.
    pub name: Seq<char>,
}

/// The part that a piece between slashes stands for. An empty piece is none,
/// and `.` is one only at the beginning of a relative path.
pub open spec fn piece_part(piece: Seq<char>, begins_relative: bool) -> Option<Part> {
    if piece.len() == 0 {
        None
    } else if piece == "."@ {
        if begins_relative {
            Some(Part { rank: 1, name: Seq::empty() })
        } else {
            None
        }
    } else if piece == ".."@ {
        Some(Part { rank: 2, name: Seq::empty() })
    } else {
        Some(Part { rank: 3, name: piece })
    }
}

/// Whether the path begins at the root.
pub open spec fn rooted(path: Seq<char>) -> bool {
    path.len() > 0 && path[0] == '/'
}

/// The parts for the pieces of a path.
pub open spec fn piece_parts(pieces: Seq<Seq<char>>, from_root: bool) -> Seq<Part>
    decreases pieces.len(),
{
    if pieces.len() == 0 {
        if from_root {
            seq![Part { rank: 0, name: Seq::empty() }]
        } else {
            Seq::empty()
        }
    } else {
        let before = piece_parts(pieces.drop_last(), from_root);
        match piece_part(pieces.last(), pieces.len() == 1 && !from_root) {
            Some(part) => before.push(part),
            None => before,
        }
    }
}

/// The parts of a path.
pub open spec fn parts(path: Seq<char>) -> Seq<Part> {
    piece_parts(split(path, '/'), rooted(path))
}

/// Whether two paths have the same parts.
pub open spec fn same_place(a: Seq<char>, b: Seq<char>) -> bool {
    parts(a) == parts(b)
}

/// The name that a path ends in; empty where it ends in none.
pub open spec fn base_name(path: Seq<char>) -> Seq<char> {
    let p = parts(path);
    if p.len() > 0 && p.last().rank == 3 {
        p.last().name
    } else {
        Seq::empty()
    }
}

/// Whether part `a` comes before part `b`.
pub open spec fn part_before(a: Part, b: Part) -> bool {
    a.rank < b.rank || (a.rank == b.rank && text_before(a.name, b.name))
}

/// Whether the path with parts `a` comes before the one with parts `b`.
pub open spec fn parts_before(a: Seq<Part>, b: Seq<Part>) -> bool
    decreases a.len(),
{
    if b.len() == 0 {
        false
    } else if a.len() == 0 {
        true
    } else if a.first() != b.first() {
        part_before(a.first(), b.first())
    } else {
        parts_before(a.drop_first(), b.drop_first())
    }
}

/// `tail` seen from `base`: itself where it begins at the root, else below
/// `base`.
pub open spec fn below(base: Seq<char>, tail: Seq<char>) -> Seq<char> {
    if rooted(tail) || base.len() == 0 {
        tail
    } else if base.last() == '/' {
        base + tail
    } else {
        base + "/"@ + tail
    }
}

/// Whether `path` stands directly in the directory `parent`.
pub open spec fn stands_in(path: Seq<char>, parent: Seq<char>) -> bool {
    let p = parts(path);
    p.len() > 0 && p.last().rank != 0 && p.drop_last() == parts(parent)
}

/// One part of a path.
#[derive(Debug, Clone, PartialEq, Eq)]
pub struct PathPart {
    /// 0 for the root, 1 for `.`, 2 for `..`, 3 for a name.
    pub rank: u8,
    /// The name, where the part is one.
    pub name: String,
}

impl View for PathPart {
    type V = Part;

    open spec fn view(&self) -> Part {
        Part { rank: self.rank as int, name: self.name@ }
    }
}

/// The parts that a list holds.
pub open spec fn part_views(v: Seq<PathPart>) -> Seq<Part> {
    v.map_values(|p: PathPart| p@)
}

/// Whether `path` begins at the root.
pub fn is_rooted(path: &str) -> (r: bool)
    ensures
        r == rooted(path@),
{
    let chars = chars_of(path);
    chars.len() > 0 && chars[0] == '/'
}

/// The parts of `path`.
pub fn path_parts(path: &str) -> (r: Vec<PathPart>)
    ensures
        part_views(r@) == parts(path@),
{
    let from_root = is_rooted(path);
    let pieces = split_text(path, '/');
    let ghost model = split(path@, '/');
    let mut r: Vec<PathPart> = Vec::new();
    if from_root {
        r.push(PathPart { rank: 0, name: String::new() });
    }
    assert(part_views(r@) =~= piece_parts(model.take(0), from_root));
    let mut i: usize = 0;
    while i < pieces.len()
        invariant
            model == texts(pieces@),
            i <= pieces@.len(),
            part_views(r@) == piece_parts(model.take(i as int), from_root),
        decreases pieces@.len() - i,
    {
        let piece = &pieces[i];
        let ghost before = r@;
        let begins_relative = i == 0 && !from_root;
        proof {
            assert(model.take(i + 1).drop_last() == model.take(i as int));
            assert(model.take(i + 1).last() == piece@);
            reveal_strlit(".");
            reveal_strlit("..");
        }
        if piece.as_str().is_empty() {
        } else if same(piece.as_str(), ".") {
            if begins_relative {
                r.push(PathPart { rank: 1, name: String::new() });
                assert(part_views(r@) =~= part_views(before).push(
                    Part { rank: 1, name: Seq::empty() },
                ));
            }
        } else if same(piece.as_str(), "..") {
            r.push(PathPart { rank: 2, name: String::new() });
            assert(part_views(r@) =~= part_views(before).push(
                Part { rank: 2, name: Seq::empty() },
            ));
        } else {
            r.push(PathPart { rank: 3, name: piece.clone() });
            assert(part_views(r@) =~= part_views(before).push(Part { rank: 3, name: piece@ }));
        }
        i = i + 1;
    }
    assert(model.take(pieces@.len() as int) == model);
    r
}

/// Whether two parts are the same.
fn same_part(a: &PathPart, b: &PathPart) -> (r: bool)
    ensures
        r == (a@ == b@),
{
    a.rank == b.rank && same(a.name.as_str(), b.name.as_str())
}

/// Whether two lists hold the same parts.
fn same_parts(a: &Vec<PathPart>, b: &Vec<PathPart>) -> (r: bool)
    ensures
        r == (part_views(a@) == part_views(b@)),
{
    if a.len() != b.len() {
        assert(part_views(a@).len() != part_views(b@).len());
        return false;
    }
    let mut i: usize = 0;
    while i < a.len()
        invariant
            a@.len() == b@.len(),
            i <= a@.len(),
            forall|j: int| 0 <= j < i ==> part_views(a@)[j] == part_views(b@)[j],
        decreases a@.len() - i,
    {
        if !same_part(&a[i], &b[i]) {
            assert(part_views(a@)[i as int] != part_views(b@)[i as int]);
            return false;
        }
        i = i + 1;
    }
    assert(part_views(a@) =~= part_views(b@));
    true
}

/// Whether two paths name the same place.
pub fn same_path(a: &str, b: &str) -> (r: bool)
    ensures
        r == same_place(a@, b@),
{
    same_parts(&path_parts(a), &path_parts(b))
}

/// Whether path `a` comes before path `b`.
pub fn path_comes_before(a: &str, b: &str) -> (r: bool)
    ensures
        r == parts_before(parts(a@), parts(b@)),
{
    let x = path_parts(a);
    let y = path_parts(b);
    let ghost mx = part_views(x@);
    let ghost my = part_views(y@);
    let mut i: usize = 0;
    assert(mx.skip(0) == mx);
    assert(my.skip(0) == my);
    while i < x.len() && i < y.len() && same_part(&x[i], &y[i])
        invariant
            mx == part_views(x@),
            my == part_views(y@),
            i <= x@.len(),
            i <= y@.len(),
            parts_before(mx, my) == parts_before(mx.skip(i as int), my.skip(i as int)),
        decreases x@.len() - i,
    {
        assert(mx.skip(i as int).drop_first() == mx.skip(i + 1));
        assert(my.skip(i as int).drop_first() == my.skip(i + 1));
        i = i + 1;
    }
    if i >= y.len() {
        false
    } else if i >= x.len() {
        true
    } else {
        assert(mx.skip(i as int).first() == x@[i as int]@);
        assert(my.skip(i as int).first() == y@[i as int]@);
        x[i].rank < y[i].rank || (x[i].rank == y[i].rank && comes_before(
            x[i].name.as_str(),
            y[i].name.as_str(),
        ))
    }
}

/// The name that `path` ends in.
pub fn file_name(path: &str) -> (r: String)
    ensures
        r@ == base_name(path@),
{
    let p = path_parts(path);
    let n: usize = p.len();
    if n > 0 && p[n - 1].rank == 3 {
        assert(part_views(p@).last() == p@[n - 1]@);
        p[n - 1].name.clone()
    } else {
        String::new()
    }
}

/// `tail` below `base`.
pub fn join_path(base: &str, tail: &str) -> (r: String)
    ensures
        r@ == below(base@, tail@),
{
    let chars = chars_of(base);
    if is_rooted(tail) || chars.len() == 0 {
        return tail.to_owned();
    }
    let mut r = base.to_owned();
    if chars[chars.len() - 1] != '/' {
        r.append("/");
    }
    r.append(tail);
    r
}

/// Whether `path` stands directly in `parent`.
pub fn is_child(path: &str, parent: &str) -> (r: bool)
    ensures
        r == stands_in(path@, parent@),
{
    let mut p = path_parts(path);
    let ghost whole = part_views(p@);
    match p.pop() {
        Some(last) => {
            assert(whole.last() == last@);
            assert(part_views(p@) =~= whole.drop_last());
            last.rank != 0 && same_parts(&p, &path_parts(parent))
        },
        None => false,
    }
}

// ---------------------------------------------------------------------------
// Names in a directory
// ---------------------------------------------------------------------------
/// Whether `name` can stand in a directory: it is neither empty nor `.` nor `..`,
/// and holds no slash.
pub open spec fn is_file_name(name: Seq<char>) -> bool {
    &&& name.len() > 0
    &&& name != "."@
    &&& name != ".."@
    &&& !name.contains('/')
}

/// What is joined to a directory stands directly in it, under its name.
pub proof fn joined_name_stands_in(directory: Seq<char>, name: Seq<char>)
    requires
        directory.len() > 0,
        is_file_name(name),
    ensures
        stands_in(below(directory, name), directory),
        base_name(below(directory, name)) == name,
{
    reveal_strlit("/");
    let path = below(directory, name);
    let none = Seq::<char>::empty();
    assert(!rooted(name)) by {
        if rooted(name) {
            assert(name.contains(name[0]));
        }
    }
    let base = if directory.last() == '/' {
        directory
    } else {
        directory + "/"@
    };
    assert(path =~= base + name);
    assert(base.last() == '/');
    let from_root = rooted(directory);
    assert(rooted(path) == from_root);
    assert(rooted(base) == from_root);
    lemma_split_nonempty(base.drop_last(), '/');
    lemma_split_tail(base, name, '/');
    let pieces = split(base, '/');
    assert(pieces.last() == none);
    assert(none + name =~= name);
    let front = pieces.drop_last();
    assert(split(path, '/') == front.push(name));
    assert(front.push(name).drop_last() =~= front);
    assert(parts(path) == piece_parts(front, from_root).push(Part { rank: 3, name }));
    assert(parts(directory) == piece_parts(front, from_root)) by {
        if directory.last() != '/' {
            assert(base.drop_last() =~= directory);
            assert(front =~= split(directory, '/'));
        } else {
            assert(split(directory, '/') == pieces);
        }
    }
    assert(parts(path).drop_last() =~= parts(directory));
}

} // verus!
