//! Text as a sequence of characters: what trimming, searching, splitting and
//! joining mean, and the functions that do it.
use vstd::prelude::*;
use vstd::string::*;

verus! {

// ---------------------------------------------------------------------------
// What the operations mean
// ---------------------------------------------------------------------------
/// Whether `c` has the Unicode property `White_Space`.
pub open spec fn is_space(c: char) -> bool {
    let n = c as int;
    ||| 0x9 <= n <= 0xd
    ||| n == 0x20
    ||| n == 0x85
    ||| n == 0xa0
    ||| n == 0x1680
    ||| 0x2000 <= n <= 0x200a
    ||| n == 0x2028
    ||| n == 0x2029
    ||| n == 0x202f
    ||| n == 0x205f
    ||| n == 0x3000
}

/// Whether `c` is one of `0` to `9`.
pub open spec fn is_digit(c: char) -> bool {
    '0' as int <= c as int <= '9' as int
}

/// Whether `c` is one of `A` to `Z`.
pub open spec fn is_upper(c: char) -> bool {
    'A' as int <= c as int <= 'Z' as int
}

/// Whether `c` is one of `a` to `z`.
pub open spec fn is_lower(c: char) -> bool {
    'a' as int <= c as int <= 'z' as int
}

/// Whether `c` is a hexadecimal digit, in either case.
pub open spec fn is_hex(c: char) -> bool {
    ||| is_digit(c)
    ||| 'a' as int <= c as int <= 'f' as int
    ||| 'A' as int <= c as int <= 'F' as int
}

/// `c` with `A` to `Z` turned into `a` to `z`.
pub open spec fn lower_char(c: char) -> char {
    if is_upper(c) {
        (c as int + 32) as char
    } else {
        c
    }
}

/// `s` with every `A` to `Z` turned into `a` to `z`.
pub open spec fn lower(s: Seq<char>) -> Seq<char> {
    s.map_values(|c: char| lower_char(c))
}

/// `s` without its leading whitespace.
pub open spec fn trim_start(s: Seq<char>) -> Seq<char>
    decreases s.len(),
{
    if s.len() > 0 && is_space(s.first()) {
        trim_start(s.drop_first())
    } else {
        s
    }
}

/// `s` without its trailing whitespace.
pub open spec fn trim_end(s: Seq<char>) -> Seq<char>
    decreases s.len(),
{
    if s.len() > 0 && is_space(s.last()) {
        trim_end(s.drop_last())
    } else {
        s
    }
}

/// `s` without the whitespace at either end.
pub open spec fn trim(s: Seq<char>) -> Seq<char> {
    trim_end(trim_start(s))
}

/// Whether `t` stands in `s` at position `i`.
pub open spec fn occurs_at(s: Seq<char>, t: Seq<char>, i: int) -> bool {
    0 <= i <= s.len() - t.len() && s.subrange(i, i + t.len()) == t
}

/// Whether `t` stands somewhere in `s`.
pub open spec fn contains(s: Seq<char>, t: Seq<char>) -> bool {
    exists|i: int| occurs_at(s, t, i)
}

/// Whether `s` begins with `t`.
pub open spec fn starts_with(s: Seq<char>, t: Seq<char>) -> bool {
    occurs_at(s, t, 0)
}

/// Whether `s` ends with `t`.
pub open spec fn ends_with(s: Seq<char>, t: Seq<char>) -> bool {
    occurs_at(s, t, s.len() - t.len())
}

/// The pieces of `s` between the occurrences of `sep`: one more than there are
/// occurrences.
pub open spec fn split(s: Seq<char>, sep: char) -> Seq<Seq<char>>
    decreases s.len(),
{
    if s.len() == 0 {
        seq![Seq::empty()]
    } else {
        let before = split(s.drop_last(), sep);
        if s.last() == sep {
            before.push(Seq::empty())
        } else {
            before.drop_last().push(before.last().push(s.last()))
        }
    }
}

/// A line without the carriage return that ends it, if one does.
pub open spec fn without_return(s: Seq<char>) -> Seq<char> {
    if s.len() > 0 && s.last() == '\r' {
        s.drop_last()
    } else {
        s
    }
}

/// The lines of `s`. Each ends in `\n` or `\r\n`, which are not part of it; the
/// last may lack the ending, and then keeps a carriage return.
pub open spec fn lines(s: Seq<char>) -> Seq<Seq<char>> {
    let pieces = split(s, '\n');
    let ended = pieces.drop_last().map_values(|p: Seq<char>| without_return(p));
    if pieces.last().len() == 0 {
        ended
    } else {
        ended.push(pieces.last())
    }
}

/// `s` with `t` in place of each `c`.
pub open spec fn replace(s: Seq<char>, c: char, t: Seq<char>) -> Seq<char>
    decreases s.len(),
{
    if s.len() == 0 {
        Seq::empty()
    } else {
        replace(s.drop_last(), c, t) + (if s.last() == c {
            t
        } else {
            seq![s.last()]
        })
    }
}

/// `n` times `c`.
pub open spec fn repeat(c: char, n: nat) -> Seq<char> {
    Seq::new(n, |i: int| c)
}

/// The parts in order, with `sep` between each two.
pub open spec fn join(parts: Seq<Seq<char>>, sep: Seq<char>) -> Seq<char>
    decreases parts.len(),
{
    if parts.len() == 0 {
        Seq::empty()
    } else if parts.len() == 1 {
        parts[0]
    } else {
        join(parts.drop_last(), sep) + sep + parts.last()
    }
}

/// The leading characters of `s` up to the first whitespace.
pub open spec fn leading_word(s: Seq<char>) -> Seq<char>
    decreases s.len(),
{
    if s.len() == 0 || is_space(s.first()) {
        Seq::empty()
    } else {
        seq![s.first()] + leading_word(s.drop_first())
    }
}

/// The texts that a list of strings holds.
pub open spec fn texts(v: Seq<String>) -> Seq<Seq<char>> {
    v.map_values(|s: String| s@)
}

/// The text in an optional string.
pub open spec fn optional_text(v: Option<String>) -> Option<Seq<char>> {
    match v {
        Some(s) => Some(s@),
        None => None,
    }
}

/// Whether text `a` comes before text `b`, character by character.
pub open spec fn text_before(a: Seq<char>, b: Seq<char>) -> bool
    decreases a.len(),
{
    if b.len() == 0 {
        false
    } else if a.len() == 0 {
        true
    } else if a.first() != b.first() {
        (a.first() as int) < b.first() as int
    } else {
        text_before(a.drop_first(), b.drop_first())
    }
}

// ---------------------------------------------------------------------------
// Between strings and characters
// ---------------------------------------------------------------------------
/// `String::push` adds one character at the end.
pub assume_specification[ String::push ](s: &mut String, c: char)
    ensures
        final(s)@ == old(s)@.push(c),
;

/// The characters of `text`, one by one.
pub fn chars_of(text: &str) -> (r: Vec<char>)
    ensures
        r@ == text@,
{
    let mut r: Vec<char> = Vec::new();
    for c in it: text.chars()
        invariant
            r@ == it.seq().take(it.index()),
            it.seq() == text@,
    {
        r.push(c);
    }
    r
}

/// The characters of `chars` from `from` up to `to`, as text.
pub fn text_between(chars: &Vec<char>, from: usize, to: usize) -> (r: String)
    requires
        from <= to <= chars@.len(),
    ensures
        r@ == chars@.subrange(from as int, to as int),
{
    let mut r = String::new();
    let mut i: usize = from;
    while i < to
        invariant
            from <= i <= to <= chars@.len(),
            r@ == chars@.subrange(from as int, i as int),
        decreases to - i,
    {
        r.push(chars[i]);
        i = i + 1;
    }
    r
}

/// Whether two texts are the same.
pub fn same(a: &str, b: &str) -> (r: bool)
    ensures
        r == (a@ == b@),
{
    a.to_owned() == b.to_owned()
}

/// A copy of an optional text.
pub fn copy_optional(v: &Option<String>) -> (r: Option<String>)
    ensures
        r == *v,
{
    match v {
        Some(s) => Some(s.clone()),
        None => None,
    }
}

// ---------------------------------------------------------------------------
// Characters
// ---------------------------------------------------------------------------
/// The number that stands for `c`.
pub fn code_point(c: char) -> (n: u32)
    ensures
        n == c as int,
{
    c as u32
}

/// Whether `c` is whitespace.
pub fn char_is_space(c: char) -> (r: bool)
    ensures
        r == is_space(c),
{
    let n: u32 = c as u32;
    (0x9 <= n && n <= 0xd) || n == 0x20 || n == 0x85 || n == 0xa0 || n == 0x1680 || (0x2000 <= n && n
        <= 0x200a) || n == 0x2028 || n == 0x2029 || n == 0x202f || n == 0x205f || n == 0x3000
}

/// Whether `c` is a decimal digit.
pub fn char_is_digit(c: char) -> (r: bool)
    ensures
        r == is_digit(c),
{
    let n: u32 = c as u32;
    0x30 <= n && n <= 0x39
}

/// Whether `c` is one of `A` to `Z`.
pub fn char_is_upper(c: char) -> (r: bool)
    ensures
        r == is_upper(c),
{
    let n: u32 = c as u32;
    0x41 <= n && n <= 0x5a
}

/// Whether `c` is a hexadecimal digit.
pub fn char_is_hex(c: char) -> (r: bool)
    ensures
        r == is_hex(c),
{
    let n: u32 = c as u32;
    (0x30 <= n && n <= 0x39) || (0x61 <= n && n <= 0x66) || (0x41 <= n && n <= 0x46)
}

/// `c` in lower case, where it is one of `A` to `Z`.
pub fn char_lower(c: char) -> (r: char)
    ensures
        r == lower_char(c),
{
    if char_is_upper(c) {
        let n: u8 = c as u8;
        (n + 32) as char
    } else {
        c
    }
}

// ---------------------------------------------------------------------------
// Trimming
// ---------------------------------------------------------------------------
/// `trim_start` drops exactly a run of whitespace at the front.
pub proof fn lemma_trim_start(s: Seq<char>, n: int)
    requires
        0 <= n <= s.len(),
        forall|i: int| 0 <= i < n ==> is_space(#[trigger] s[i]),
        n < s.len() ==> !is_space(s[n]),
    ensures
        trim_start(s) == s.skip(n),
    decreases n,
{
    if n > 0 {
        assert(is_space(s[0]));
        assert forall|i: int| 0 <= i < n - 1 implies is_space(#[trigger] s.drop_first()[i]) by {
            assert(is_space(s[i + 1]));
        }
        lemma_trim_start(s.drop_first(), n - 1);
        assert(s.drop_first().skip(n - 1) == s.skip(n));
    } else {
        assert(s.skip(0) == s);
    }
}

/// `trim_end` drops exactly a run of whitespace at the back.
pub proof fn lemma_trim_end(s: Seq<char>, n: int)
    requires
        0 <= n <= s.len(),
        forall|i: int| n <= i < s.len() ==> is_space(#[trigger] s[i]),
        n > 0 ==> !is_space(s[n - 1]),
    ensures
        trim_end(s) == s.take(n),
    decreases s.len() - n,
{
    if n < s.len() {
        assert(is_space(s[s.len() - 1]));
        lemma_trim_end(s.drop_last(), n);
        assert(s.drop_last().take(n) == s.take(n));
    } else {
        assert(s.take(n) == s);
    }
}

/// How many characters of whitespace `chars` begins with.
pub fn leading_spaces(chars: &Vec<char>) -> (n: usize)
    ensures
        n <= chars@.len(),
        trim_start(chars@) == chars@.skip(n as int),
        forall|i: int| 0 <= i < n ==> is_space(#[trigger] chars@[i]),
        n < chars@.len() ==> !is_space(chars@[n as int]),
{
    let mut n: usize = 0;
    while n < chars.len() && char_is_space(chars[n])
        invariant
            n <= chars@.len(),
            forall|i: int| 0 <= i < n ==> is_space(#[trigger] chars@[i]),
        decreases chars@.len() - n,
    {
        n = n + 1;
    }
    proof {
        lemma_trim_start(chars@, n as int);
    }
    n
}

/// Where the whitespace that ends `chars` begins.
pub fn trailing_spaces(chars: &Vec<char>) -> (n: usize)
    ensures
        n <= chars@.len(),
        trim_end(chars@) == chars@.take(n as int),
{
    let mut n: usize = chars.len();
    while n > 0 && char_is_space(chars[n - 1])
        invariant
            n <= chars@.len(),
            forall|i: int| n <= i < chars@.len() ==> is_space(#[trigger] chars@[i]),
        decreases n,
    {
        n = n - 1;
    }
    proof {
        lemma_trim_end(chars@, n as int);
    }
    n
}

/// `text` without leading whitespace.
pub fn trimmed_start(text: &str) -> (r: String)
    ensures
        r@ == trim_start(text@),
{
    let chars = chars_of(text);
    let n: usize = leading_spaces(&chars);
    assert(chars@.skip(n as int) == chars@.subrange(n as int, chars@.len() as int));
    text_between(&chars, n, chars.len())
}

/// `text` without trailing whitespace.
pub fn trimmed_end(text: &str) -> (r: String)
    ensures
        r@ == trim_end(text@),
{
    let chars = chars_of(text);
    let n: usize = trailing_spaces(&chars);
    assert(chars@.take(n as int) == chars@.subrange(0, n as int));
    text_between(&chars, 0, n)
}

/// `text` without whitespace at either end.
pub fn trimmed(text: &str) -> (r: String)
    ensures
        r@ == trim(text@),
{
    let start = trimmed_start(text);
    trimmed_end(start.as_str())
}

// ---------------------------------------------------------------------------
// Searching
// ---------------------------------------------------------------------------
/// Whether `part` stands in `chars` at position `at`.
pub fn stands_at(chars: &Vec<char>, part: &Vec<char>, at: usize) -> (r: bool)
    requires
        at <= chars@.len(),
    ensures
        r == occurs_at(chars@, part@, at as int),
{
    if part.len() > chars.len() - at {
        return false;
    }
    let mut k: usize = 0;
    while k < part.len()
        invariant
            k <= part@.len(),
            at + part@.len() <= chars.len(),
            forall|j: int| 0 <= j < k ==> chars@[at + j] == #[trigger] part@[j],
        decreases part@.len() - k,
    {
        if chars[at + k] != part[k] {
            proof {
                let window = chars@.subrange(at as int, at + part@.len());
                assert(window[k as int] != part@[k as int]);
            }
            return false;
        }
        k = k + 1;
    }
    proof {
        let window = chars@.subrange(at as int, at + part@.len());
        assert(window =~= part@);
    }
    true
}

/// Where `part` first stands in `chars`.
pub fn first_at(chars: &Vec<char>, part: &Vec<char>) -> (r: Option<usize>)
    ensures
        match r {
            Some(at) => occurs_at(chars@, part@, at as int) && forall|j: int|
                0 <= j < at ==> !#[trigger] occurs_at(chars@, part@, j),
            None => !contains(chars@, part@),
        },
{
    let mut at: usize = 0;
    while at < chars.len()
        invariant
            at <= chars@.len(),
            forall|j: int| 0 <= j < at ==> !#[trigger] occurs_at(chars@, part@, j),
        decreases chars@.len() - at,
    {
        if stands_at(chars, part, at) {
            return Some(at);
        }
        at = at + 1;
    }
    if stands_at(chars, part, at) {
        Some(at)
    } else {
        None
    }
}

/// Whether `part` stands somewhere in `text`.
pub fn mentions(text: &str, part: &str) -> (r: bool)
    ensures
        r == contains(text@, part@),
{
    match first_at(&chars_of(text), &chars_of(part)) {
        Some(_) => true,
        None => false,
    }
}

/// Whether `text` begins with `part`.
pub fn begins(text: &str, part: &str) -> (r: bool)
    ensures
        r == starts_with(text@, part@),
{
    stands_at(&chars_of(text), &chars_of(part), 0)
}

/// Whether `text` ends with `part`.
pub fn ends(text: &str, part: &str) -> (r: bool)
    ensures
        r == ends_with(text@, part@),
{
    let chars = chars_of(text);
    let tail = chars_of(part);
    if tail.len() > chars.len() {
        return false;
    }
    stands_at(&chars, &tail, chars.len() - tail.len())
}

// ---------------------------------------------------------------------------
// Taking apart and putting together
// ---------------------------------------------------------------------------
/// A text that is split has at least one piece.
pub proof fn lemma_split_nonempty(s: Seq<char>, sep: char)
    ensures
        split(s, sep).len() >= 1,
    decreases s.len(),
{
    if s.len() > 0 {
        lemma_split_nonempty(s.drop_last(), sep);
    }
}

/// The pieces of `text` between the occurrences of `sep`.
pub fn split_text(text: &str, sep: char) -> (r: Vec<String>)
    ensures
        texts(r@) == split(text@, sep),
        r@.len() >= 1,
{
    let chars = chars_of(text);
    let mut r: Vec<String> = Vec::new();
    let mut piece = String::new();
    let mut i: usize = 0;
    assert(texts(r@).push(piece@) =~= split(chars@.take(0), sep));
    while i < chars.len()
        invariant
            i <= chars@.len(),
            texts(r@).push(piece@) == split(chars@.take(i as int), sep),
        decreases chars@.len() - i,
    {
        let ghost done = chars@.take(i + 1);
        let ghost before = texts(r@).push(piece@);
        assert(done.drop_last() == chars@.take(i as int));
        assert(done.last() == chars@[i as int]);
        let ghost old_r = r@;
        if chars[i] == sep {
            r.push(piece);
            piece = String::new();
            assert(texts(r@) =~= before);
        } else {
            piece.push(chars[i]);
            assert(before.drop_last() =~= texts(r@));
            assert(before.last().push(chars@[i as int]) == piece@);
        }
        i = i + 1;
    }
    let ghost old_r = r@;
    r.push(piece);
    assert(texts(r@) =~= texts(old_r).push(piece@));
    assert(chars@.take(chars@.len() as int) == chars@);
    r
}

/// The lines of `text`.
pub fn lines_of(text: &str) -> (r: Vec<String>)
    ensures
        texts(r@) == lines(text@),
{
    let pieces = split_text(text, '\n');
    let ghost model = split(text@, '\n');
    let last: usize = pieces.len() - 1;
    let mut r: Vec<String> = Vec::new();
    let mut i: usize = 0;
    while i < last
        invariant
            last == pieces@.len() - 1,
            texts(pieces@) == model,
            i <= last,
            texts(r@) == model.take(i as int).map_values(|p: Seq<char>| without_return(p)),
        decreases last - i,
    {
        let chars = chars_of(pieces[i].as_str());
        assert(chars@ == model[i as int]);
        let n: usize = chars.len();
        let ghost old_r = r@;
        if n > 0 && chars[n - 1] == '\r' {
            assert(chars@.subrange(0, n - 1) == chars@.drop_last());
            r.push(text_between(&chars, 0, n - 1));
        } else {
            r.push(pieces[i].clone());
        }
        assert(texts(r@) =~= texts(old_r).push(without_return(model[i as int])));
        assert(model.take(i + 1).map_values(|p: Seq<char>| without_return(p)) =~= model.take(
            i as int,
        ).map_values(|p: Seq<char>| without_return(p)).push(without_return(model[i as int])));
        i = i + 1;
    }
    assert(model.drop_last() == model.take(last as int));
    assert(pieces@[last as int]@ == model.last());
    if !pieces[last].as_str().is_empty() {
        let ghost old_r = r@;
        r.push(pieces[last].clone());
        assert(texts(r@) =~= texts(old_r).push(model.last()));
    }
    r
}

/// `text` with `part` in place of each `c`.
pub fn replaced(text: &str, c: char, part: &str) -> (r: String)
    ensures
        r@ == replace(text@, c, part@),
{
    let chars = chars_of(text);
    let mut r = String::new();
    let mut i: usize = 0;
    while i < chars.len()
        invariant
            i <= chars@.len(),
            r@ == replace(chars@.take(i as int), c, part@),
        decreases chars@.len() - i,
    {
        let ghost before = r@;
        if chars[i] == c {
            r.append(part);
        } else {
            r.push(chars[i]);
            assert(r@ =~= before + seq![chars@[i as int]]);
        }
        assert(chars@.take(i + 1).drop_last() == chars@.take(i as int));
        i = i + 1;
    }
    assert(chars@.take(chars@.len() as int) == chars@);
    r
}

/// `text` with every `A` to `Z` in lower case.
pub fn lowered(text: &str) -> (r: String)
    ensures
        r@ == lower(text@),
{
    let chars = chars_of(text);
    let mut r = String::new();
    let mut i: usize = 0;
    while i < chars.len()
        invariant
            i <= chars@.len(),
            r@ == lower(chars@.take(i as int)),
        decreases chars@.len() - i,
    {
        r.push(char_lower(chars[i]));
        assert(r@ =~= lower(chars@.take(i + 1)));
        i = i + 1;
    }
    assert(chars@.take(chars@.len() as int) == chars@);
    r
}

/// `n` times `c`.
pub fn repeated(c: char, n: usize) -> (r: String)
    ensures
        r@ == repeat(c, n as nat),
{
    let mut r = String::new();
    let mut i: usize = 0;
    while i < n
        invariant
            i <= n,
            r@ == repeat(c, i as nat),
        decreases n - i,
    {
        r.push(c);
        assert(r@ =~= repeat(c, (i + 1) as nat));
        i = i + 1;
    }
    r
}

/// The parts in order, with `sep` between each two.
pub fn joined(parts: &Vec<String>, sep: &str) -> (r: String)
    ensures
        r@ == join(texts(parts@), sep@),
{
    let ghost model = texts(parts@);
    if parts.len() == 0 {
        return String::new();
    }
    let mut r = parts[0].clone();
    let mut i: usize = 1;
    assert(model.take(1)[0] == r@);
    while i < parts.len()
        invariant
            model == texts(parts@),
            1 <= i <= parts@.len(),
            r@ == join(model.take(i as int), sep@),
        decreases parts@.len() - i,
    {
        r.append(sep);
        r.append(parts[i].as_str());
        assert(model.take(i + 1).drop_last() == model.take(i as int));
        assert(model.take(i + 1).last() == parts@[i as int]@);
        i = i + 1;
    }
    assert(model.take(parts@.len() as int) == model);
    r
}

/// The first word of `text`; empty where `text` holds no word.
pub fn first_word(text: &str) -> (r: String)
    ensures
        r@ == leading_word(trim_start(text@)),
{
    let start = trimmed_start(text);
    let chars = chars_of(start.as_str());
    let mut n: usize = 0;
    assert(chars@.skip(0) == chars@);
    assert(chars@.take(0) + leading_word(chars@) =~= leading_word(chars@));
    while n < chars.len() && !char_is_space(chars[n])
        invariant
            n <= chars@.len(),
            leading_word(chars@) == chars@.take(n as int) + leading_word(chars@.skip(n as int)),
        decreases chars@.len() - n,
    {
        proof {
            let rest = chars@.skip(n as int);
            assert(rest.first() == chars@[n as int]);
            assert(rest.drop_first() == chars@.skip(n + 1));
            assert(chars@.take(n + 1) =~= chars@.take(n as int) + seq![chars@[n as int]]);
            assert(leading_word(chars@) =~= chars@.take(n + 1) + leading_word(chars@.skip(n + 1)));
        }
        n = n + 1;
    }
    assert(leading_word(chars@.skip(n as int)) == Seq::<char>::empty()) by {
        if n < chars@.len() {
            assert(chars@.skip(n as int).first() == chars@[n as int]);
        }
    }
    assert(leading_word(chars@) =~= chars@.subrange(0, n as int));
    text_between(&chars, 0, n)
}

/// Whether text `a` comes before text `b`.
pub fn comes_before(a: &str, b: &str) -> (r: bool)
    ensures
        r == text_before(a@, b@),
{
    let x = chars_of(a);
    let y = chars_of(b);
    let mut i: usize = 0;
    assert(x@.skip(0) == x@);
    assert(y@.skip(0) == y@);
    while i < x.len() && i < y.len() && x[i] == y[i]
        invariant
            i <= x@.len(),
            i <= y@.len(),
            text_before(x@, y@) == text_before(x@.skip(i as int), y@.skip(i as int)),
        decreases x@.len() - i,
    {
        assert(x@.skip(i as int).drop_first() == x@.skip(i + 1));
        assert(y@.skip(i as int).drop_first() == y@.skip(i + 1));
        assert(x@.skip(i as int).first() == x@[i as int]);
        assert(y@.skip(i as int).first() == y@[i as int]);
        i = i + 1;
    }
    if i >= y.len() {
        false
    } else if i >= x.len() {
        true
    } else {
        assert(x@.skip(i as int).first() == x@[i as int]);
        assert(y@.skip(i as int).first() == y@[i as int]);
        code_point(x[i]) < code_point(y[i])
    }
}

/// Adds a line.
pub(crate) fn push_text(lines: &mut Vec<String>, line: String)
    ensures
        texts(final(lines)@) == texts(old(lines)@).push(line@),
{
    let ghost before = lines@;
    lines.push(line);
    assert(texts(lines@) =~= texts(before).push(line@));
}

/// Whether `text` is among `all`.
pub fn holds_text(all: &Vec<String>, text: &str) -> (r: bool)
    ensures
        r == texts(all@).contains(text@),
{
    let ghost model = texts(all@);
    let mut i: usize = 0;
    while i < all.len()
        invariant
            model == texts(all@),
            i <= all@.len(),
            forall|k: int| 0 <= k < i ==> #[trigger] model[k] != text@,
        decreases all@.len() - i,
    {
        if same(all[i].as_str(), text) {
            assert(model[i as int] == text@);
            return true;
        }
        i = i + 1;
    }
    false
}

/// Text before a separator that does not occur in it is told by the whole.
pub proof fn lemma_separated(a: Seq<char>, b: Seq<char>, sep: char, x: Seq<char>, y: Seq<char>)
    requires
        a + seq![sep] + x == b + seq![sep] + y,
        forall|i: int| 0 <= i < a.len() ==> #[trigger] a[i] != sep,
        forall|i: int| 0 <= i < b.len() ==> #[trigger] b[i] != sep,
    ensures
        a == b,
        x == y,
{
    let whole = a + seq![sep] + x;
    let other = b + seq![sep] + y;
    assert(whole[a.len() as int] == sep);
    assert(other[b.len() as int] == sep);
    if a.len() < b.len() {
        assert(other[a.len() as int] == b[a.len() as int]);
    }
    if b.len() < a.len() {
        assert(whole[b.len() as int] == a[b.len() as int]);
    }
    assert(a =~= whole.take(a.len() as int));
    assert(b =~= other.take(b.len() as int));
    assert(x =~= whole.skip((a.len() + 1) as int));
    assert(y =~= other.skip((b.len() + 1) as int));
}

/// Text without a separator goes to the last piece.
pub proof fn lemma_split_tail(base: Seq<char>, tail: Seq<char>, sep: char)
    requires
        !tail.contains(sep),
    ensures
        split(base + tail, sep) == split(base, sep).drop_last().push(
            split(base, sep).last() + tail,
        ),
    decreases tail.len(),
{
    lemma_split_nonempty(base, sep);
    if tail.len() == 0 {
        assert(base + tail =~= base);
        assert(split(base, sep).last() + tail =~= split(base, sep).last());
        assert(split(base, sep) =~= split(base, sep).drop_last().push(split(base, sep).last()));
    } else {
        let front = tail.drop_last();
        assert(!front.contains(sep)) by {
            if front.contains(sep) {
                let k = choose|k: int| 0 <= k < front.len() && front[k] == sep;
                assert(tail[k] == sep);
            }
        }
        assert(tail[tail.len() - 1] != sep);
        lemma_split_tail(base, front, sep);
        assert((base + tail).drop_last() =~= base + front);
        assert((base + tail).last() == tail.last());
        let before = split(base + front, sep);
        assert(before.drop_last() =~= split(base, sep).drop_last());
        assert(before.last().push(tail.last()) =~= split(base, sep).last() + tail);
    }
}

/// Parts that hold no separator are what splitting gives back once they are joined.
pub proof fn splitting_undoes_joining(parts: Seq<Seq<char>>, sep: char)
    requires
        parts.len() > 0,
        forall|i: int| 0 <= i < parts.len() ==> !(#[trigger] parts[i]).contains(sep),
    ensures
        split(join(parts, seq![sep]), sep) == parts,
    decreases parts.len(),
{
    let none = Seq::<char>::empty();
    let last = parts.last();
    assert(!parts[parts.len() - 1].contains(sep));
    if parts.len() == 1 {
        lemma_split_tail(none, last, sep);
        assert(none + last =~= last);
        assert(split(none, sep) == seq![none]);
        assert(split(last, sep) =~= parts);
    } else {
        let front = parts.drop_last();
        assert forall|i: int| 0 <= i < front.len() implies !(#[trigger] front[i]).contains(sep) by {
            assert(!parts[i].contains(sep));
        }
        splitting_undoes_joining(front, sep);
        let base = join(front, seq![sep]) + seq![sep];
        assert(base.drop_last() =~= join(front, seq![sep]));
        assert(split(base, sep) == front.push(none));
        lemma_split_tail(base, last, sep);
        assert(front.push(none).drop_last() =~= front);
        assert(none + last =~= last);
        assert(split(base + last, sep) =~= parts);
    }
}

} // verus!
