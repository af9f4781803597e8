//! Text inside a shell command and inside AppleScript.
use vstd::prelude::*;
use vstd::string::*;

use crate::text::{replace, replaced};

verus! {

/// `value` as one word of a shell command: between apostrophes, with each
/// apostrophe of its own written outside of them.
pub open spec fn shell_quoted(value: Seq<char>) -> Seq<char> {
    if value.len() == 0 {
        "''"@
    } else {
        "'"@ + replace(value, '\'', "'\\''"@) + "'"@
    }
}

/// `value` with what AppleScript needs escaped, on one line.
pub open spec fn script_escaped(value: Seq<char>) -> Seq<char> {
    replace(
        replace(replace(replace(value, '\\', "\\\\"@), '"', "\\\""@), '\r', " "@),
        '\n',
        " "@,
    )
}

/// `value` as a text of AppleScript.
pub open spec fn script_quoted(value: Seq<char>) -> Seq<char> {
    "\""@ + script_escaped(value) + "\""@
}

/// `value` as one word of a shell command.
pub fn shell_quote(value: &str) -> (r: String)
    ensures
        r@ == shell_quoted(value@),
{
    if value.is_empty() {
        return "''".to_owned();
    }
    let mut r = "'".to_owned();
    r.append(replaced(value, '\'', "'\\''").as_str());
    r.append("'");
    r
}

/// `value` as a text of AppleScript.
pub fn applescript_string(value: &str) -> (r: String)
    ensures
        r@ == script_quoted(value@),
{
    let slashes = replaced(value, '\\', "\\\\");
    let marks = replaced(slashes.as_str(), '"', "\\\"");
    let line = replaced(marks.as_str(), '\r', " ");
    let feeds = replaced(line.as_str(), '\n', " ");
    let mut r = "\"".to_owned();
    r.append(feeds.as_str());
    r.append("\"");
    r
}

// ---------------------------------------------------------------------------
// What the readers make of it
// ---------------------------------------------------------------------------
/// A character in front of what was read, if anything could be.
pub open spec fn led_by(c: char, rest: Option<Seq<char>>) -> Option<Seq<char>> {
    match rest {
        Some(text) => Some(seq![c] + text),
        None => None,
    }
}

/// What a shell reads in `s` as the rest of one word, inside apostrophes or outside.
/// Inside of them every character stands for itself; outside, a character with a
/// backslash in front does. Any other character outside of them could end the word
/// or have a meaning of its own: then, and where an apostrophe is left open, nothing
/// is read.
pub open spec fn shell_rest(s: Seq<char>, inside: bool) -> Option<Seq<char>>
    decreases s.len(),
{
    if s.len() == 0 {
        if inside {
            None
        } else {
            Some(Seq::empty())
        }
    } else if s[0] == '\'' {
        shell_rest(s.skip(1), !inside)
    } else if inside {
        led_by(s[0], shell_rest(s.skip(1), true))
    } else if s[0] == '\\' && s.len() >= 2 && s[1] != '\n' {
        led_by(s[1], shell_rest(s.skip(2), false))
    } else {
        None
    }
}

/// What a shell reads in `s` where all of it is one word, which has no part that a
/// shell expands or splits.
pub open spec fn shell_word(s: Seq<char>) -> Option<Seq<char>> {
    if s.len() == 0 {
        None
    } else {
        shell_rest(s, false)
    }
}

/// Replacing in two parts is replacing in the whole.
pub proof fn lemma_replace_concat(a: Seq<char>, b: Seq<char>, c: char, t: Seq<char>)
    ensures
        replace(a + b, c, t) == replace(a, c, t) + replace(b, c, t),
    decreases b.len(),
{
    if b.len() == 0 {
        assert(a + b =~= a);
    } else {
        lemma_replace_concat(a, b.drop_last(), c, t);
        assert((a + b).drop_last() =~= a + b.drop_last());
        assert(replace(a + b, c, t) =~= replace(a, c, t) + replace(b, c, t));
    }
}

/// The first character decides how a replacement begins.
proof fn lemma_replace_first(s: Seq<char>, c: char, t: Seq<char>)
    requires
        s.len() > 0,
    ensures
        replace(s, c, t) == (if s[0] == c {
            t
        } else {
            seq![s[0]]
        }) + replace(s.skip(1), c, t),
{
    let head = seq![s[0]];
    assert(s =~= head + s.skip(1));
    lemma_replace_concat(head, s.skip(1), c, t);
    assert(head.drop_last() =~= Seq::empty());
    assert(replace(Seq::<char>::empty(), c, t) =~= Seq::empty());
    assert(replace(head, c, t) =~= (if s[0] == c {
        t
    } else {
        seq![s[0]]
    }));
}

/// Inside apostrophes the shell reads back what was quoted.
proof fn lemma_shell_inside(value: Seq<char>)
    ensures
        shell_rest(replace(value, '\'', "'\\''"@) + "'"@, true) == Some(value),
    decreases value.len(),
{
    reveal_strlit("'\\''");
    reveal_strlit("'");
    let mark = "'\\''"@;
    let whole = replace(value, '\'', mark) + "'"@;
    if value.len() == 0 {
        assert(replace(value, '\'', mark) =~= Seq::empty());
        assert(whole[0] == '\'');
        assert(whole.skip(1) =~= Seq::empty());
        assert(value =~= Seq::empty());
        assert(shell_rest(whole.skip(1), false) == Some(value));
    } else {
        lemma_replace_first(value, '\'', mark);
        lemma_shell_inside(value.skip(1));
        let inner = replace(value.skip(1), '\'', mark) + "'"@;
        assert(value =~= seq![value[0]] + value.skip(1));
        if value[0] == '\'' {
            assert(whole =~= mark + inner);
            assert(mark[0] == '\'' && mark[1] == '\\' && mark[2] == '\'' && mark[3] == '\'');
            assert(whole[0] == '\'');
            let one = whole.skip(1);
            assert(one[0] == '\\' && one[1] == '\'');
            let three = one.skip(2);
            assert(three[0] == '\'');
            assert(three.skip(1) =~= inner);
            assert(shell_rest(three, false) == shell_rest(inner, true));
            assert(shell_rest(one, false) == led_by('\'', shell_rest(three, false)));
        } else {
            assert(whole =~= seq![value[0]] + inner);
            assert(whole.skip(1) =~= inner);
        }
    }
}

/// A shell reads a quoted text as one word, which is the text.
pub proof fn shell_reads_back(value: Seq<char>)
    ensures
        shell_word(shell_quoted(value)) == Some(value),
{
    reveal_strlit("''");
    reveal_strlit("'");
    let whole = shell_quoted(value);
    assert(whole[0] == '\'');
    if value.len() == 0 {
        assert(whole.skip(1)[0] == '\'');
        assert(whole.skip(1).skip(1) =~= Seq::empty());
        assert(value =~= Seq::empty());
        assert(shell_rest(whole.skip(1).skip(1), false) == Some(value));
        assert(shell_rest(whole.skip(1), true) == Some(value));
    } else {
        lemma_shell_inside(value);
        assert(whole.skip(1) =~= replace(value, '\'', "'\\''"@) + "'"@);
    }
}

/// What AppleScript reads in `s` up to a quotation mark that ends the text and `s`.
/// A backslash makes a backslash or a quotation mark stand for itself. Where `s`
/// does not end so, or a backslash stands before another character, nothing is read.
pub open spec fn script_rest(s: Seq<char>) -> Option<Seq<char>>
    decreases s.len(),
{
    if s.len() == 0 {
        None
    } else if s[0] == '"' {
        if s.len() == 1 {
            Some(Seq::empty())
        } else {
            None
        }
    } else if s[0] == '\\' {
        if s.len() >= 2 && (s[1] == '\\' || s[1] == '"') {
            led_by(s[1], script_rest(s.skip(2)))
        } else {
            None
        }
    } else {
        led_by(s[0], script_rest(s.skip(1)))
    }
}

/// What AppleScript reads in `s` where all of it is one text.
pub open spec fn script_text(s: Seq<char>) -> Option<Seq<char>> {
    if s.len() > 0 && s[0] == '"' {
        script_rest(s.skip(1))
    } else {
        None
    }
}

/// `value` on one line.
pub open spec fn one_line(value: Seq<char>) -> Seq<char> {
    replace(replace(value, '\r', " "@), '\n', " "@)
}

proof fn lemma_script_inside(value: Seq<char>)
    ensures
        script_rest(script_escaped(value) + "\""@) == Some(one_line(value)),
    decreases value.len(),
{
    reveal_strlit("\\\\");
    reveal_strlit("\\\"");
    reveal_strlit("\"");
    reveal_strlit(" ");
    let none = Seq::<char>::empty();
    if value.len() == 0 {
        assert(value =~= none);
        assert(replace(none, '\\', "\\\\"@) =~= none);
        assert(replace(none, '"', "\\\""@) =~= none);
        assert(replace(none, '\r', " "@) =~= none);
        assert(replace(none, '\n', " "@) =~= none);
        assert((none + "\""@)[0] == '"');
    } else {
        let c = value[0];
        let rest = value.skip(1);
        lemma_script_inside(rest);
        lemma_escaped_first(value);
        let inner = script_escaped(rest) + "\""@;
        let whole = script_escaped(value) + "\""@;
        assert(one_line(value) == seq![line_char(c)] + one_line(rest));
        if c == '\\' || c == '"' {
            assert(whole =~= seq!['\\', c] + inner);
            assert(whole[0] == '\\' && whole[1] == c);
            assert(whole.skip(2) =~= inner);
        } else {
            assert(whole =~= seq![line_char(c)] + inner);
            assert(whole.skip(1) =~= inner);
        }
    }
}

/// A character on one line.
spec fn line_char(c: char) -> char {
    if c == '\r' || c == '\n' {
        ' '
    } else {
        c
    }
}

/// How escaping begins.
proof fn lemma_escaped_first(value: Seq<char>)
    requires
        value.len() > 0,
    ensures
        script_escaped(value) == (if value[0] == '\\' || value[0] == '"' {
            seq!['\\', value[0]]
        } else {
            seq![line_char(value[0])]
        }) + script_escaped(value.skip(1)),
        one_line(value) == seq![line_char(value[0])] + one_line(value.skip(1)),
{
    reveal_strlit("\\\\");
    reveal_strlit("\\\"");
    reveal_strlit(" ");
    let c = value[0];
    let rest = value.skip(1);
    let first = if c == '\\' || c == '"' {
        seq!['\\', c]
    } else {
        seq![c]
    };
    let a = replace(value, '\\', "\\\\"@);
    let a1 = replace(rest, '\\', "\\\\"@);
    lemma_replace_first(value, '\\', "\\\\"@);
    let a0 = if c == '\\' {
        seq!['\\', '\\']
    } else {
        seq![c]
    };
    assert(a =~= a0 + a1);
    let b1 = replace(a1, '"', "\\\""@);
    lemma_replace_concat(a0, a1, '"', "\\\""@);
    lemma_replace_short(a0, '"', "\\\""@);
    assert(replace(a, '"', "\\\""@) =~= first + b1);
    let c1 = replace(b1, '\r', " "@);
    lemma_replace_concat(first, b1, '\r', " "@);
    lemma_replace_short(first, '\r', " "@);
    let second = replace(first, '\r', " "@);
    lemma_replace_concat(second, c1, '\n', " "@);
    lemma_replace_short(second, '\n', " "@);
    assert(replace(second, '\n', " "@) =~= if c == '\\' || c == '"' {
        seq!['\\', c]
    } else {
        seq![line_char(c)]
    });
    lemma_replace_first(value, '\r', " "@);
    let d = replace(value, '\r', " "@);
    let d1 = replace(rest, '\r', " "@);
    let d0 = if c == '\r' {
        seq![' ']
    } else {
        seq![c]
    };
    assert(d =~= d0 + d1);
    lemma_replace_concat(d0, d1, '\n', " "@);
    lemma_replace_short(d0, '\n', " "@);
    assert(replace(d0, '\n', " "@) =~= seq![line_char(c)]);
}

/// Replacing in a text of one or two characters.
proof fn lemma_replace_short(s: Seq<char>, c: char, t: Seq<char>)
    requires
        1 <= s.len() <= 2,
    ensures
        s.len() == 1 ==> replace(s, c, t) == (if s[0] == c {
            t
        } else {
            s
        }),
        s.len() == 2 ==> replace(s, c, t) == (if s[0] == c {
            t
        } else {
            seq![s[0]]
        }) + (if s[1] == c {
            t
        } else {
            seq![s[1]]
        }),
{
    let none = Seq::<char>::empty();
    assert(replace(none, c, t) =~= none);
    if s.len() == 1 {
        assert(s.drop_last() =~= none);
        assert(replace(s, c, t) =~= (if s[0] == c {
            t
        } else {
            s
        }));
    } else {
        let front = s.drop_last();
        assert(front.drop_last() =~= none);
        assert(replace(front, c, t) =~= (if s[0] == c {
            t
        } else {
            seq![s[0]]
        }));
    }
}

/// AppleScript reads a quoted text back as the text, with its line breaks turned
/// into spaces.
pub proof fn script_reads_back(value: Seq<char>)
    ensures
        script_text(script_quoted(value)) == Some(one_line(value)),
{
    reveal_strlit("\"");
    lemma_script_inside(value);
    assert(script_quoted(value).skip(1) =~= script_escaped(value) + "\""@);
}

} // verus!
