//! The patterns that names, process lists and conversation identifiers are
//! recognised by, and the calls into the `regex` crate that apply them.
use vstd::prelude::*;

use crate::text::{is_digit, is_hex, is_lower, is_space, is_upper, optional_text};

verus! {

/// A snapshot's name.
pub const NAME_PATTERN: &'static str = "^[a-zA-Z0-9][a-zA-Z0-9._-]*$";

/// A line of `ps`: process, parent, terminal, command.
pub const PROCESS_PATTERN: &'static str = "^\\s*(\\d+)\\s+(\\d+)\\s+(\\S+)\\s+(.+)$";

/// The command line of a resumed Codex conversation.
pub const CODEX_RESUME_PATTERN: &'static str =
    "(?i)\\bresume\\s+((?i)[0-9a-f]{8}-[0-9a-f]{4}-[0-9a-f]{4}-[0-9a-f]{4}-[0-9a-f]{12})";

/// The identifier of an Amp thread.
pub const AMP_THREAD_PATTERN: &'static str =
    "(?i)T-(?i)[0-9a-f]{8}-[0-9a-f]{4}-[0-9a-f]{4}-[0-9a-f]{4}-[0-9a-f]{12}";

/// A line of `lsof` that ends in the file of a Codex conversation.
pub const CODEX_ROLLOUT_PATTERN: &'static str =
    "\\s(/.*rollout-[^ ]+-((?i)[0-9a-f]{8}-[0-9a-f]{4}-[0-9a-f]{4}-[0-9a-f]{4}-[0-9a-f]{12})\\.jsonl)\\s*$";

/// Whether `c` may begin a name.
pub open spec fn begins_name(c: char) -> bool {
    is_lower(c) || is_upper(c) || is_digit(c)
}

/// Whether `c` may stand in a name.
pub open spec fn continues_name(c: char) -> bool {
    begins_name(c) || c == '.' || c == '_' || c == '-'
}

/// Whether `s` is a name: a letter or digit, then letters, digits, dots,
/// underscores and dashes.
pub open spec fn is_name(s: Seq<char>) -> bool {
    &&& s.len() > 0
    &&& begins_name(s[0])
    &&& forall|i: int| 0 < i < s.len() ==> continues_name(#[trigger] s[i])
}

/// Whether a UUID stands in `s` at `i`, its digits in either case.
pub open spec fn uuid_at(s: Seq<char>, i: int) -> bool {
    &&& 0 <= i <= s.len() - 36
    &&& forall|k: int|
        0 <= k < 36 ==> if k == 8 || k == 13 || k == 18 || k == 23 {
            #[trigger] s[i + k] == '-'
        } else {
            is_hex(s[i + k])
        }
}

/// Whether `s` is a UUID.
pub open spec fn is_uuid(s: Seq<char>) -> bool {
    s.len() == 36 && uuid_at(s, 0)
}

/// Whether the identifier of an Amp thread stands at the front of `s`.
pub open spec fn begins_with_thread(s: Seq<char>) -> bool {
    &&& s.len() >= 38
    &&& s[0] == 'T' || s[0] == 't'
    &&& s[1] == '-'
    &&& uuid_at(s, 2)
}

/// The identifier of an Amp thread that stands in `s` first.
pub open spec fn first_thread(s: Seq<char>) -> Option<Seq<char>>
    decreases s.len(),
{
    if s.len() == 0 {
        None
    } else if begins_with_thread(s) {
        Some(s.take(38))
    } else {
        first_thread(s.drop_first())
    }
}

/// A line of `ps`, taken apart.
pub struct ProcessLine {
    pub indent: Seq<char>,
    pub pid: Seq<char>,
    pub gap: Seq<char>,
    pub ppid: Seq<char>,
    pub second_gap: Seq<char>,
    pub tty: Seq<char>,
    pub third_gap: Seq<char>,
    pub command: Seq<char>,
}

/// Whether `s` holds whitespace and nothing else.
pub open spec fn all_space(s: Seq<char>) -> bool {
    forall|i: int| 0 <= i < s.len() ==> is_space(#[trigger] s[i])
}

/// Whether `s` holds digits and nothing else.
pub open spec fn all_digits(s: Seq<char>) -> bool {
    forall|i: int| 0 <= i < s.len() ==> is_digit(#[trigger] s[i])
}

impl ProcessLine {
    /// Whether the parts are what a line of `ps` has there.
    pub open spec fn well_formed(self) -> bool {
        &&& all_space(self.indent)
        &&& self.pid.len() > 0 && all_digits(self.pid)
        &&& self.gap.len() > 0 && all_space(self.gap)
        &&& self.ppid.len() > 0 && all_digits(self.ppid)
        &&& self.second_gap.len() > 0 && all_space(self.second_gap)
        &&& self.tty.len() > 0
        &&& forall|i: int| 0 <= i < self.tty.len() ==> !is_space(#[trigger] self.tty[i])
        &&& self.third_gap.len() > 0 && all_space(self.third_gap)
        &&& self.command.len() > 0 && !is_space(self.command[0])
        &&& forall|i: int| 0 <= i < self.command.len() ==> #[trigger] self.command[i] != '\n'
    }

    /// The line that the parts make.
    pub open spec fn text(self) -> Seq<char> {
        self.indent + self.pid + self.gap + self.ppid + self.second_gap + self.tty + self.third_gap
            + self.command
    }

    /// What the pattern captures of it.
    pub open spec fn groups(self) -> Seq<Option<Seq<char>>> {
        seq![
            Some(self.text()),
            Some(self.pid),
            Some(self.ppid),
            Some(self.tty),
            Some(self.command),
        ]
    }
}

/// The captured texts that a list holds.
pub open spec fn group_views(groups: Seq<Option<String>>) -> Seq<Option<Seq<char>>> {
    groups.map_values(|g: Option<String>| optional_text(g))
}

/// The captured texts of a match, if there is one.
pub open spec fn captured(r: Option<Vec<Option<String>>>) -> Option<Seq<Option<Seq<char>>>> {
    match r {
        Some(groups) => Some(group_views(groups@)),
        None => None,
    }
}

/// Whether every one of `count` groups captured something.
pub open spec fn all_captured(groups: Seq<Option<Seq<char>>>, count: nat) -> bool {
    groups.len() == count && forall|i: int| 0 <= i < count ==> #[trigger] groups[i] is Some
}

/// `regex::Regex::is_match`, with the pattern for names: the whole text is a
/// letter or digit of ASCII followed by letters, digits, dots, underscores and
/// dashes.
#[verifier::external_body]
pub(crate) fn pattern_matches(pattern: &str, text: &str) -> (r: bool)
    requires
        pattern@ == NAME_PATTERN@,
    ensures
        r == is_name(text@),
{
    regex::Regex::new(pattern).unwrap().is_match(text)
}

/// `regex::Regex::find`, with the pattern for Amp threads: the leftmost place
/// where `T-` and a UUID stand, in either case.
#[verifier::external_body]
pub(crate) fn pattern_find(pattern: &str, text: &str) -> (r: Option<String>)
    requires
        pattern@ == AMP_THREAD_PATTERN@,
    ensures
        optional_text(r) == first_thread(text@),
{
    regex::Regex::new(pattern).unwrap().find(text).map(|m| m.as_str().to_owned())
}

/// Names what `regex::Regex::captures` captures: the whole match, then each
/// group.
pub uninterp spec fn regex_captures(pattern: Seq<char>, text: Seq<char>) -> Option<
    Seq<Option<Seq<char>>>,
>;

/// `regex::Regex::captures`, with one of the three patterns that have groups.
/// The captured texts are named. Of the named result it is claimed that every
/// group of the pattern captures something where there is a match; that the
/// identifiers are UUIDs; and that a line of `ps` whose parts are well formed
/// matches, with those parts captured.
#[verifier::external_body]
pub(crate) fn pattern_captures(pattern: &str, text: &str) -> (r: Option<Vec<Option<String>>>)
    requires
        pattern@ == PROCESS_PATTERN@ || pattern@ == CODEX_RESUME_PATTERN@ || pattern@
            == CODEX_ROLLOUT_PATTERN@,
    ensures
        captured(r) == regex_captures(pattern@, text@),
        pattern@ == PROCESS_PATTERN@ && r is Some ==> all_captured(group_views(r->0@), 5),
        pattern@ == CODEX_RESUME_PATTERN@ && r is Some ==> all_captured(group_views(r->0@), 2)
            && is_uuid(group_views(r->0@)[1]->0),
        pattern@ == CODEX_ROLLOUT_PATTERN@ && r is Some ==> all_captured(group_views(r->0@), 3)
            && is_uuid(group_views(r->0@)[2]->0),
        forall|line: ProcessLine|
            pattern@ == PROCESS_PATTERN@ && #[trigger] line.well_formed() && text@ == line.text()
                ==> captured(r) == Some(line.groups()),
{
    let captures = regex::Regex::new(pattern).unwrap().captures(text)?;
    Some(captures.iter().map(|g| g.map(|m| m.as_str().to_owned())).collect())
}

} // verus!
