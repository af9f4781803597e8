//! What the titles of terminals tell, form by form.
use vstd::prelude::*;
use vstd::string::*;

use crate::assign::{is_agent_title, is_amp_title, lasting_title, names_project, shows_activity};
use crate::model::Agent;
use crate::path::{base_name, below, is_file_name, joined_name_stands_in};
use crate::text::{contains, ends_with, is_space, lower, occurs_at, trim};
use crate::text_laws::{
    is_blank, is_trim, lower_goes_by_characters, parts_are_found, trimming_takes_whitespace,
};

verus! {

/// A title begins with a sign of activity exactly where its first character is a
/// Braille pattern.
pub proof fn activity_is_a_braille_pattern(c: char, rest: Seq<char>)
    ensures
        shows_activity(seq![c] + rest) <==> '\u{2800}' as int <= c as int <= '\u{28ff}' as int,
        !shows_activity(Seq::<char>::empty()),
{
}

/// The name of the program alone, in any case and with any whitespace around it, is a
/// title of Amp.
pub proof fn amp_alone_is_an_amp_title(before: Seq<char>, name: Seq<char>, after: Seq<char>)
    requires
        is_blank(before),
        is_blank(after),
        lower(name) == "amp"@,
    ensures
        is_amp_title(before + name + after),
{
    reveal_strlit("amp");
    lower_goes_by_characters(name, name);
    assert(name.len() == 3);
    assert(lower(name)[0] == 'a' && lower(name)[2] == 'p');
    assert(!is_space(name[0]) && !is_space(name[2]));
    trimming_takes_whitespace(before, name, after);
}

/// A title with the program's name between dashes is one of Amp.
pub proof fn amp_between_dashes_is_an_amp_title(
    before: Seq<char>,
    task: Seq<char>,
    name: Seq<char>,
    place: Seq<char>,
    after: Seq<char>,
)
    requires
        is_blank(before),
        is_blank(after),
        lower(name) == " - amp - "@,
        is_trim(task),
        is_trim(place),
    ensures
        is_amp_title(before + (task + name + place) + after),
{
    let core = task + name + place;
    assert(core[0] == task[0] && core.last() == place.last());
    trimming_takes_whitespace(before, core, after);
    lower_goes_by_characters(task + name, place);
    lower_goes_by_characters(task, name);
    parts_are_found(lower(task), " - amp - "@, lower(place));
}

/// A title that ends in a dash and the program's name is one of Amp.
pub proof fn amp_at_the_end_is_an_amp_title(
    before: Seq<char>,
    task: Seq<char>,
    name: Seq<char>,
    after: Seq<char>,
)
    requires
        is_blank(before),
        is_blank(after),
        lower(name) == " - amp"@,
        is_trim(task),
    ensures
        is_amp_title(before + (task + name) + after),
{
    reveal_strlit(" - amp");
    let core = task + name;
    lower_goes_by_characters(task, name);
    lower_goes_by_characters(name, name);
    assert(name.len() == 6);
    assert(lower(name)[5] == 'p');
    assert(core[0] == task[0] && core.last() == name[5]);
    trimming_takes_whitespace(before, core, after);
    parts_are_found(lower(task), " - amp"@, Seq::empty());
}

/// No other title is one of Amp.
pub proof fn other_titles_are_not_of_amp(title: Seq<char>)
    requires
        lower(trim(title)) != "amp"@,
        !contains(lower(trim(title)), " - amp - "@),
        !ends_with(lower(trim(title)), " - amp"@),
    ensures
        !is_amp_title(title),
        forall|cwd: Seq<char>| !#[trigger] is_agent_title(title, cwd, Agent::Amp),
{
}

/// Amp gives its titles in every directory.
pub proof fn amp_titles_are_of_amp(title: Seq<char>, cwd: Seq<char>)
    ensures
        is_agent_title(title, cwd, Agent::Amp) == is_amp_title(title),
{
}

/// A title that asks for action is one of Codex, whatever else it holds.
pub proof fn action_required_is_a_codex_title(a: Seq<char>, b: Seq<char>, cwd: Seq<char>)
    ensures
        is_agent_title(a + "Action Required"@ + b, cwd, Agent::Codex),
{
    parts_are_found(a, "Action Required"@, b);
}

/// A title that holds the program's name, in any case, is one of Codex.
pub proof fn the_name_codex_is_a_codex_title(
    a: Seq<char>,
    name: Seq<char>,
    b: Seq<char>,
    cwd: Seq<char>,
)
    requires
        lower(name) == "codex"@,
    ensures
        is_agent_title(a + name + b, cwd, Agent::Codex),
{
    lower_goes_by_characters(a + name, b);
    lower_goes_by_characters(a, name);
    parts_are_found(lower(a), "codex"@, lower(b));
}

/// The name of the directory is a title of Codex there.
pub proof fn the_project_is_a_codex_title(parent: Seq<char>, project: Seq<char>)
    requires
        parent.len() > 0,
        is_file_name(project),
    ensures
        is_agent_title(project, below(parent, project), Agent::Codex),
{
    joined_name_stands_in(parent, project);
}

/// A title that ends in a bar and the name of the directory is one of Codex there.
pub proof fn the_project_behind_a_bar_is_a_codex_title(
    a: Seq<char>,
    parent: Seq<char>,
    project: Seq<char>,
)
    requires
        parent.len() > 0,
        is_file_name(project),
    ensures
        is_agent_title(a + ("| "@ + project), below(parent, project), Agent::Codex),
{
    joined_name_stands_in(parent, project);
    parts_are_found(a, "| "@ + project, Seq::empty());
}

/// A title that begins with a Braille pattern and is none of Amp is one of Codex, in
/// every directory.
pub proof fn a_busy_title_is_a_codex_title(c: char, rest: Seq<char>, cwd: Seq<char>)
    requires
        '\u{2800}' as int <= c as int <= '\u{28ff}' as int,
        !is_amp_title(seq![c] + rest),
    ensures
        is_agent_title(seq![c] + rest, cwd, Agent::Codex),
{
}

/// No other title is one of Codex: not that of a plain shell, nor that of a busy Amp.
pub proof fn other_titles_are_not_of_codex(title: Seq<char>, cwd: Seq<char>)
    requires
        !contains(title, "Action Required"@),
        !contains(lower(title), "codex"@),
        title != base_name(cwd),
        !ends_with(title, "| "@ + base_name(cwd)),
        title.len() == 0 || !('\u{2800}' as int <= title[0] as int <= '\u{28ff}' as int)
            || is_amp_title(title),
    ensures
        !is_agent_title(title, cwd, Agent::Codex),
{
}

/// The name of a project is named by a title that is this name, or ends in it behind
/// a bar, or behind a space where the title shows activity; with whitespace around.
pub proof fn titles_that_end_in_a_project_name_it(
    before: Seq<char>,
    a: Seq<char>,
    c: char,
    parent: Seq<char>,
    project: Seq<char>,
    after: Seq<char>,
    agent: Agent,
)
    requires
        is_blank(before),
        is_blank(after),
        parent.len() > 0,
        is_file_name(project),
        is_trim(project),
        is_trim(a),
        '\u{2800}' as int <= c as int <= '\u{28ff}' as int,
    ensures
        names_project(before + project + after, below(parent, project), agent),
        names_project(before + (a + ("| "@ + project)) + after, below(parent, project), agent),
        names_project(
            before + (seq![c] + a + (" "@ + project)) + after,
            below(parent, project),
            agent,
        ),
        names_project(before + (seq![c] + (" "@ + project)) + after, below(parent, project), agent),
{
    joined_name_stands_in(parent, project);
    trimming_takes_whitespace(before, project, after);
    reveal_strlit("| ");
    reveal_strlit(" ");
    let bar = a + ("| "@ + project);
    assert(bar[0] == a[0] && bar.last() == project.last());
    trimming_takes_whitespace(before, bar, after);
    parts_are_found(a, "| "@ + project, Seq::empty());
    let busy = seq![c] + a + (" "@ + project);
    assert(busy[0] == c && busy.last() == project.last());
    assert(!is_space(c));
    trimming_takes_whitespace(before, busy, after);
    parts_are_found(seq![c] + a, " "@ + project, Seq::empty());
    let short = seq![c] + (" "@ + project);
    assert(short[0] == c && short.last() == project.last());
    trimming_takes_whitespace(before, short, after);
    parts_are_found(seq![c], " "@ + project, Seq::empty());
}

/// A title that holds the project's name somewhere names it where it is the agent's,
/// or asks for action.
pub proof fn titles_of_an_agent_name_the_project(
    title: Seq<char>,
    parent: Seq<char>,
    project: Seq<char>,
)
    requires
        parent.len() > 0,
        is_file_name(project),
        trim(title) == title,
        contains(title, project),
    ensures
        contains(lower(title), "codex"@) ==> names_project(
            title,
            below(parent, project),
            Agent::Codex,
        ),
        is_amp_title(title) ==> names_project(title, below(parent, project), Agent::Amp),
        contains(title, "Action Required"@) ==> names_project(
            title,
            below(parent, project),
            Agent::Codex,
        ) && names_project(title, below(parent, project), Agent::Amp),
{
    joined_name_stands_in(parent, project);
}

/// A title that does not hold the project's name does not name it; nor does one that
/// holds it in the middle, is no agent's and asks for nothing.
pub proof fn other_titles_do_not_name_the_project(
    title: Seq<char>,
    cwd: Seq<char>,
    agent: Agent,
)
    ensures
        !contains(trim(title), base_name(cwd)) ==> !names_project(title, cwd, agent),
        trim(title) != base_name(cwd) && !ends_with(trim(title), " "@ + base_name(cwd)) && !contains(
            trim(title),
            "Action Required"@,
        ) && (agent == Agent::Codex ==> !contains(lower(trim(title)), "codex"@)) && (agent
            == Agent::Amp ==> !is_amp_title(trim(title))) ==> !names_project(title, cwd, agent),
        trim(title) != base_name(cwd) && !shows_activity(trim(title)) && !ends_with(
            trim(title),
            "| "@ + base_name(cwd),
        ) && !contains(trim(title), "Action Required"@) && (agent == Agent::Codex ==> !contains(
            lower(trim(title)),
            "codex"@,
        )) && (agent == Agent::Amp ==> !is_amp_title(trim(title))) ==> !names_project(
            title,
            cwd,
            agent,
        ),
{
    reveal_strlit("| ");
    reveal_strlit(" ");
    let t = trim(title);
    let project = base_name(cwd);
    if ends_with(t, "| "@ + project) {
        let n = t.len() - project.len();
        let tail = "| "@ + project;
        let whole = t.subrange(t.len() - tail.len(), t.len() as int);
        assert(whole == tail);
        assert(t.subrange(n, t.len() as int) =~= whole.subrange(2, tail.len() as int));
        assert(tail.subrange(2, tail.len() as int) =~= project);
        assert(occurs_at(t, project, n));
        let small = " "@ + project;
        assert(t.subrange(t.len() - small.len(), t.len() as int) =~= whole.subrange(
            1,
            tail.len() as int,
        ));
        assert(tail.subrange(1, tail.len() as int) =~= small);
        assert(ends_with(t, small));
    }
    if ends_with(t, " "@ + project) {
        let n = t.len() - project.len();
        let tail = " "@ + project;
        let whole = t.subrange(t.len() - tail.len(), t.len() as int);
        assert(whole == tail);
        assert(t.subrange(n, t.len() as int) =~= whole.subrange(1, tail.len() as int));
        assert(tail.subrange(1, tail.len() as int) =~= project);
        assert(occurs_at(t, project, n));
    }
    if t == project {
        assert(t.subrange(0, t.len() as int) =~= project);
        assert(occurs_at(t, project, 0));
    }
}

/// A sign of activity, and whitespace around a title, do not change what stays of it.
pub proof fn activity_does_not_change_a_title(
    before: Seq<char>,
    c: char,
    gap: Seq<char>,
    title: Seq<char>,
    after: Seq<char>,
)
    requires
        is_blank(before),
        is_blank(gap),
        is_blank(after),
        is_trim(title),
        !('\u{2800}' as int <= title[0] as int <= '\u{28ff}' as int),
        '\u{2800}' as int <= c as int <= '\u{28ff}' as int,
    ensures
        lasting_title(before + title + after) == title,
        lasting_title(before + (seq![c] + gap + title) + after) == title,
{
    trimming_takes_whitespace(before, title, after);
    let busy = seq![c] + gap + title;
    assert(busy[0] == c && busy.last() == title.last());
    assert(!is_space(c));
    trimming_takes_whitespace(before, busy, after);
    let none = Seq::<char>::empty();
    trimming_takes_whitespace(gap, title, none);
    assert(busy.drop_first() =~= gap + title + none);
    assert(title + none =~= title);
}

} // verus!
