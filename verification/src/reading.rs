//! What text says when it is read.

use vstd::prelude::*;

use crate::branch_map;
use crate::fork_points;
use crate::layout;
use crate::order;
use crate::round_trip;
use crate::stack_file;
use crate::stack_file::Entry;
use crate::text;
use crate::tree;
use crate::tree::Tree;
use crate::wiring;

verus! {

/// `n` times the character `c`.
pub open spec fn filled(c: char, n: nat) -> Seq<char> {
    Seq::new(n, |i: int| c)
}

/// Whether `part` holds nothing but white space.
pub open spec fn blank(part: Seq<char>) -> bool {
    forall|i: int| 0 <= i < part.len() ==> text::is_white(#[trigger] part[i])
}

/// Whether `part` is empty or begins with white space.
pub open spec fn set_off(part: Seq<char>) -> bool {
    part.len() == 0 || text::is_white(part[0])
}

/// Whether `part` is empty or begins with something other than white space.
pub open spec fn flush(part: Seq<char>) -> bool {
    part.len() == 0 || !text::is_white(part[0])
}

/// Whether `line` can stand on a line: it holds no line feed and no carriage return ends it.
pub open spec fn one_line(line: Seq<char>) -> bool {
    &&& forall|i: int| 0 <= i < line.len() ==> #[trigger] line[i] != '\n'
    &&& line.len() == 0 || line.last() != '\r'
}

/// White space are the blank, what moves to another column or line, and the other spaces and
/// separators of Unicode; no letter, digit or punctuation is.
pub proof fn law_white_space(c: char)
    ensures
        text::is_white(c) <==> c == ' ' || c == '\t' || c == '\n' || c == '\u{b}' || c == '\u{c}'
            || c == '\r' || c == '\u{85}' || c == '\u{a0}' || c == '\u{1680}' || (c >= '\u{2000}'
            && c <= '\u{200a}') || c == '\u{2028}' || c == '\u{2029}' || c == '\u{202f}' || c
            == '\u{205f}' || c == '\u{3000}',
        '!' <= c <= '~' ==> !text::is_white(c),
{
}

proof fn lemma_skip_white(white: Seq<char>, rest: Seq<char>)
    requires
        blank(white),
        flush(rest),
    ensures
        text::trim_start(white + rest) == rest,
    decreases white.len(),
{
    let all = white + rest;
    if white.len() > 0 {
        let less = white.drop_first();
        assert(text::is_white(white[0]));
        assert(all[0] == white[0]);
        assert(all.drop_first() =~= less + rest);
        assert forall|i: int| 0 <= i < less.len() implies text::is_white(#[trigger] less[i]) by {
            assert(text::is_white(white[i + 1]));
        }
        lemma_skip_white(less, rest);
    } else {
        assert(all =~= rest);
    }
}

proof fn lemma_drop_white(rest: Seq<char>, white: Seq<char>)
    requires
        blank(white),
        rest.len() == 0 || !text::is_white(rest.last()),
    ensures
        text::trim_end(rest + white) == rest,
    decreases white.len(),
{
    let all = rest + white;
    if white.len() > 0 {
        let less = white.drop_last();
        assert(text::is_white(white[white.len() - 1]));
        assert(all.last() == white.last());
        assert(all.drop_last() =~= rest + less);
        assert forall|i: int| 0 <= i < less.len() implies text::is_white(#[trigger] less[i]) by {
            assert(text::is_white(white[i]));
        }
        lemma_drop_white(rest, less);
    } else {
        assert(all =~= rest);
    }
}

/// Trimming takes away the white space on both sides and nothing else.
pub proof fn law_trim(before: Seq<char>, core: Seq<char>, after: Seq<char>)
    requires
        blank(before),
        blank(after),
        core.len() > 0 ==> !text::is_white(core[0]) && !text::is_white(core.last()),
    ensures
        text::trim(before + core + after) == core,
{
    if core.len() > 0 {
        assert(before + core + after =~= before + (core + after));
        lemma_skip_white(before, core + after);
        lemma_drop_white(core, after);
    } else {
        let white = before + after;
        assert(before + core + after =~= white + core);
        assert forall|i: int| 0 <= i < white.len() implies text::is_white(#[trigger] white[i]) by {
            if i < before.len() {
                assert(text::is_white(before[i]));
            } else {
                assert(text::is_white(after[i - before.len()]));
            }
        }
        lemma_skip_white(white, core);
        assert(core =~= seq![]);
    }
}

/// Lines that are written one after the other, each with a line feed at its end, are read one by
/// one. What follows the last line feed is a line too, unless nothing does.
pub proof fn law_lines(lines: Seq<Seq<char>>, last: Seq<char>)
    requires
        forall|i: int| 0 <= i < lines.len() ==> one_line(#[trigger] lines[i]),
        text::free_of(last, '\n'),
    ensures
        text::lines(layout::ended(lines) + last) == (if last.len() == 0 {
            lines
        } else {
            lines.push(last)
        }),
    decreases lines.len(),
{
    let content = layout::ended(lines);
    if lines.len() == 0 {
        assert(content + last =~= last);
        text::lemma_line_len(last, seq![]);
        assert(last + Seq::<char>::empty() =~= last);
        if last.len() > 0 {
            assert(lines.push(last) =~= seq![last]);
        } else {
            assert(lines =~= seq![]);
        }
    } else {
        let front = lines.drop_last();
        let line = lines.last();
        assert(one_line(lines[lines.len() - 1]));
        assert forall|i: int| 0 <= i < front.len() implies one_line(#[trigger] front[i]) by {
            assert(one_line(lines[i]));
        }
        law_lines(front, seq![]);
        let head = layout::ended(front);
        assert(head + Seq::<char>::empty() =~= head);
        lemma_ended_last(front);
        assert(content + last =~= head + (line.push('\n') + last));
        text::lemma_lines_append(head, line.push('\n') + last);
        text::lemma_lines_step(line, last);
        assert(text::chop(line) == line);
        text::lemma_line_len(last, seq![]);
        assert(last + Seq::<char>::empty() =~= last);
        if last.len() > 0 {
            assert(text::lines(last) =~= seq![last]);
            assert(front + (seq![line] + seq![last]) =~= lines.push(last));
        } else {
            assert(text::lines(last) =~= seq![]);
            assert(front + (seq![line] + Seq::<Seq<char>>::empty()) =~= lines);
        }
    }
}

/// A carriage return before the line feed is part of the end of the line.
pub proof fn law_carriage_return(line: Seq<char>, rest: Seq<char>)
    requires
        text::free_of(line, '\n'),
    ensures
        text::lines(line.push('\r').push('\n') + rest) == seq![line] + text::lines(rest),
{
    let head = line.push('\r');
    assert forall|i: int| 0 <= i < head.len() implies head[i] != '\n' by {
        if i < line.len() {
            assert(line[i] != '\n');
        }
    }
    text::lemma_lines_step(head, rest);
    assert(text::chop(head) =~= line);
}

proof fn lemma_ended_last(lines: Seq<Seq<char>>)
    ensures
        layout::ended(lines).len() == 0 || layout::ended(lines).last() == '\n',
{
    if lines.len() > 0 {
        let line = lines.last().push('\n');
        assert(layout::ended(lines) == layout::ended(lines.drop_last()) + line);
        assert(layout::ended(lines).last() == line.last());
    }
}

proof fn lemma_whole_word(name: Seq<char>, rest: Seq<char>)
    requires
        text::free_of_white(name),
        set_off(rest),
    ensures
        text::word(name + rest) == name,
    decreases name.len(),
{
    let all = name + rest;
    if name.len() > 0 {
        let less = name.drop_first();
        assert(all[0] == name[0]);
        assert(all.drop_first() =~= less + rest);
        assert forall|i: int| 0 <= i < less.len() implies !text::is_white(less[i]) by {
            assert(!text::is_white(name[i + 1]));
        }
        lemma_whole_word(less, rest);
        assert(name =~= seq![name[0]] + less);
    } else {
        assert(all =~= rest);
        assert(text::word(all) =~= name);
    }
}

/// A line of the stack file names the word that it begins with, whatever white space stands before
/// it and whatever note stands behind it.
pub proof fn law_line_names(white: Seq<char>, name: Seq<char>, note: Seq<char>)
    requires
        blank(white),
        round_trip::plain(name),
        set_off(note),
    ensures
        stack_file::entry_of(white + name + note) matches Some(entry) && entry.name == name
            && entry.indent == stack_file::indent(white + name + note),
{
    let rest = name + note;
    assert(white + name + note =~= white + rest);
    assert(!text::is_white(name[0]));
    assert(rest[0] == name[0]);
    lemma_skip_white(white, rest);
    lemma_whole_word(name, note);
}

/// A line of the stack file that is blank says nothing, nor does one that begins with `#`, indented
/// or not.
pub proof fn law_line_silent(white: Seq<char>, rest: Seq<char>)
    requires
        blank(white),
        rest.len() == 0 || rest[0] == '#',
    ensures
        stack_file::entry_of(white + rest) is None,
{
    lemma_skip_white(white, rest);
}

/// A line that begins with `n` spaces is indented by `n`, and one that begins with `n` tabs too,
/// for every `n`.
pub proof fn law_indentation(n: nat, rest: Seq<char>)
    requires
        rest.len() > 0,
        !text::is_white(rest[0]),
    ensures
        stack_file::indent(filled(' ', n) + rest) == n,
        stack_file::indent(filled('\t', n) + rest) == n,
{
    lemma_spaces(n, rest);
    lemma_tabs(n, rest);
    let spaced = filled(' ', n) + rest;
    let tabbed = filled('\t', n) + rest;
    if n == 0 {
        assert(tabbed =~= rest);
        assert(spaced =~= rest);
    } else {
        assert(spaced[0] == ' ');
        assert(tabbed[0] == '\t');
    }
}

/// Behind leading tabs nothing else indents a line.
pub proof fn law_tabs_alone(n: nat, rest: Seq<char>)
    requires
        n > 0,
        rest.len() == 0 || rest[0] != '\t',
    ensures
        stack_file::indent(filled('\t', n) + rest) == n,
{
    lemma_leading_tabs(n, rest);
    assert((filled('\t', n) + rest)[0] == '\t');
}

/// Where a line does not begin with a tab, each further character of white space indents it by as
/// many bytes as it takes.
pub proof fn law_indentation_in_bytes(white: Seq<char>, c: char, rest: Seq<char>)
    requires
        blank(white),
        text::is_white(c),
        white.push(c)[0] != '\t',
        rest.len() > 0,
        !text::is_white(rest[0]),
    ensures
        stack_file::indent(white.push(c) + rest) == stack_file::indent(white + rest) + (if c
            <= '\u{7f}' {
            1nat
        } else if c <= '\u{7ff}' {
            2
        } else {
            3
        }),
{
    lemma_more_white(white, c, rest);
    assert((white.push(c) + rest)[0] == white.push(c)[0]);
    if white.len() > 0 {
        assert((white + rest)[0] == white[0]);
        assert(white.push(c)[0] == white[0]);
    } else {
        assert(white + rest =~= rest);
    }
}

proof fn lemma_more_white(white: Seq<char>, c: char, rest: Seq<char>)
    requires
        blank(white),
        text::is_white(c),
        rest.len() > 0,
        !text::is_white(rest[0]),
    ensures
        stack_file::leading_white(white.push(c) + rest) == stack_file::leading_white(white + rest)
            + text::utf8_len(c),
    decreases white.len(),
{
    let longer = white.push(c) + rest;
    let shorter = white + rest;
    if white.len() == 0 {
        assert(shorter =~= rest);
        assert(longer[0] == c);
        assert(longer.drop_first() =~= rest);
    } else {
        let less = white.drop_first();
        assert(text::is_white(white[0]));
        assert(longer[0] == white[0] && shorter[0] == white[0]);
        assert(longer.drop_first() =~= less.push(c) + rest);
        assert(shorter.drop_first() =~= less + rest);
        assert forall|i: int| 0 <= i < less.len() implies text::is_white(#[trigger] less[i]) by {
            assert(text::is_white(white[i + 1]));
        }
        lemma_more_white(less, c, rest);
    }
}

proof fn lemma_spaces(n: nat, rest: Seq<char>)
    requires
        rest.len() > 0,
        !text::is_white(rest[0]),
    ensures
        stack_file::leading_white(filled(' ', n) + rest) == n,
    decreases n,
{
    let line = filled(' ', n) + rest;
    if n > 0 {
        assert(line[0] == ' ');
        assert(line.drop_first() =~= filled(' ', (n - 1) as nat) + rest);
        lemma_spaces((n - 1) as nat, rest);
    } else {
        assert(line =~= rest);
    }
}

proof fn lemma_tabs(n: nat, rest: Seq<char>)
    requires
        rest.len() > 0,
        !text::is_white(rest[0]),
    ensures
        stack_file::leading_tabs(filled('\t', n) + rest) == n,
{
    lemma_leading_tabs(n, rest);
}

proof fn lemma_leading_tabs(n: nat, rest: Seq<char>)
    requires
        rest.len() == 0 || rest[0] != '\t',
    ensures
        stack_file::leading_tabs(filled('\t', n) + rest) == n,
    decreases n,
{
    let line = filled('\t', n) + rest;
    if n > 0 {
        assert(line[0] == '\t');
        assert(line.drop_first() =~= filled('\t', (n - 1) as nat) + rest);
        lemma_leading_tabs((n - 1) as nat, rest);
    } else {
        assert(line =~= rest);
    }
}

/// A stack file written by hand: on each line a name behind as many times `fill` as its width
/// says, and a note behind it.
pub open spec fn handwritten(
    fill: char,
    widths: Seq<nat>,
    names: Seq<Seq<char>>,
    notes: Seq<Seq<char>>,
) -> Seq<Seq<char>> {
    Seq::new(names.len(), |i: int| filled(fill, widths[i]) + names[i] + notes[i])
}

/// Whether `parent` is what an outline shows to be the parent of line `i`: the name on the nearest
/// line above that is indented less, or the default branch if no line above is.
pub open spec fn shown_parent(
    widths: Seq<nat>,
    names: Seq<Seq<char>>,
    default_branch: Seq<char>,
    i: int,
    parent: Seq<char>,
) -> bool {
    ||| parent == default_branch && forall|j: int| 0 <= j < i ==> widths[i] <= #[trigger] widths[j]
    ||| exists|j: int|
        0 <= j < i && #[trigger] names[j] == parent && widths[j] < widths[i] && forall|l: int|
            j < l < i ==> widths[i] <= #[trigger] widths[l]
}

/// An outline is read with the parents that it shows, however wide its steps are: every branch that
/// it names gets the parent that its last line shows, except the default branch, which has none.
pub proof fn law_outline_read(
    fill: char,
    widths: Seq<nat>,
    names: Seq<Seq<char>>,
    notes: Seq<Seq<char>>,
    default_branch: Seq<char>,
)
    requires
        fill == ' ' || fill == '\t',
        widths.len() == names.len(),
        notes.len() == names.len(),
        forall|i: int| 0 <= i < names.len() ==> round_trip::plain(#[trigger] names[i]),
        forall|i: int| 0 <= i < notes.len() ==> set_off(#[trigger] notes[i]) && one_line(notes[i]),
    ensures
        ({
            let content = layout::ended(handwritten(fill, widths, names, notes));
            let map = stack_file::stated_parents(content, default_branch);
            &&& forall|b: Seq<char>| #[trigger]
                map.contains_key(b) <==> b != default_branch && names.contains(b)
            &&& forall|i: int|
                0 <= i < names.len() && #[trigger] names[i] != default_branch && (forall|j: int|
                    i < j < names.len() ==> #[trigger] names[j] != names[i]) ==> shown_parent(
                    widths,
                    names,
                    default_branch,
                    i,
                    map[names[i]],
                )
        }),
{
    let lines = handwritten(fill, widths, names, notes);
    let found = Seq::new(names.len(), |i: int| Entry { indent: widths[i], name: names[i] });
    let content = layout::ended(lines);
    assert forall|i: int| 0 <= i < lines.len() implies one_line(#[trigger] lines[i])
        && stack_file::entry_of(lines[i]) == Some(found[i]) by {
        lemma_handwritten(fill, widths[i], names[i], notes[i]);
    }
    law_lines(lines, seq![]);
    assert(content + Seq::<char>::empty() =~= content);
    lemma_entries(lines, found);
    lemma_parents_shown(widths, names, default_branch, names.len() as int);
    assert(names.take(names.len() as int) =~= names);
}

proof fn lemma_handwritten(fill: char, width: nat, name: Seq<char>, note: Seq<char>)
    requires
        fill == ' ' || fill == '\t',
        round_trip::plain(name),
        set_off(note),
        one_line(note),
    ensures
        one_line(filled(fill, width) + name + note),
        stack_file::entry_of(filled(fill, width) + name + note) == Some(
            Entry { indent: width, name },
        ),
{
    let white = filled(fill, width);
    let line = white + name + note;
    let rest = name + note;
    assert(line =~= white + rest);
    assert(rest[0] == name[0]);
    assert(!text::is_white(name[0]));
    law_indentation(width, rest);
    law_line_names(white, name, note);
    assert forall|i: int| 0 <= i < line.len() implies #[trigger] line[i] != '\n' by {
        if width <= i < width + name.len() {
            assert(!text::is_white(name[i - width]));
        } else if i >= width + name.len() {
            assert(note[i - width - name.len()] != '\n');
        }
    }
    if note.len() == 0 {
        assert(!text::is_white(name[name.len() - 1]));
        assert(line.last() == name.last());
    } else {
        assert(line.last() == note.last());
    }
}

proof fn lemma_entries(lines: Seq<Seq<char>>, found: Seq<Entry>)
    requires
        lines.len() == found.len(),
        forall|i: int|
            0 <= i < lines.len() ==> stack_file::entry_of(#[trigger] lines[i]) == Some(found[i]),
    ensures
        stack_file::entries(lines) == found,
    decreases lines.len(),
{
    if lines.len() > 0 {
        let front = lines.drop_last();
        let less = found.drop_last();
        assert(stack_file::entry_of(lines[lines.len() - 1]) == Some(found[lines.len() - 1]));
        assert forall|i: int| 0 <= i < front.len() implies stack_file::entry_of(#[trigger] front[i])
            == Some(less[i]) by {
            assert(stack_file::entry_of(lines[i]) == Some(found[i]));
        }
        lemma_entries(front, less);
        assert(found =~= less.push(found.last()));
    } else {
        assert(stack_file::entries(lines) =~= found);
    }
}

proof fn lemma_parents_shown(
    widths: Seq<nat>,
    names: Seq<Seq<char>>,
    default_branch: Seq<char>,
    k: int,
)
    requires
        widths.len() == names.len(),
        0 <= k <= names.len(),
    ensures
        ({
            let found = Seq::new(names.len(), |i: int| Entry { indent: widths[i], name: names[i] });
            let map = stack_file::parents(found, k, default_branch);
            &&& forall|b: Seq<char>| #[trigger]
                map.contains_key(b) <==> b != default_branch && names.take(k).contains(b)
            &&& forall|i: int|
                0 <= i < k && #[trigger] names[i] != default_branch && (forall|j: int|
                    i < j < k ==> #[trigger] names[j] != names[i]) ==> shown_parent(
                    widths,
                    names,
                    default_branch,
                    i,
                    map[names[i]],
                )
        }),
    decreases k,
{
    let found = Seq::new(names.len(), |i: int| Entry { indent: widths[i], name: names[i] });
    let map = stack_file::parents(found, k, default_branch);
    if k > 0 {
        let before = stack_file::parents(found, k - 1, default_branch);
        let last = k - 1;
        lemma_parents_shown(widths, names, default_branch, last);
        assert(names.take(k) =~= names.take(last).push(names[last]));
        assert forall|b: Seq<char>| #[trigger] map.contains_key(b) <==> b != default_branch
            && names.take(k).contains(b) by {
            let few = names.take(last);
            if few.contains(b) {
                let x = choose|x: int| 0 <= x < few.len() && few[x] == b;
                assert(names.take(k)[x] == b);
            }
            if names.take(k).contains(b) && b != names[last] {
                let x = choose|x: int| 0 <= x < k && names.take(k)[x] == b;
                assert(few[x] == b);
            }
            assert(names.take(k)[last] == names[last]);
            assert(before.contains_key(b) <==> b != default_branch && few.contains(b));
        }
        stack_file::lemma_nearest_below(found, last, widths[last]);
        if names[last] != default_branch {
            let parent = stack_file::parent_of(found, last, default_branch);
            assert(shown_parent(widths, names, default_branch, last, parent)) by {
                match stack_file::nearest(found, last, widths[last]) {
                    Some(j) => {
                        assert(names[j] == parent);
                        assert forall|l: int| j < l < last implies widths[last]
                            <= #[trigger] widths[l] by {
                            assert(found[l].indent >= widths[last]);
                        }
                    },
                    None => {
                        assert forall|j: int| 0 <= j < last implies widths[last]
                            <= #[trigger] widths[j] by {
                            assert(found[j].indent >= widths[last]);
                        }
                    },
                }
            }
        }
        assert forall|i: int|
            0 <= i < k && #[trigger] names[i] != default_branch && (forall|j: int|
                i < j < k ==> #[trigger] names[j] != names[i]) implies shown_parent(
            widths,
            names,
            default_branch,
            i,
            map[names[i]],
        ) by {
            if i < last {
                assert(names[last] != names[i]);
            }
        }
    }
}

/// A line of the fork-points file gives the branch before its first `=` the commit behind it, both
/// without the white space around them; a line without a `=` says nothing.
pub proof fn law_point_line(branch: Seq<char>, sha: Seq<char>)
    requires
        text::free_of(branch, '='),
    ensures
        fork_points::point_of(branch.push('=') + sha) == Some((text::trim(branch), text::trim(sha))),
        fork_points::point_of(branch) is None,
{
    let line = branch.push('=') + sha;
    lemma_key(branch, seq!['='] + sha);
    lemma_key(branch, seq![]);
    assert(line =~= branch + (seq!['='] + sha));
    assert(branch + Seq::<char>::empty() =~= branch);
    assert(line.take(branch.len() as int) =~= branch);
    assert(line.skip(branch.len() as int + 1) =~= sha);
}

proof fn lemma_key(branch: Seq<char>, rest: Seq<char>)
    requires
        text::free_of(branch, '='),
        rest.len() == 0 || rest[0] == '=',
    ensures
        fork_points::key_len(branch + rest) == branch.len(),
    decreases branch.len(),
{
    let line = branch + rest;
    if branch.len() > 0 {
        let less = branch.drop_first();
        assert(line.drop_first() =~= less + rest);
        assert(line[0] == branch[0]);
        assert forall|i: int| 0 <= i < less.len() implies less[i] != '=' by {
            assert(branch[i + 1] == less[i]);
        }
        lemma_key(less, rest);
    } else {
        assert(line =~= rest);
    }
}

proof fn lemma_points_read(
    branches: Seq<Seq<char>>,
    shas: Seq<Seq<char>>,
    lines: Seq<Seq<char>>,
    k: int,
)
    requires
        branches.len() == shas.len() == lines.len(),
        0 <= k <= lines.len(),
        forall|i: int|
            0 <= i < lines.len() ==> fork_points::point_of(#[trigger] lines[i]) == Some(
                (branches[i], shas[i]),
            ),
    ensures
        ({
            let map = fork_points::points(lines, k);
            &&& forall|b: Seq<char>| #[trigger]
                map.contains_key(b) <==> branches.take(k).contains(b)
            &&& forall|i: int|
                0 <= i < k && (forall|j: int| i < j < k ==> #[trigger] branches[j] != branches[i])
                    ==> map[#[trigger] branches[i]] == shas[i]
        }),
    decreases k,
{
    if k > 0 {
        let last = k - 1;
        let map = fork_points::points(lines, k);
        let before = fork_points::points(lines, last);
        lemma_points_read(branches, shas, lines, last);
        assert(fork_points::point_of(lines[last]) == Some((branches[last], shas[last])));
        let few = branches.take(last);
        assert(branches.take(k) =~= few.push(branches[last]));
        assert forall|b: Seq<char>| #[trigger]
            map.contains_key(b) <==> branches.take(k).contains(b) by {
            if few.contains(b) {
                let x = choose|x: int| 0 <= x < few.len() && few[x] == b;
                assert(branches.take(k)[x] == b);
            }
            if branches.take(k).contains(b) && b != branches[last] {
                let x = choose|x: int| 0 <= x < k && branches.take(k)[x] == b;
                assert(few[x] == b);
            }
            assert(branches.take(k)[last] == branches[last]);
            assert(before.contains_key(b) <==> few.contains(b));
        }
        assert forall|i: int|
            0 <= i < k && (forall|j: int| i < j < k ==> #[trigger] branches[j] != branches[i])
                implies map[#[trigger] branches[i]] == shas[i] by {
            if i < last {
                assert(branches[last] != branches[i]);
            }
        }
    }
}

/// A fork-points file gives each branch that a line names the commit of the last such line, and
/// nothing to any other branch.
pub proof fn law_points_read(branches: Seq<Seq<char>>, shas: Seq<Seq<char>>)
    requires
        branches.len() == shas.len(),
        forall|i: int|
            0 <= i < branches.len() ==> text::free_of(#[trigger] branches[i], '=')
                && fork_points::tidy(branches[i]),
        forall|i: int| 0 <= i < shas.len() ==> fork_points::tidy(#[trigger] shas[i]),
    ensures
        ({
            let lines = Seq::new(branches.len(), |i: int| branches[i].push('=') + shas[i]);
            let map = fork_points::stated_points(layout::ended(lines));
            &&& forall|b: Seq<char>| #[trigger] map.contains_key(b) <==> branches.contains(b)
            &&& forall|i: int|
                0 <= i < branches.len() && (forall|j: int|
                    i < j < branches.len() ==> #[trigger] branches[j] != branches[i])
                    ==> map[#[trigger] branches[i]] == shas[i]
        }),
{
    let lines = Seq::new(branches.len(), |i: int| branches[i].push('=') + shas[i]);
    let content = layout::ended(lines);
    assert forall|i: int| 0 <= i < lines.len() implies one_line(#[trigger] lines[i])
        && fork_points::point_of(lines[i]) == Some((branches[i], shas[i])) by {
        assert(text::free_of(branches[i], '=') && fork_points::tidy(branches[i]));
        assert(fork_points::tidy(shas[i]));
        law_point_line(branches[i], shas[i]);
        fork_points::lemma_point_read(branches[i], shas[i]);
        assert(lines[i] =~= fork_points::point_line(branches[i], shas[i]));
        if lines[i].len() > 0 && lines[i].last() == '\r' {
            assert(text::chop(lines[i]).len() < lines[i].len());
        }
    }
    law_lines(lines, seq![]);
    assert(content + Seq::<char>::empty() =~= content);
    lemma_points_read(branches, shas, lines, lines.len() as int);
    assert(branches.take(lines.len() as int) =~= branches);
}

/// The fork-points file has one line for each fork point, the branch, a `=` and the commit, each
/// ended by a line feed, and the lines are in order. Without fork points it is one empty line.
pub proof fn law_points_written(content: Seq<char>, points: Map<Seq<char>, Seq<char>>)
    requires
        fork_points::writes_points(content, points),
    ensures
        exists|names: Seq<Seq<char>>| #[trigger]
            branch_map::lists_names(names, points) && ({
                let lines = Seq::new(names.len(), |i: int| names[i].push('=') + points[names[i]]);
                &&& order::in_order(lines)
                &&& content == (if names.len() == 0 {
                    seq!['\n']
                } else {
                    layout::ended(lines)
                })
            }),
{
    let names = choose|names: Seq<Seq<char>>|
        {
            &&& branch_map::lists_names(names, points)
            &&& order::in_order(#[trigger] fork_points::point_lines(names, points))
            &&& content == fork_points::join_lines(fork_points::point_lines(names, points)).push(
                '\n',
            )
        };
    let lines = Seq::new(names.len(), |i: int| names[i].push('=') + points[names[i]]);
    assert(fork_points::point_lines(names, points) =~= lines) by {
        assert forall|i: int| 0 <= i < names.len() implies fork_points::point_lines(
            names,
            points,
        )[i] == lines[i] by {
            assert(names[i] + seq!['='] + points[names[i]] =~= names[i].push('=')
                + points[names[i]]);
        }
    }
    if names.len() == 0 {
        assert(content =~= seq!['\n']);
    } else {
        lemma_joined(lines);
    }
    assert(branch_map::lists_names(names, points));
}

proof fn lemma_joined(lines: Seq<Seq<char>>)
    requires
        lines.len() > 0,
    ensures
        fork_points::join_lines(lines).push('\n') == layout::ended(lines),
    decreases lines.len(),
{
    let front = lines.drop_last();
    if lines.len() == 1 {
        assert(layout::ended(front) =~= seq![]);
        assert(layout::ended(lines) =~= lines[0].push('\n'));
    } else {
        lemma_joined(front);
        assert(fork_points::join_lines(lines).push('\n') =~= fork_points::join_lines(front).push(
            '\n',
        ) + lines.last().push('\n'));
    }
}

/// Of two branches the one that is more steps down is written further in.
proof fn lemma_steps(step: nat, a: int, b: int)
    requires
        step > 0,
        1 <= a,
        1 <= b,
    ensures
        step * (a - 1) < step * (b - 1) <==> a < b,
        step * (a - 1) >= 0,
{
    assert(step * (a - 1) < step * (b - 1) <==> a < b) by (nonlinear_arith)
        requires
            step > 0,
    ;
    assert(step * (a - 1) >= 0) by (nonlinear_arith)
        requires
            step > 0,
            1 <= a,
    ;
}

/// An outline of a wired tree that is written by hand with a fixed number of spaces, or of tabs, to
/// a step is read back with the parents of the tree, whatever that number is.
pub proof fn law_outline_of_tree(tree: Tree, fill: char, step: nat)
    requires
        tree.wired(),
        fill == ' ' || fill == '\t',
        step > 0,
        forall|b: Seq<char>| #[trigger]
            tree.topological_order().contains(b) ==> round_trip::plain(b),
    ensures
        ({
            let outline = tree.outline();
            let lines = Seq::new(
                outline.len(),
                |i: int|
                    filled(fill, (step * (outline[i].lasts.len() - 1)) as nat) + outline[i].branch,
            );
            let map = stack_file::stated_parents(layout::ended(lines), tree.root);
            &&& forall|b: Seq<char>| #[trigger]
                map.contains_key(b) <==> tree.topological_order().contains(b)
            &&& forall|b: Seq<char>| #[trigger]
                map.contains_key(b) ==> tree.nodes[b].parent == Some(map[b])
        }),
{
    let outline = tree.outline();
    let names = tree.topological_order();
    let n = outline.len();
    let widths = Seq::new(n, |i: int| (step * (outline[i].lasts.len() - 1)) as nat);
    let notes = Seq::new(n, |i: int| Seq::<char>::empty());
    let lines = Seq::new(
        n,
        |i: int| filled(fill, (step * (outline[i].lasts.len() - 1)) as nat) + outline[i].branch,
    );
    layout::law_stack_file_lines(tree);
    wiring::law_topological_order(tree);
    assert forall|i: int| 0 <= i < names.len() implies names[i] == outline[i].branch
        && round_trip::plain(#[trigger] names[i]) by {
        assert(tree::rung_branches(outline)[i] == outline[i].branch);
        assert(names.contains(names[i]));
    }
    assert(handwritten(fill, widths, names, notes) =~= lines);
    law_outline_read(fill, widths, names, notes, tree.root);
    let map = stack_file::stated_parents(layout::ended(lines), tree.root);
    assert forall|b: Seq<char>| #[trigger] map.contains_key(b) implies tree.nodes[b].parent == Some(
        map[b],
    ) by {
        let i = choose|i: int| 0 <= i < names.len() && names[i] == b;
        assert(names[i] != tree.root);
        assert(forall|j: int| i < j < names.len() ==> #[trigger] names[j] != names[i]);
        assert(shown_parent(widths, names, tree.root, i, map[names[i]]));
        assert(layout::below_parent_line(tree, outline, i));
        assert forall|j: int| 0 <= j < n implies (widths[j] < widths[i] <==> outline[j].lasts.len()
            < outline[i].lasts.len()) by {
            lemma_steps(step, outline[j].lasts.len() as int, outline[i].lasts.len() as int);
            lemma_steps(step, outline[i].lasts.len() as int, outline[j].lasts.len() as int);
        }
        if tree.child_of(b, tree.root) {
            assert forall|j: int| 0 <= j < i implies widths[i] <= #[trigger] widths[j] by {
                assert(outline[j].lasts.len() >= outline[i].lasts.len());
            }
        } else {
            let j = choose|j: int| wiring::under(tree, outline, j, i);
            assert(widths[j] < widths[i]);
            assert forall|l: int| j < l < i implies widths[i] <= #[trigger] widths[l] by {
                assert(outline[l].lasts.len() >= outline[i].lasts.len());
            }
            assert(names[j] == outline[j].branch);
            assert(!(widths[i] <= widths[j]));
            let k = choose|k: int|
                0 <= k < i && #[trigger] names[k] == map[b] && widths[k] < widths[i] && forall|l: int|
                    k < l < i ==> widths[i] <= #[trigger] widths[l];
            assert(k == j);
        }
    }
}

} // verus!
