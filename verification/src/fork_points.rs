//! Fork points: the tip of each branch's parent at the last sync, one `branch=sha` line each.

use vstd::prelude::*;
use vstd::string::StringExecFns;

use crate::branch_map;
use crate::branch_map::BranchMap;
use crate::order;
use crate::text;

verus! {

/// How many characters stand before the first `=`, or in all of `line` if it has none.
pub open spec fn key_len(line: Seq<char>) -> nat
    decreases line.len(),
{
    if line.len() == 0 || line[0] == '=' {
        0
    } else {
        1 + key_len(line.drop_first())
    }
}

/// The branch and the commit that `line` names, on either side of its first `=`.
pub open spec fn point_of(line: Seq<char>) -> Option<(Seq<char>, Seq<char>)> {
    let n = key_len(line) as int;
    if n >= line.len() {
        None
    } else {
        Some((text::trim(line.take(n)), text::trim(line.skip(n + 1))))
    }
}

/// The fork points that the first `k` lines state. Of two lines for one branch the later counts.
pub open spec fn points(lines: Seq<Seq<char>>, k: int) -> Map<Seq<char>, Seq<char>>
    decreases k,
{
    if k <= 0 {
        Map::empty()
    } else {
        match point_of(lines[k - 1]) {
            Some(point) => points(lines, k - 1).insert(point.0, point.1),
            None => points(lines, k - 1),
        }
    }
}

/// The fork points that a file states.
pub open spec fn stated_points(content: Seq<char>) -> Map<Seq<char>, Seq<char>> {
    points(text::lines(content), text::lines(content).len() as int)
}

/// Read the fork points from the content of their file.
/// Returns a map of branch name -> parent commit at the last sync.
pub fn parse_fork_points(content: &str) -> (map: BranchMap<String>)
    ensures
        branch_map::text_map(map@) == stated_points(content@),
{
    let lines = text::split_lines(content);
    let ghost all = text::char_texts(lines@);
    let mut map: BranchMap<String> = BranchMap::new();
    let mut i: usize = 0;
    assert(branch_map::text_map(map@) =~= Map::empty());
    while i < lines.len()
        invariant
            i <= lines@.len(),
            all == text::char_texts(lines@),
            branch_map::text_map(map@) == points(all, i as int),
        decreases lines@.len() - i,
    {
        let line = &lines[i];
        assert(all[i as int] == line@);
        let at = end_of_key(line);
        if at < line.len() {
            assert(line@.subrange(0, at as int) == line@.take(at as int));
            assert(line@.subrange(at + 1, line@.len() as int) == line@.skip(at + 1));
            let branch = trimmed_part(line, 0, at);
            let sha = trimmed_part(line, at + 1, line.len());
            let ghost before = map@;
            let ghost point = (branch@, sha@);
            map.insert(branch, sha);
            assert(branch_map::text_map(map@) =~= branch_map::text_map(before).insert(
                point.0,
                point.1,
            ));
        }
        i = i + 1;
    }
    map
}

fn end_of_key(line: &Vec<char>) -> (at: usize)
    ensures
        at == key_len(line@),
        at <= line@.len(),
{
    let mut at: usize = 0;
    assert(line@.skip(0) == line@);
    while at < line.len() && line[at] != '='
        invariant
            at <= line@.len(),
            at + key_len(line@.skip(at as int)) == key_len(line@),
        decreases line@.len() - at,
    {
        assert(line@.skip(at as int).drop_first() == line@.skip(at + 1));
        at = at + 1;
    }
    at
}

fn trimmed_part(line: &Vec<char>, from: usize, to: usize) -> (part: String)
    requires
        from <= to <= line@.len(),
    ensures
        part@ == text::trim(line@.subrange(from as int, to as int)),
{
    let start = text::start_of_text(line, from, to);
    let end = text::end_of_text(line, start, to);
    text::to_text(line, start, end)
}

/// The line for one fork point.
pub open spec fn point_line(branch: Seq<char>, sha: Seq<char>) -> Seq<char> {
    branch + seq!['='] + sha
}

/// The lines for the fork points of `names`.
pub open spec fn point_lines(
    names: Seq<Seq<char>>,
    points: Map<Seq<char>, Seq<char>>,
) -> Seq<Seq<char>> {
    Seq::new(names.len(), |i: int| point_line(names[i], points[names[i]]))
}

/// `lines` with a newline between each two.
pub open spec fn join_lines(lines: Seq<Seq<char>>) -> Seq<char>
    decreases lines.len(),
{
    if lines.len() == 0 {
        seq![]
    } else if lines.len() == 1 {
        lines[0]
    } else {
        join_lines(lines.drop_last()) + seq!['\n'] + lines.last()
    }
}

/// Whether `content` states `points`: one line for each, in order, and a newline at the end.
pub open spec fn writes_points(content: Seq<char>, points: Map<Seq<char>, Seq<char>>) -> bool {
    exists|names: Seq<Seq<char>>|
        {
            &&& branch_map::lists_names(names, points)
            &&& order::in_order(#[trigger] point_lines(names, points))
            &&& content == join_lines(point_lines(names, points)).push('\n')
        }
}

/// The content of the file for `map`.
pub fn format_fork_points(map: &BranchMap<String>) -> (content: String)
    ensures
        writes_points(content@, branch_map::text_map(map@)),
{
    let count = map.len();
    let ghost points = branch_map::text_map(map@);
    let ghost all = map.names();
    let mut lines: Vec<String> = Vec::new();
    let ghost mut names: Seq<Seq<char>> = seq![];
    let mut i: usize = 0;
    assert(text::texts(lines@) =~= point_lines(names, points));
    assert(all.take(0) =~= names);
    while i < count
        invariant
            i <= count,
            all == map.names(),
            count == all.len(),
            points == branch_map::text_map(map@),
            branch_map::lists_names(all, map@),
            order::in_order(text::texts(lines@)),
            text::texts(lines@) == point_lines(names, points),
            same_names(names, all.take(i as int)),
        decreases count - i,
    {
        let branch = map.name_at(i);
        let mut line = branch.clone();
        line.push('=');
        line.append(map.value_at(i).as_str());
        assert(all.contains(all[i as int]));
        assert(line@ =~= point_line(branch@, points[branch@]));
        let ghost before = lines@;
        let ghost text = line;
        order::insert_in_order(&mut lines, line);
        proof {
            let at = choose|at: int|
                0 <= at <= before.len() && #[trigger] before.insert(at, text) == lines@;
            assert(text::texts(before).len() == point_lines(names, points).len());
            let grown = names.insert(at, branch@);
            assert(text::texts(lines@) =~= point_lines(grown, points)) by {
                assert forall|j: int| 0 <= j < grown.len() implies text::texts(lines@)[j]
                    == point_lines(grown, points)[j] by {
                    if j < at {
                        assert(text::texts(before)[j] == point_lines(names, points)[j]);
                    } else if j > at {
                        assert(text::texts(before)[j - 1] == point_lines(names, points)[j - 1]);
                    }
                }
            }
            lemma_insert_same(names, all.take(i as int), at, branch@);
            assert(all.take(i + 1) =~= all.take(i as int).push(branch@));
            names = grown;
        }
        i = i + 1;
    }
    proof {
        assert(all.take(count as int) =~= all);
        lemma_same_lists(names, all, points);
    }
    let mut content = String::new();
    let ghost texts = text::texts(lines@);
    let mut j: usize = 0;
    assert(texts.take(0) =~= seq![]);
    while j < lines.len()
        invariant
            j <= lines@.len(),
            texts == text::texts(lines@),
            content@ == join_lines(texts.take(j as int)),
        decreases lines@.len() - j,
    {
        let ghost next = texts.take(j + 1);
        assert(next.drop_last() =~= texts.take(j as int));
        if j > 0 {
            content.push('\n');
        }
        content.append(lines[j].as_str());
        assert(next.last() == lines@[j as int]@);
        assert(content@ =~= join_lines(next));
        j = j + 1;
    }
    assert(texts.take(j as int) =~= texts);
    content.push('\n');
    assert(content@ == join_lines(point_lines(names, points)).push('\n'));
    content
}

/// Whether two lists hold the same names, each as often as the other does.
spec fn same_names(left: Seq<Seq<char>>, right: Seq<Seq<char>>) -> bool {
    left.to_multiset() == right.to_multiset()
}

proof fn lemma_insert_same(
    left: Seq<Seq<char>>,
    right: Seq<Seq<char>>,
    at: int,
    name: Seq<char>,
)
    requires
        same_names(left, right),
        0 <= at <= left.len(),
    ensures
        same_names(left.insert(at, name), right.push(name)),
{
    broadcast use vstd::seq_lib::group_to_multiset_ensures;

    assert(left.insert(at, name).to_multiset() =~= left.to_multiset().insert(name));
    assert(right.push(name).to_multiset() =~= right.to_multiset().insert(name));
}

proof fn lemma_same_lists(
    left: Seq<Seq<char>>,
    right: Seq<Seq<char>>,
    points: Map<Seq<char>, Seq<char>>,
)
    requires
        same_names(left, right),
        branch_map::lists_names(right, points),
    ensures
        branch_map::lists_names(left, points),
{
    broadcast use vstd::seq_lib::group_to_multiset_ensures;

    right.lemma_multiset_has_no_duplicates();
    assert(right.to_multiset() == left.to_multiset());
    left.lemma_multiset_has_no_duplicates_conv();
    assert forall|name: Seq<char>| left.contains(name) <==> #[trigger] points.contains_key(name) by {
        assert(left.contains(name) <==> left.to_multiset().count(name) > 0);
        assert(right.contains(name) <==> right.to_multiset().count(name) > 0);
    }
}

/// Whether a name or commit stands on one line and is not changed by trimming.
pub open spec fn tidy(part: Seq<char>) -> bool {
    text::trim(part) == part && text::free_of(part, '\n')
}

proof fn lemma_key_len(branch: Seq<char>, rest: Seq<char>)
    requires
        text::free_of(branch, '='),
    ensures
        key_len(branch + seq!['='] + rest) == branch.len(),
    decreases branch.len(),
{
    let line = branch + seq!['='] + rest;
    if branch.len() > 0 {
        let next = branch.drop_first();
        assert(line.drop_first() =~= next + seq!['='] + rest);
        assert forall|i: int| 0 <= i < next.len() implies next[i] != '=' by {
            assert(branch[i + 1] == next[i]);
        }
        lemma_key_len(next, rest);
    } else {
        assert(line[0] == '=');
    }
}

/// What is trimmed does not end in white space.
proof fn lemma_trim_end_stable(part: Seq<char>)
    requires
        part.len() > 0,
    ensures
        text::trim(part) == part ==> !text::is_white(part.last()),
{
    lemma_trim_start_shrinks(part);
    if text::trim(part) == part {
        let start = text::trim_start(part);
        lemma_trim_end_shrinks(start);
        if start.len() > 0 && text::is_white(start.last()) {
            lemma_trim_end_shrinks(start.drop_last());
        }
    }
}

proof fn lemma_trim_start_shrinks(part: Seq<char>)
    ensures
        text::trim_start(part).len() <= part.len(),
        text::trim_start(part).len() == part.len() ==> text::trim_start(part) == part,
    decreases part.len(),
{
    if part.len() > 0 && text::is_white(part[0]) {
        lemma_trim_start_shrinks(part.drop_first());
    }
}

proof fn lemma_trim_end_shrinks(part: Seq<char>)
    ensures
        text::trim_end(part).len() <= part.len(),
    decreases part.len(),
{
    if part.len() > 0 && text::is_white(part.last()) {
        lemma_trim_end_shrinks(part.drop_last());
    }
}

/// The line of a fork point names it.
pub proof fn lemma_point_read(branch: Seq<char>, sha: Seq<char>)
    requires
        tidy(branch),
        text::free_of(branch, '='),
        tidy(sha),
    ensures
        point_of(point_line(branch, sha)) == Some((branch, sha)),
        text::free_of(point_line(branch, sha), '\n'),
        text::chop(point_line(branch, sha)) == point_line(branch, sha),
{
    let line = point_line(branch, sha);
    lemma_key_len(branch, sha);
    assert(line.take(branch.len() as int) =~= branch);
    assert(line.skip(branch.len() as int + 1) =~= sha);
    if sha.len() > 0 {
        lemma_trim_end_stable(sha);
        assert(line.last() == sha.last());
    } else {
        assert(line.last() == '=');
    }
}

/// Lines that are joined come apart again.
proof fn lemma_join_apart(lines: Seq<Seq<char>>)
    requires
        lines.len() > 0,
        forall|i: int|
            0 <= i < lines.len() ==> text::free_of(#[trigger] lines[i], '\n') && text::chop(
                lines[i],
            ) == lines[i],
    ensures
        text::lines(join_lines(lines).push('\n')) == lines,
    decreases lines.len(),
{
    let last = lines.last();
    assert(lines[lines.len() - 1] == last);
    let none = Seq::<char>::empty();
    text::lemma_lines_step(last, none);
    assert(last.push('\n') + none =~= last.push('\n'));
    assert(text::lines(none) =~= seq![]);
    assert(text::lines(last.push('\n')) =~= seq![last]);
    if lines.len() == 1 {
        assert(lines =~= seq![last]);
    } else {
        let front = lines.drop_last();
        assert forall|i: int| 0 <= i < front.len() implies text::free_of(#[trigger] front[i], '\n')
            && text::chop(front[i]) == front[i] by {
            assert(front[i] == lines[i]);
        }
        lemma_join_apart(front);
        let head = join_lines(front).push('\n');
        assert(join_lines(lines).push('\n') =~= head + last.push('\n'));
        text::lemma_lines_append(head, last.push('\n'));
        assert(lines =~= front + seq![last]);
    }
}

proof fn lemma_points_read(
    names: Seq<Seq<char>>,
    map: Map<Seq<char>, Seq<char>>,
    k: int,
)
    requires
        branch_map::lists_names(names, map),
        0 <= k <= names.len(),
        forall|i: int|
            0 <= i < names.len() ==> #[trigger] point_of(point_lines(names, map)[i]) == Some(
                (names[i], map[names[i]]),
            ),
    ensures
        forall|b: Seq<char>| #[trigger]
            points(point_lines(names, map), k).contains_key(b) <==> names.take(k).contains(b),
        forall|b: Seq<char>| #[trigger]
            points(point_lines(names, map), k).contains_key(b) ==> points(
                point_lines(names, map),
                k,
            )[b] == map[b],
    decreases k,
{
    if k > 0 {
        let lines = point_lines(names, map);
        lemma_points_read(names, map, k - 1);
        assert(point_of(lines[k - 1]) == Some((names[k - 1], map[names[k - 1]])));
        assert(names.take(k) =~= names.take(k - 1).push(names[k - 1]));
        assert forall|b: Seq<char>| #[trigger]
            points(lines, k).contains_key(b) <==> names.take(k).contains(b) by {
            if names.take(k - 1).contains(b) {
                let before = names.take(k - 1);
                let i = choose|i: int| 0 <= i < before.len() && before[i] == b;
                assert(names.take(k)[i] == b);
            }
            assert(names.take(k)[k - 1] == names[k - 1]);
            assert(points(lines, k - 1).contains_key(b) <==> names.take(k - 1).contains(b));
        }
        assert forall|b: Seq<char>| #[trigger] points(lines, k).contains_key(b) implies points(
            lines,
            k,
        )[b] == map[b] by {
            if b != names[k - 1] {
                assert(points(lines, k - 1).contains_key(b));
            }
        }
    }
}

/// Reading back a file that states fork points gives those fork points, where branches and commits
/// are tidy and no branch holds a `=`.
pub proof fn law_fork_points_round_trip(content: Seq<char>, map: Map<Seq<char>, Seq<char>>)
    requires
        writes_points(content, map),
        forall|b: Seq<char>| #[trigger]
            map.contains_key(b) ==> tidy(b) && text::free_of(b, '=') && tidy(map[b]),
    ensures
        stated_points(content) == map,
{
    let names = choose|names: Seq<Seq<char>>|
        {
            &&& branch_map::lists_names(names, map)
            &&& order::in_order(#[trigger] point_lines(names, map))
            &&& content == join_lines(point_lines(names, map)).push('\n')
        };
    let lines = point_lines(names, map);
    assert forall|i: int| 0 <= i < names.len() implies #[trigger] point_of(lines[i]) == Some(
        (names[i], map[names[i]]),
    ) && text::free_of(lines[i], '\n') && text::chop(lines[i]) == lines[i] by {
        assert(names.contains(names[i]));
        assert(map.contains_key(names[i]));
        lemma_point_read(names[i], map[names[i]]);
    }
    if names.len() > 0 {
        assert forall|i: int| 0 <= i < lines.len() implies text::free_of(#[trigger] lines[i], '\n')
            && text::chop(lines[i]) == lines[i] by {
            assert(point_of(lines[i]) == Some((names[i], map[names[i]])));
        }
        lemma_join_apart(lines);
        lemma_points_read(names, map, names.len() as int);
        assert(names.take(names.len() as int) =~= names);
        assert(stated_points(content) =~= map);
    } else {
        let none = Seq::<char>::empty();
        assert(content =~= none.push('\n') + none);
        text::lemma_lines_step(none, none);
        assert(text::lines(none) =~= seq![]);
        let found = text::lines(content);
        assert(found =~= seq![none]);
        assert(point_of(found[0]) is None);
        assert(points(found, 0) =~= Map::empty());
        assert(points(found, 1) =~= Map::empty());
        assert forall|b: Seq<char>| !#[trigger] map.contains_key(b) by {
            assert(!names.contains(b));
        }
        assert(stated_points(content) =~= map);
    }
}

} // verus!
