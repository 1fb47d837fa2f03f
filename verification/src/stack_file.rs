//! The stack file: the dependency tree as an outline, one branch per line, in the format of
//! git-machete.

use vstd::prelude::*;
use vstd::string::StringExecFns;

use crate::branch_map;
use crate::branch_map::BranchMap;
use crate::failure::Failure;
use crate::text;
use crate::tree;
use crate::tree::{DependencyTree, Rung, Tree};

verus! {

/// A line of an outline: how far it is indented, and the branch that it names.
pub struct Entry {
    pub indent: nat,
    pub name: Seq<char>,
}

/// How many tabs `line` begins with.
pub open spec fn leading_tabs(line: Seq<char>) -> nat
    decreases line.len(),
{
    if line.len() > 0 && line[0] == '\t' {
        1 + leading_tabs(line.drop_first())
    } else {
        0
    }
}

/// How many bytes the white space takes that `line` begins with.
pub open spec fn leading_white(line: Seq<char>) -> nat
    decreases line.len(),
{
    if line.len() > 0 && text::is_white(line[0]) {
        text::utf8_len(line[0]) + leading_white(line.drop_first())
    } else {
        0
    }
}

/// How far `line` is indented: by tabs if it begins with one, else by white space of any kind.
pub open spec fn indent(line: Seq<char>) -> nat {
    if line.len() > 0 && line[0] == '\t' {
        leading_tabs(line)
    } else {
        leading_white(line)
    }
}

/// What `line` says. Blank lines and comments say nothing; what follows the branch name is an
/// annotation.
pub open spec fn entry_of(line: Seq<char>) -> Option<Entry> {
    let rest = text::trim_start(line);
    if rest.len() == 0 || rest[0] == '#' {
        None
    } else {
        Some(Entry { indent: indent(line), name: text::word(rest) })
    }
}

/// What `lines` say.
pub open spec fn entries(lines: Seq<Seq<char>>) -> Seq<Entry>
    decreases lines.len(),
{
    if lines.len() == 0 {
        seq![]
    } else {
        match entry_of(lines.last()) {
            Some(entry) => entries(lines.drop_last()).push(entry),
            None => entries(lines.drop_last()),
        }
    }
}

/// The nearest of the first `k` entries that is indented less than `indent`.
pub open spec fn nearest(entries: Seq<Entry>, k: int, indent: nat) -> Option<int>
    decreases k,
{
    if k <= 0 {
        None
    } else if entries[k - 1].indent < indent {
        Some(k - 1)
    } else {
        nearest(entries, k - 1, indent)
    }
}

/// The parent of entry `k`: the nearest entry above that is indented less, else the default
/// branch.
pub open spec fn parent_of(entries: Seq<Entry>, k: int, default_branch: Seq<char>) -> Seq<char> {
    match nearest(entries, k, entries[k].indent) {
        Some(j) => entries[j].name,
        None => default_branch,
    }
}

/// The parents that the first `k` entries state. The default branch has none; of two entries for
/// one branch the later counts.
pub open spec fn parents(entries: Seq<Entry>, k: int, default_branch: Seq<char>) -> Map<
    Seq<char>,
    Seq<char>,
>
    decreases k,
{
    if k <= 0 {
        Map::empty()
    } else if entries[k - 1].name == default_branch {
        parents(entries, k - 1, default_branch)
    } else {
        parents(entries, k - 1, default_branch).insert(
            entries[k - 1].name,
            parent_of(entries, k - 1, default_branch),
        )
    }
}

/// The parents that a stack file states.
pub open spec fn stated_parents(content: Seq<char>, default_branch: Seq<char>) -> Map<
    Seq<char>,
    Seq<char>,
> {
    let found = entries(text::lines(content));
    parents(found, found.len() as int, default_branch)
}

/// `entries`, each indented by `shift` more.
pub open spec fn indented(entries: Seq<Entry>, shift: nat) -> Seq<Entry> {
    Seq::new(
        entries.len(),
        |i: int| Entry { indent: entries[i].indent + shift, name: entries[i].name },
    )
}

proof fn lemma_nearest_below_root(
    entries: Seq<Entry>,
    root: Entry,
    shift: nat,
    k: int,
    indent: nat,
)
    requires
        0 <= k <= entries.len(),
        root.indent < shift,
    ensures
        nearest(seq![root] + indented(entries, shift), k + 1, indent + shift) == match nearest(
            entries,
            k,
            indent,
        ) {
            Some(j) => Some(j + 1),
            None => Some(0int),
        },
    decreases k,
{
    let all = seq![root] + indented(entries, shift);
    if k > 0 {
        assert(all[k] == indented(entries, shift)[k - 1]);
        lemma_nearest_below_root(entries, root, shift, k - 1, indent);
    } else {
        assert(all[0] == root);
        assert(nearest(all, 1, indent + shift) == Some(0int));
    }
}

proof fn lemma_parents_below_root(
    entries: Seq<Entry>,
    root: Entry,
    shift: nat,
    k: int,
)
    requires
        0 <= k <= entries.len(),
        root.indent < shift,
    ensures
        parents(seq![root] + indented(entries, shift), k + 1, root.name) == parents(
            entries,
            k,
            root.name,
        ),
    decreases k,
{
    let all = seq![root] + indented(entries, shift);
    if k > 0 {
        let entry = entries[k - 1];
        lemma_parents_below_root(entries, root, shift, k - 1);
        assert(all[k] == indented(entries, shift)[k - 1]);
        lemma_nearest_below_root(entries, root, shift, k - 1, entry.indent);
        lemma_nearest_below(entries, k - 1, entry.indent);
        match nearest(entries, k - 1, entry.indent) {
            Some(j) => {
                assert(all[j + 1] == indented(entries, shift)[j]);
            },
            None => {
                assert(all[0] == root);
            },
        }
    } else {
        assert(all[0] == root);
        assert(parents(all, 0, root.name) == Map::<Seq<char>, Seq<char>>::empty());
    }
}

/// The default branch may head the file or be left out: a file in which it stands above all else,
/// indented less, states the same parents as the file without it.
pub proof fn law_root_line_optional(entries: Seq<Entry>, root: Entry, shift: nat)
    requires
        root.indent < shift,
    ensures
        parents(
            seq![root] + indented(entries, shift),
            entries.len() as int + 1,
            root.name,
        ) == parents(entries, entries.len() as int, root.name),
{
    lemma_parents_below_root(entries, root, shift, entries.len() as int);
}

/// Lines that say nothing, such as comments and blank lines, change nothing.
pub proof fn law_silent_lines(before: Seq<Seq<char>>, line: Seq<char>, after: Seq<Seq<char>>)
    requires
        entry_of(line) is None,
    ensures
        entries(before.push(line) + after) == entries(before + after),
    decreases after.len(),
{
    if after.len() == 0 {
        assert(before.push(line) + after =~= before.push(line));
        assert(before.push(line).drop_last() =~= before);
        assert(before + after =~= before);
    } else {
        law_silent_lines(before, line, after.drop_last());
        assert((before.push(line) + after).drop_last() =~= before.push(line) + after.drop_last());
        assert((before + after).drop_last() =~= before + after.drop_last());
    }
}

/// Entries that come later do not change what is nearest.
proof fn lemma_nearest_prefix(entries: Seq<Entry>, more: Entry, k: int, indent: nat)
    requires
        k <= entries.len(),
    ensures
        nearest(entries.push(more), k, indent) == nearest(entries, k, indent),
    decreases k,
{
    if k > 0 {
        lemma_nearest_prefix(entries, more, k - 1, indent);
    }
}

proof fn lemma_parents_prefix(
    entries: Seq<Entry>,
    more: Entry,
    k: int,
    default_branch: Seq<char>,
)
    requires
        k <= entries.len(),
    ensures
        parents(entries.push(more), k, default_branch) == parents(entries, k, default_branch),
    decreases k,
{
    if k > 0 {
        lemma_parents_prefix(entries, more, k - 1, default_branch);
        lemma_nearest_prefix(entries, more, k - 1, entries[k - 1].indent);
        match nearest(entries, k - 1, entries[k - 1].indent) {
            Some(j) => {
                lemma_nearest_below(entries, k - 1, entries[k - 1].indent);
            },
            None => {},
        }
    }
}

/// What is nearest stands above and is indented less, and nothing between the two is.
pub proof fn lemma_nearest_below(entries: Seq<Entry>, k: int, indent: nat)
    ensures
        match nearest(entries, k, indent) {
            Some(j) => 0 <= j < k && entries[j].indent < indent && forall|i: int|
                j < i < k ==> (#[trigger] entries[i]).indent >= indent,
            None => forall|i: int| 0 <= i < k ==> (#[trigger] entries[i]).indent >= indent,
        },
    decreases k,
{
    if k > 0 {
        lemma_nearest_below(entries, k - 1, indent);
    }
}

/// A shallower search that starts at `k` may start behind what is nearest to a deeper one.
proof fn lemma_nearest_chain(entries: Seq<Entry>, k: int, deeper: nat, indent: nat)
    requires
        indent <= deeper,
    ensures
        nearest(entries, k, indent) == match nearest(entries, k, deeper) {
            Some(j) => nearest(entries, j + 1, indent),
            None => None,
        },
    decreases k,
{
    if k > 0 && entries[k - 1].indent >= deeper {
        lemma_nearest_chain(entries, k - 1, deeper, indent);
    }
}

/// How far `line` is indented. At three bytes per character at most, the sum cannot overflow.
fn indentation(line: &Vec<char>) -> (width: u128)
    ensures
        width == indent(line@),
{
    let tabbed = line.len() > 0 && line[0] == '\t';
    let mut width: u128 = 0;
    let mut i: usize = 0;
    assert(line@.skip(0) == line@);
    if tabbed {
        while i < line.len() && line[i] == '\t'
            invariant
                i <= line@.len(),
                width == i,
                width + leading_tabs(line@.skip(i as int)) == leading_tabs(line@),
            decreases line@.len() - i,
        {
            assert(line@.skip(i as int).drop_first() == line@.skip(i + 1));
            width = width + 1;
            i = i + 1;
        }
    } else {
        while i < line.len() && text::is_whitespace(line[i])
            invariant
                i <= line@.len(),
                width <= 3 * i,
                width + leading_white(line@.skip(i as int)) == leading_white(line@),
            decreases line@.len() - i,
        {
            assert(line@.skip(i as int).drop_first() == line@.skip(i + 1));
            let c: u32 = line[i] as u32;
            let bytes: u128 = if c < 0x80 {
                1
            } else if c < 0x800 {
                2
            } else {
                3
            };
            width = width + bytes;
            i = i + 1;
        }
    }
    width
}

/// What `line` says: its indentation and the branch that it names.
fn read_entry(line: &Vec<char>) -> (entry: Option<(u128, String)>)
    ensures
        match entry {
            Some(read) => entry_of(line@) == Some(Entry { indent: read.0 as nat, name: read.1@ }),
            None => entry_of(line@) is None,
        },
{
    assert(line@.subrange(0, line@.len() as int) == line@);
    let start = text::start_of_text(line, 0, line.len());
    assert(line@.subrange(start as int, line@.len() as int) == line@.skip(start as int));
    if start < line.len() && line[start] != '#' {
        let end = text::end_of_word(line, start);
        Some((indentation(line), text::to_text(line, start, end)))
    } else {
        None
    }
}

/// Whether `stack` holds the entries above the end of `found`, each the nearest one above the
/// next; `at` says which entries these are.
spec fn climbs(stack: Seq<(u128, String)>, at: Seq<int>, found: Seq<Entry>) -> bool {
    &&& at.len() == stack.len()
    &&& found.len() > 0 ==> at.len() > 0 && at.last() == found.len() - 1
    &&& chained(stack, at, found)
}

spec fn chained(stack: Seq<(u128, String)>, at: Seq<int>, found: Seq<Entry>) -> bool {
    forall|t: int| 0 <= t < at.len() ==> #[trigger] link(stack, at, found, t)
}

/// Whether position `t` of the stack holds an entry whose parent is at the position below.
spec fn link(stack: Seq<(u128, String)>, at: Seq<int>, found: Seq<Entry>, t: int) -> bool {
    &&& 0 <= at[t] < found.len()
    &&& stack[t].0 == found[at[t]].indent
    &&& stack[t].1@ == found[at[t]].name
    &&& nearest(found, at[t], found[at[t]].indent) == if t == 0 {
        None
    } else {
        Some(at[t - 1])
    }
}

/// Takes the entries off `stack` that are not indented less than `width`.
fn unwind(
    stack: &mut Vec<(u128, String)>,
    width: u128,
    Ghost(at): Ghost<Seq<int>>,
    Ghost(found): Ghost<Seq<Entry>>,
) -> (left: Ghost<Seq<int>>)
    requires
        climbs(old(stack)@, at, found),
    ensures
        left@.len() == final(stack)@.len(),
        chained(final(stack)@, left@, found),
        nearest(found, found.len() as int, width as nat) == if left@.len() == 0 {
            None
        } else {
            Some(left@.last())
        },
{
    let ghost mut at = at;
    assert(at.len() > 0 ==> link(stack@, at, found, 0));
    while stack.len() > 0 && stack[stack.len() - 1].0 >= width
        invariant
            at.len() == stack@.len(),
            chained(stack@, at, found),
            nearest(found, found.len() as int, width as nat) == if stack@.len() == 0 {
                None
            } else {
                nearest(found, at.last() + 1, width as nat)
            },
        decreases stack@.len(),
    {
        proof {
            let top = at.last();
            assert(link(stack@, at, found, at.len() - 1));
            lemma_nearest_chain(found, top, found[top].indent, width as nat);
        }
        let ghost before = stack@;
        let _ = stack.pop();
        proof {
            let rest = at.drop_last();
            assert forall|t: int| 0 <= t < rest.len() implies #[trigger] link(
                stack@,
                rest,
                found,
                t,
            ) by {
                assert(link(before, at, found, t));
            }
            at = rest;
        }
    }
    assert(at.len() > 0 ==> link(stack@, at, found, at.len() - 1));
    Ghost(at)
}

/// What is put on top of its parent climbs on.
proof fn lemma_climb_on(
    stack: Seq<(u128, String)>,
    at: Seq<int>,
    found: Seq<Entry>,
    width: u128,
    name: String,
)
    requires
        at.len() == stack.len(),
        chained(stack, at, found),
        nearest(found, found.len() as int, width as nat) == if at.len() == 0 {
            None
        } else {
            Some(at.last())
        },
    ensures
        climbs(
            stack.push((width, name)),
            at.push(found.len() as int),
            found.push(Entry { indent: width as nat, name: name@ }),
        ),
{
    let entry = Entry { indent: width as nat, name: name@ };
    let grown = found.push(entry);
    let grown_at = at.push(found.len() as int);
    let grown_stack = stack.push((width, name));
    assert forall|t: int| 0 <= t < grown_at.len() implies #[trigger] link(
        grown_stack,
        grown_at,
        grown,
        t,
    ) by {
        if t < at.len() {
            assert(link(stack, at, found, t));
            lemma_nearest_prefix(found, entry, at[t], found[at[t]].indent);
        } else {
            lemma_nearest_prefix(found, entry, found.len() as int, width as nat);
        }
    }
}

/// Parse a stack file (git-machete compatible format) into a parent map.
///
/// The format is indentation-based, one branch per line, with the root (default branch) at the
/// top:
/// ```text
/// main
///     pr1
///         pr2
///             pr3
///     other-pr
/// ```
///
/// `format_stack_file` leaves the root branch out, so files written by it start at the first
/// child level. Both forms are accepted.
///
/// Returns a map of branch -> parent, in which the default branch has no entry. Every content is
/// accepted.
pub fn parse_stack_file(content: &str, default_branch: &str) -> (parsed: Result<
    BranchMap<String>,
    Failure,
>)
    ensures
        parsed matches Ok(map) && branch_map::text_map(map@) == stated_parents(
            content@,
            default_branch@,
        ),
{
    let lines = text::split_lines(content);
    let ghost all = text::char_texts(lines@);
    let mut map: BranchMap<String> = BranchMap::new();
    let mut stack: Vec<(u128, String)> = Vec::new();
    let ghost mut at: Seq<int> = seq![];
    let mut i: usize = 0;
    assert(branch_map::text_map(map@) =~= Map::empty());
    while i < lines.len()
        invariant
            i <= lines@.len(),
            all == text::char_texts(lines@),
            climbs(stack@, at, entries(all.take(i as int))),
            branch_map::text_map(map@) == parents(
                entries(all.take(i as int)),
                entries(all.take(i as int)).len() as int,
                default_branch@,
            ),
        decreases lines@.len() - i,
    {
        let line = &lines[i];
        let ghost found = entries(all.take(i as int));
        assert(all.take(i + 1).drop_last() == all.take(i as int));
        assert(all.take(i + 1).last() == line@);
        i = i + 1;
        if let Some((width, name)) = read_entry(line) {
            let ghost entry = Entry { indent: width as nat, name: name@ };
            let ghost grown = found.push(entry);
            assert(entries(all.take(i as int)) == grown);
            let above = unwind(&mut stack, width, Ghost(at), Ghost(found));
            proof {
                at = above@;
            }
            let parent = if stack.len() > 0 {
                assert(link(stack@, at, found, at.len() - 1));
                stack[stack.len() - 1].1.clone()
            } else {
                default_branch.to_owned()
            };
            proof {
                let n = found.len() as int;
                lemma_nearest_prefix(found, entry, n, width as nat);
                lemma_parents_prefix(found, entry, n, default_branch@);
                assert(parent@ == parent_of(grown, n, default_branch@));
                lemma_climb_on(stack@, at, found, width, name);
            }
            if !text::same(name.as_str(), default_branch) {
                let ghost before = map@;
                map.insert(name.clone(), parent);
                assert(branch_map::text_map(map@) =~= branch_map::text_map(before).insert(
                    name@,
                    parent@,
                ));
            }
            stack.push((width, name));
            proof {
                at = at.push(found.len() as int);
            }
        }
    }
    assert(all.take(i as int) == all);
    Ok(map)
}

/// `count` tabs.
pub open spec fn tabs(count: nat) -> Seq<char> {
    Seq::new(count, |i: int| '\t')
}

/// The line of the stack file for `branch`, `depth` steps below the root.
pub open spec fn branch_line(branch: Seq<char>, depth: nat) -> Seq<char> {
    tabs((depth - 1) as nat) + branch + seq!['\n']
}

/// The lines of the stack file for `outline`.
pub open spec fn outline_text(outline: Seq<Rung>) -> Seq<char>
    decreases outline.len(),
{
    if outline.len() == 0 {
        seq![]
    } else {
        outline_text(outline.drop_last()) + branch_line(
            outline.last().branch,
            outline.last().lasts.len(),
        )
    }
}

/// The content of the stack file for `tree`. The root has no line.
pub open spec fn stack_text(tree: Tree) -> Seq<char> {
    outline_text(tree.outline())
}

/// The lines for `branch`, with the branches of `way` above it, and for all below it.
pub open spec fn node_text(tree: Tree, way: Seq<Seq<char>>, branch: Seq<char>) -> Seq<char> {
    let lasts = Seq::new(way.len(), |i: int| true);
    let own = if way.len() > 0 {
        branch_line(branch, way.len())
    } else {
        seq![]
    };
    own + outline_text(tree.outline_below(way.to_set(), branch, lasts))
}

pub proof fn lemma_outline_text_append(left: Seq<Rung>, right: Seq<Rung>)
    ensures
        outline_text(left + right) == outline_text(left) + outline_text(right),
    decreases right.len(),
{
    if right.len() == 0 {
        assert(left + right == left);
        assert(outline_text(left) + outline_text(right) == outline_text(left));
    } else {
        assert((left + right).drop_last() == left + right.drop_last());
        lemma_outline_text_append(left, right.drop_last());
        let line = branch_line(right.last().branch, right.last().lasts.len());
        assert((outline_text(left) + outline_text(right.drop_last())) + line == outline_text(left)
            + (outline_text(right.drop_last()) + line));
    }
}

/// Where the branches stand among their siblings does not show in the stack file.
proof fn lemma_text_of_depth(
    tree: Tree,
    way: Set<Seq<char>>,
    children: Seq<Seq<char>>,
    k: nat,
    left: Seq<bool>,
    right: Seq<bool>,
)
    requires
        left.len() == right.len(),
        tree.nodes.dom().finite(),
    ensures
        outline_text(tree.forest(way, children, k, left)) == outline_text(
            tree.forest(way, children, k, right),
        ),
    decreases tree.nodes.dom().difference(way).len(), k,
{
    if 0 < k <= children.len() {
        let before = (k - 1) as nat;
        let child = children[k - 1];
        lemma_text_of_depth(tree, way, children, before, left, right);
        if !way.contains(child) {
            lemma_forest_text(tree, way, children, k, left);
            lemma_forest_text(tree, way, children, k, right);
            if tree.nodes.contains_key(child) {
                tree::lemma_way_grows(tree, way, child);
                lemma_text_of_depth(
                    tree,
                    way.insert(child),
                    tree.nodes[child].children,
                    tree.nodes[child].children.len(),
                    left.push(k == children.len()),
                    right.push(k == children.len()),
                );
            }
        }
    }
}

/// The text of a forest ends with the text of its last tree.
proof fn lemma_forest_text(
    tree: Tree,
    way: Set<Seq<char>>,
    children: Seq<Seq<char>>,
    k: nat,
    lasts: Seq<bool>,
)
    requires
        0 < k <= children.len(),
        !way.contains(children[k - 1]),
        tree.nodes.dom().finite(),
    ensures
        outline_text(tree.forest(way, children, k, lasts)) == outline_text(
            tree.forest(way, children, (k - 1) as nat, lasts),
        ) + (branch_line(children[k - 1], lasts.len() + 1) + outline_text(
            tree.outline_below(way, children[k - 1], lasts.push(k == children.len())),
        )),
{
    let front = tree.forest(way, children, (k - 1) as nat, lasts);
    let child = children[k - 1];
    let mine = lasts.push(k == children.len());
    let own = front.push(Rung { lasts: mine, branch: child });
    let line = branch_line(child, lasts.len() + 1);
    assert(own.drop_last() == front);
    assert(outline_text(own) == outline_text(front) + line);
    if tree.nodes.contains_key(child) {
        let below = tree.outline_below(way, child, mine);
        lemma_outline_text_append(own, below);
        assert((outline_text(front) + line) + outline_text(below) == outline_text(front) + (line
            + outline_text(below)));
    } else {
        assert(tree.outline_below(way, child, mine) =~= seq![]);
        assert(line + Seq::<char>::empty() == line);
    }
}

/// Format the dependency tree as a stack file (git-machete compatible format).
pub fn format_stack_file(tree: &DependencyTree) -> (output: String)
    ensures
        output@ == stack_text(tree@),
{
    let mut output = String::new();
    let mut way: Vec<&str> = Vec::new();
    assert(tree::slice_texts(way@) =~= seq![]);
    assert(tree::slice_texts(way@).to_set() =~= Set::empty());
    assert(Seq::new(0nat, |i: int| true) =~= seq![]);
    format_stack_node(tree, tree.root.as_str(), &mut way, &mut output);
    assert(output@ =~= stack_text(tree@));
    output
}

/// Appends the line for `branch`, which the branches of `way` lead to, and the lines below it.
/// The root, to which no branch leads, has no line.
pub fn format_stack_node<'a>(
    tree: &'a DependencyTree,
    branch: &'a str,
    way: &mut Vec<&'a str>,
    output: &mut String,
)
    requires
        !tree::slice_texts(old(way)@).contains(branch@),
    ensures
        final(way)@ == old(way)@,
        final(output)@ == old(output)@ + node_text(tree@, tree::slice_texts(old(way)@), branch@),
    decreases tree@.nodes.dom().difference(tree::slice_texts(old(way)@).to_set()).len(),
{
    let ghost model = tree@;
    let ghost outer = tree::slice_texts(way@);
    let ghost above = way@;
    let ghost lasts = Seq::new(outer.len(), |i: int| true);
    let ghost begun = output@;
    if way.len() > 0 {
        let mut i: usize = 1;
        assert(tabs(0) =~= seq![]);
        assert(begun + tabs(0) == begun);
        while i < way.len()
            invariant
                1 <= i <= way@.len(),
                way@ == above,
                output@ == begun + tabs((i - 1) as nat),
            decreases way@.len() - i,
        {
            output.push('\t');
            assert((begun + tabs((i - 1) as nat)).push('\t') =~= begun + tabs(i as nat));
            i = i + 1;
        }
        output.append(branch);
        output.push('\n');
        assert(output@ =~= begun + branch_line(branch@, outer.len()));
    }
    let ghost own = if outer.len() > 0 {
        branch_line(branch@, outer.len())
    } else {
        seq![]
    };
    assert(output@ =~= begun + own);
    // The map is finite.
    let _ = tree.nodes.len();
    assert(model.nodes.dom() =~= tree.nodes@.dom());
    let ghost inner = outer.push(branch@);
    let ghost inside = outer.to_set().insert(branch@);
    let ghost children = model.children(branch@);
    if let Some(node) = tree.nodes.get(branch) {
        assert(model.nodes[branch@] == node@);
        way.push(branch);
        proof {
            assert(tree::slice_texts(way@) =~= inner);
            assert(inner.to_set() =~= inside) by {
                tree::lemma_to_set_push(outer, branch@);
            }
            tree::lemma_way_grows(model, outer.to_set(), branch@);
            assert(outline_text(model.forest(inside, children, 0, lasts)) =~= seq![]);
            assert(begun + own + Seq::<char>::empty() =~= begun + own);
        }
        let ghost pushed = way@;
        let mut i: usize = 0;
        while i < node.children.len()
            invariant
                i <= node.children@.len(),
                way@ == pushed,
                model == tree@,
                tree::slice_texts(pushed) == inner,
                inner == outer.push(branch@),
                inner.to_set() == inside,
                lasts.len() == outer.len(),
                model.nodes.dom().finite(),
                model.nodes.dom().difference(inside).len() < model.nodes.dom().difference(
                    outer.to_set(),
                ).len(),
                outer == tree::slice_texts(above),
                old(way)@ == above,
                children == text::texts(node.children@),
                output@ == begun + own + outline_text(
                    model.forest(inside, children, i as nat, lasts),
                ),
            decreases node.children@.len() - i,
        {
            let child = node.children[i].as_str();
            let met = tree::listed(way, child);
            proof {
                assert(children[i as int] == child@);
                assert(inner.contains(child@) == inside.contains(child@));
                if !met {
                    lemma_forest_text(model, inside, children, (i + 1) as nat, lasts);
                    lemma_text_of_depth(
                        model,
                        inside.insert(child@),
                        model.children(child@),
                        model.children(child@).len(),
                        lasts.push(i + 1 == children.len()),
                        Seq::new(inner.len(), |i: int| true),
                    );
                }
            }
            let ghost so_far = output@;
            if !met {
                format_stack_node(tree, child, way, output);
                assert(output@ =~= begun + own + outline_text(
                    model.forest(inside, children, (i + 1) as nat, lasts),
                ));
            }
            i = i + 1;
        }
        let _ = way.pop();
        assert(way@ =~= above);
        assert(i as nat == children.len());
        assert(output@ =~= begun + (own + outline_text(
            model.outline_below(outer.to_set(), branch@, lasts),
        )));
    } else {
        assert(model.outline_below(outer.to_set(), branch@, lasts) =~= seq![]);
        assert(output@ =~= begun + (own + seq![]));
    }
}

} // verus!
