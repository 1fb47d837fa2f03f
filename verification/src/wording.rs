//! What notices and faults say, word for word.

use std::path::PathBuf;

use vstd::prelude::*;

use crate::failure;
use crate::notice;
use crate::notice::{Level, Message, Piece};
use crate::style;

verus! {

/// What a message says, if `path` is how paths are shown.
pub open spec fn says(message: Message, path: Seq<char>) -> Seq<char> {
    style::pieces_text(message.pieces, path)
}

/// What pieces look like is what each of them looks like, one after the other: a text stands as it
/// is or between the marks for bold, and a path as it is shown.
pub proof fn law_pieces(left: Seq<Piece>, right: Seq<Piece>, name: Seq<char>, path: Seq<char>)
    ensures
        style::pieces_text(left + right, path) == style::pieces_text(left, path)
            + style::pieces_text(right, path),
        style::pieces_text(seq![Piece::Plain(name)], path) == name,
        style::pieces_text(seq![Piece::Bold(name)], path) == "\u{1b}[1m"@ + name + "\u{1b}[22m"@,
        forall|at: PathBuf| #[trigger] style::pieces_text(seq![Piece::Path(at)], path) == path,
        style::pieces_text(seq![], path).len() == 0,
    decreases right.len(),
{
    reveal_with_fuel(style::pieces_text, 2);
    assert forall|piece: Piece| #[trigger] style::pieces_text(seq![piece], path)
        =~= style::piece_text(piece, path) by {
        assert(seq![piece].drop_last() =~= seq![]);
    }
    if right.len() == 0 {
        assert(left + right =~= left);
    } else {
        assert((left + right).drop_last() =~= left + right.drop_last());
        law_pieces(left, right.drop_last(), name, path);
        assert(style::pieces_text(left + right, path) =~= style::pieces_text(left, path)
            + style::pieces_text(right, path));
    }
}

/// A message is shown behind the symbol of its level, in the colour of the level; a line as it is.
pub proof fn law_rendering(message: Message, path: Seq<char>)
    ensures
        style::rendering(message, path) == (match message.level {
            Level::Progress => "\u{1b}[36m"@ + "◎"@ + "\u{1b}[39m"@ + " "@ + "\u{1b}[36m"@ + says(
                message,
                path,
            ) + "\u{1b}[39m"@,
            Level::Success => "\u{1b}[32m"@ + "✓"@ + "\u{1b}[39m"@ + " "@ + "\u{1b}[32m"@ + says(
                message,
                path,
            ) + "\u{1b}[39m"@,
            Level::Warning => "\u{1b}[33m"@ + "▲"@ + "\u{1b}[39m"@ + " "@ + "\u{1b}[33m"@ + says(
                message,
                path,
            ) + "\u{1b}[39m"@,
            Level::Error => "\u{1b}[31m"@ + "✗"@ + "\u{1b}[39m"@ + " "@ + "\u{1b}[31m"@ + says(
                message,
                path,
            ) + "\u{1b}[39m"@,
            Level::Hint => "\u{1b}[2m"@ + "↳"@ + "\u{1b}[22m"@ + " "@ + "\u{1b}[2m"@ + says(
                message,
                path,
            ) + "\u{1b}[22m"@,
            Level::Line => says(message, path),
        }),
{
}

/// The first path among pieces is a path that stands behind no other.
pub proof fn law_first_path(pieces: Seq<Piece>)
    ensures
        match style::first_path(pieces) {
            Some(path) => exists|i: int|
                0 <= i < pieces.len() && #[trigger] pieces[i] == Piece::Path(path) && forall|j: int|
                    0 <= j < i ==> !(#[trigger] pieces[j] is Path),
            None => forall|j: int| 0 <= j < pieces.len() ==> !(#[trigger] pieces[j] is Path),
        },
    decreases pieces.len(),
{
    if pieces.len() > 0 && !(pieces[0] is Path) {
        let rest = pieces.drop_first();
        law_first_path(rest);
        match style::first_path(pieces) {
            Some(path) => {
                let i = choose|i: int|
                    0 <= i < rest.len() && #[trigger] rest[i] == Piece::Path(path) && forall|j: int|
                        0 <= j < i ==> !(#[trigger] rest[j] is Path);
                assert(pieces[i + 1] == Piece::Path(path));
                assert forall|j: int| 0 <= j < i + 1 implies !(#[trigger] pieces[j] is Path) by {
                    if j > 0 {
                        assert(pieces[j] == rest[j - 1]);
                    }
                }
            },
            None => {
                assert forall|j: int| 0 <= j < pieces.len() implies !(
                #[trigger] pieces[j] is Path) by {
                    if j > 0 {
                        assert(pieces[j] == rest[j - 1]);
                    }
                }
            },
        }
    }
}

/// What is said of a rebase names the branch and its parent.
pub proof fn law_rebase_wording(b: Seq<char>, p: Seq<char>, was: Seq<char>, path: Seq<char>)
    ensures
        says(Message::rebasing(b, p), path) == "Rebasing "@ + style::bold_text(b) + " onto "@
            + style::bold_text(p) + "..."@,
        says(Message::moving(b, p, was), path) == "Rebasing "@ + style::bold_text(b) + " onto "@
            + style::bold_text(p) + " (was on integrated "@ + style::bold_text(was) + ")"@
            + "..."@,
        says(Message::rebased(b, p), path) == "Rebased "@ + style::bold_text(b) + " onto "@
            + style::bold_text(p),
        says(Message::up_to_date(b, p), path) == style::bold_text(b) + " is up to date with "@
            + style::bold_text(p),
        says(Message::conflict(b, p), path) == "Rebase conflict while rebasing "@
            + style::bold_text(b) + " onto "@ + style::bold_text(p),
        Message::rebasing(b, p).level == Level::Progress,
        Message::moving(b, p, was).level == Level::Progress,
        Message::rebased(b, p).level == Level::Success,
        Message::up_to_date(b, p).level == Level::Success,
        Message::conflict(b, p).level == Level::Error,
{
    lemma_says(Message::rebasing(b, p).pieces, path);
    lemma_says(Message::moving(b, p, was).pieces, path);
    lemma_says(Message::rebased(b, p).pieces, path);
    lemma_says(Message::up_to_date(b, p).pieces, path);
    lemma_says(Message::conflict(b, p).pieces, path);
}

/// What is said of a push and of a removal names the branch, and what went wrong if something did.
pub proof fn law_push_wording(b: Seq<char>, remote: Seq<char>, error: Seq<char>, path: Seq<char>)
    ensures
        says(Message::pushing(b, remote), path) == "Pushing "@ + style::bold_text(b) + " to "@
            + remote + "..."@,
        says(Message::pushed(b), path) == "Pushed "@ + style::bold_text(b),
        says(Message::push_failed(b, error), path) == "Failed to push "@ + style::bold_text(b)
            + ": "@ + error,
        says(Message::removing(b), path) == "Removing integrated worktree "@ + style::bold_text(b)
            + "..."@,
        says(Message::removed(b), path) == "Removed integrated worktree "@ + style::bold_text(b),
        says(Message::remove_failed(b, error), path) == "Failed to remove worktree for "@
            + style::bold_text(b) + ": "@ + error,
        says(Message::delete_failed(b, error), path) == "Failed to delete local branch "@
            + style::bold_text(b) + ": "@ + error,
        says(Message::remote_delete_failed(b, error), path) == "Failed to delete remote branch "@
            + style::bold_text(b) + ": "@ + error,
        Message::pushing(b, remote).level == Level::Progress,
        Message::pushed(b).level == Level::Success,
        Message::push_failed(b, error).level == Level::Error,
        Message::removing(b).level == Level::Progress,
        Message::removed(b).level == Level::Success,
        Message::remove_failed(b, error).level == Level::Error,
        Message::delete_failed(b, error).level == Level::Warning,
        Message::remote_delete_failed(b, error).level == Level::Warning,
{
    lemma_says(Message::pushing(b, remote).pieces, path);
    lemma_says(Message::pushed(b).pieces, path);
    lemma_says(Message::push_failed(b, error).pieces, path);
    lemma_says(Message::removing(b).pieces, path);
    lemma_says(Message::removed(b).pieces, path);
    lemma_says(Message::remove_failed(b, error).pieces, path);
    lemma_says(Message::delete_failed(b, error).pieces, path);
    lemma_says(Message::remote_delete_failed(b, error).pieces, path);
}

/// What is said of the whole sync, of a branch without a stack, of a choice between parents, and of
/// what to do by hand, which is about the worktree at `at`.
pub proof fn law_other_wording(
    b: Seq<char>,
    names: Seq<Seq<char>>,
    picked: Seq<char>,
    rebased: nat,
    skipped: nat,
    at: PathBuf,
    path: Seq<char>,
)
    ensures
        says(Message::summary(rebased, skipped), path) == "Sync complete: "@ + notice::decimal(
            rebased,
        ) + " rebased, "@ + notice::decimal(skipped) + " already up to date."@,
        says(Message::no_stack(b), path) == "Branch "@ + style::bold_text(b)
            + " is not part of any stack. Nothing to sync."@,
        says(Message::equidistant(b, names, picked), path) == "Branch "@ + style::bold_text(b)
            + " has equidistant parents: "@ + notice::comma_list(names) + ". Picked "@
            + style::bold_text(picked) + "."@,
        says(Message::conflict_hint(at), path) == "Resolve conflicts in "@ + path
            + ", then run:\n  cd "@ + path + "\n  git rebase --continue\n  wt sync"@,
        says(Message::remove_hint(at), path)
            == "Clean up the worktree manually, then run: git worktree remove "@ + path,
        style::first_path(Message::conflict_hint(at).pieces) == Some(at),
        style::first_path(Message::remove_hint(at).pieces) == Some(at),
        says(Message::line(b), path) == b,
        says(Message::blank(), path).len() == 0,
        Message::summary(rebased, skipped).level == Level::Success,
        Message::no_stack(b).level == Level::Success,
        Message::equidistant(b, names, picked).level == Level::Warning,
        Message::conflict_hint(at).level == Level::Hint,
        Message::remove_hint(at).level == Level::Hint,
        Message::line(b).level == Level::Line,
        Message::blank().level == Level::Line,
{
    lemma_says(Message::summary(rebased, skipped).pieces, path);
    lemma_says(Message::no_stack(b).pieces, path);
    lemma_says(Message::equidistant(b, names, picked).pieces, path);
    lemma_says(Message::conflict_hint(at).pieces, path);
    lemma_says(Message::remove_hint(at).pieces, path);
    lemma_says(Message::line(b).pieces, path);
    reveal_with_fuel(style::first_path, 3);
}

/// What the first `k` of `pieces` look like.
proof fn lemma_says_first(pieces: Seq<Piece>, path: Seq<char>, k: int)
    requires
        0 < k <= pieces.len(),
    ensures
        style::pieces_text(pieces.take(k), path) == style::pieces_text(pieces.take(k - 1), path)
            + style::piece_text(pieces[k - 1], path),
{
    assert(pieces.take(k).drop_last() =~= pieces.take(k - 1));
}

/// What up to eight pieces look like.
proof fn lemma_says(pieces: Seq<Piece>, path: Seq<char>)
    requires
        0 < pieces.len() <= 8,
    ensures
        ({
            let t = |i: int| style::piece_text(pieces[i], path);
            let all = style::pieces_text(pieces, path);
            &&& pieces.len() == 1 ==> all == t(0)
            &&& pieces.len() == 2 ==> all == t(0) + t(1)
            &&& pieces.len() == 3 ==> all == t(0) + t(1) + t(2)
            &&& pieces.len() == 4 ==> all == t(0) + t(1) + t(2) + t(3)
            &&& pieces.len() == 5 ==> all == t(0) + t(1) + t(2) + t(3) + t(4)
            &&& pieces.len() == 7 ==> all == t(0) + t(1) + t(2) + t(3) + t(4) + t(5) + t(6)
            &&& pieces.len() == 8 ==> all == t(0) + t(1) + t(2) + t(3) + t(4) + t(5) + t(6) + t(7)
        }),
{
    let n = pieces.len() as int;
    assert(pieces.take(n) =~= pieces);
    assert(pieces.take(0) =~= seq![]);
    assert(style::pieces_text(pieces.take(0), path) =~= seq![]);
    assert forall|k: int| 0 < k <= n implies #[trigger] style::pieces_text(pieces.take(k), path)
        == style::pieces_text(pieces.take(k - 1), path) + style::piece_text(
        pieces[k - 1],
        path,
    ) by {
        lemma_says_first(pieces, path, k);
    }
    assert(style::pieces_text(pieces.take(1), path) =~= style::piece_text(pieces[0], path));
    if n >= 2 {
        assert(style::pieces_text(pieces.take(2), path) == style::pieces_text(pieces.take(1), path)
            + style::piece_text(pieces[1], path));
    }
    if n >= 3 {
        assert(style::pieces_text(pieces.take(3), path) == style::pieces_text(pieces.take(2), path)
            + style::piece_text(pieces[2], path));
    }
    if n >= 4 {
        assert(style::pieces_text(pieces.take(4), path) == style::pieces_text(pieces.take(3), path)
            + style::piece_text(pieces[3], path));
    }
    if n >= 5 {
        assert(style::pieces_text(pieces.take(5), path) == style::pieces_text(pieces.take(4), path)
            + style::piece_text(pieces[4], path));
    }
    if n >= 6 {
        assert(style::pieces_text(pieces.take(6), path) == style::pieces_text(pieces.take(5), path)
            + style::piece_text(pieces[5], path));
    }
    if n >= 7 {
        assert(style::pieces_text(pieces.take(7), path) == style::pieces_text(pieces.take(6), path)
            + style::piece_text(pieces[6], path));
    }
    if n >= 8 {
        assert(style::pieces_text(pieces.take(8), path) == style::pieces_text(pieces.take(7), path)
            + style::piece_text(pieces[7], path));
    }
}

/// The value of a digit.
pub open spec fn digit_value(c: char) -> int {
    c as int - '0' as int
}

/// The number that digits stand for, the last one for the units.
pub open spec fn value(digits: Seq<char>) -> int
    decreases digits.len(),
{
    if digits.len() == 0 {
        0
    } else {
        10 * value(digits.drop_last()) + digit_value(digits.last())
    }
}

/// A number in decimal is made of digits, has the value of the number, and no zero in front unless
/// it is zero.
pub proof fn law_decimal(n: nat)
    ensures
        value(notice::decimal(n)) == n,
        notice::decimal(n).len() > 0,
        forall|i: int|
            0 <= i < notice::decimal(n).len() ==> '0' <= #[trigger] notice::decimal(n)[i] <= '9',
        n > 0 ==> notice::decimal(n)[0] != '0',
        n == 0 ==> notice::decimal(n) == seq!['0'],
    decreases n,
{
    let digits = notice::decimal(n);
    assert(forall|d: nat| d < 10 ==> digit_value(#[trigger] notice::digit(d)) == d);
    if n < 10 {
        assert(digits.drop_last() =~= seq![]);
        assert(value(seq![]) == 0);
    } else {
        let front = notice::decimal(n / 10);
        law_decimal(n / 10);
        assert(digits.drop_last() =~= front);
        assert forall|i: int| 0 <= i < digits.len() implies '0' <= #[trigger] digits[i] <= '9' by {
            if i < front.len() {
                assert(digits[i] == front[i]);
            }
        }
    }
}

/// A list of names is the names with a comma and a space between each two.
pub proof fn law_comma_list(left: Seq<Seq<char>>, right: Seq<Seq<char>>, name: Seq<char>)
    ensures
        notice::comma_list(seq![]).len() == 0,
        notice::comma_list(seq![name]) == name,
        left.len() > 0 && right.len() > 0 ==> notice::comma_list(left + right)
            == notice::comma_list(left) + ", "@ + notice::comma_list(right),
    decreases right.len(),
{
    if left.len() > 0 && right.len() > 0 {
        let all = left + right;
        assert(all.drop_last() =~= left + right.drop_last());
        if right.len() == 1 {
            assert(all.drop_last() =~= left);
        } else {
            law_comma_list(left, right.drop_last(), name);
            assert(notice::comma_list(all) =~= notice::comma_list(left) + ", "@
                + notice::comma_list(right));
        }
    }
}

/// The branches with tracked changes are listed one to a line.
pub proof fn law_bullets(left: Seq<Seq<char>>, right: Seq<Seq<char>>, name: Seq<char>)
    ensures
        failure::bullets(seq![]).len() == 0,
        failure::bullets(seq![name]) == "  - "@ + name,
        left.len() > 0 && right.len() > 0 ==> failure::bullets(left + right) == failure::bullets(
            left,
        ) + "\n"@ + failure::bullets(right),
    decreases right.len(),
{
    if left.len() > 0 && right.len() > 0 {
        let all = left + right;
        reveal_strlit("\n  - ");
        reveal_strlit("  - ");
        reveal_strlit("\n");
        assert("\n  - "@ =~= "\n"@ + "  - "@);
        assert(all.drop_last() =~= left + right.drop_last());
        if right.len() == 1 {
            assert(all.drop_last() =~= left);
            assert(failure::bullets(all) =~= failure::bullets(left) + "\n"@ + failure::bullets(
                right,
            ));
        } else {
            law_bullets(left, right.drop_last(), name);
            assert(failure::bullets(all) =~= failure::bullets(left) + "\n"@ + failure::bullets(
                right,
            ));
        }
    }
}

/// What is reported of tracked changes and of a missing default branch.
pub proof fn law_fault_wording(branches: Seq<Seq<char>>, root: Seq<char>, fault: failure::Fault)
    ensures
        failure::uncommitted(branches).message == "worktrees have uncommitted changes"@,
        failure::uncommitted(branches).causes == seq![
            failure::bullets(branches) + "\n\nCommit or stash changes before running `wt sync`."@,
        ],
        failure::no_root_worktree(root).message == "Default branch '"@ + root
            + "' has no worktree. Cannot build dependency tree."@,
        failure::no_root_worktree(root).causes.len() == 0,
        failure::no_root().message == "Cannot determine default branch"@,
        failure::no_root().causes.len() == 0,
        failure::unreadable_stack(fault).message == "Failed to read stack file"@,
        failure::unreadable_stack(fault).causes == seq![fault.message] + fault.causes,
{
    assert(failure::uncommitted(branches).causes =~= seq![
        failure::bullets(branches) + "\n\nCommit or stash changes before running `wt sync`."@,
    ]);
}

} // verus!
