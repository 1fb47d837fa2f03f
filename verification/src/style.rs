//! How notices look on a terminal.

use std::path::PathBuf;

use vstd::prelude::*;
use vstd::string::StringExecFns;

use crate::notice::{Level, Message, Notice, Piece, Span};
use crate::text;

verus! {

/// `symbol`, a space and `content`, both between the control sequences `on` and `off`.
pub open spec fn painted(
    on: Seq<char>,
    symbol: Seq<char>,
    content: Seq<char>,
    off: Seq<char>,
) -> Seq<char> {
    on + symbol + off + " "@ + on + content + off
}

/// What `content` looks like at `level`: cyan, green, yellow, red or dim, behind a symbol.
pub open spec fn styled_text(level: Level, content: Seq<char>) -> Seq<char> {
    match level {
        Level::Progress => painted("\u{1b}[36m"@, "◎"@, content, "\u{1b}[39m"@),
        Level::Success => painted("\u{1b}[32m"@, "✓"@, content, "\u{1b}[39m"@),
        Level::Warning => painted("\u{1b}[33m"@, "▲"@, content, "\u{1b}[39m"@),
        Level::Error => painted("\u{1b}[31m"@, "✗"@, content, "\u{1b}[39m"@),
        Level::Hint => painted("\u{1b}[2m"@, "↳"@, content, "\u{1b}[22m"@),
        Level::Line => content,
    }
}

/// What `text` looks like in bold.
pub open spec fn bold_text(text: Seq<char>) -> Seq<char> {
    "\u{1b}[1m"@ + text + "\u{1b}[22m"@
}

/// What a piece looks like, if `path` is how paths are shown.
pub open spec fn piece_text(piece: Piece, path: Seq<char>) -> Seq<char> {
    match piece {
        Piece::Plain(text) => text,
        Piece::Bold(text) => bold_text(text),
        Piece::Path(_) => path,
    }
}

/// What pieces look like one after the other.
pub open spec fn pieces_text(pieces: Seq<Piece>, path: Seq<char>) -> Seq<char>
    decreases pieces.len(),
{
    if pieces.len() == 0 {
        seq![]
    } else {
        pieces_text(pieces.drop_last(), path) + piece_text(pieces.last(), path)
    }
}

/// What a message looks like.
pub open spec fn rendering(message: Message, path: Seq<char>) -> Seq<char> {
    styled_text(message.level, pieces_text(message.pieces, path))
}

/// The first path among `pieces`.
pub open spec fn first_path(pieces: Seq<Piece>) -> Option<PathBuf>
    decreases pieces.len(),
{
    if pieces.len() == 0 {
        None
    } else {
        match pieces[0] {
            Piece::Path(path) => Some(path),
            _ => first_path(pieces.drop_first()),
        }
    }
}

/// `worktrunk::styling::progress_message`: a cyan `◎`, a space and the content in cyan.
#[verifier::external_body]
fn progress(content: &str) -> (styled: String)
    ensures
        styled@ == styled_text(Level::Progress, content@),
{
    worktrunk::styling::progress_message(content).into_inner()
}

/// `worktrunk::styling::success_message`: a green `✓`, a space and the content in green.
#[verifier::external_body]
fn success(content: &str) -> (styled: String)
    ensures
        styled@ == styled_text(Level::Success, content@),
{
    worktrunk::styling::success_message(content).into_inner()
}

/// `worktrunk::styling::warning_message`: a yellow `▲`, a space and the content in yellow.
#[verifier::external_body]
fn warning(content: &str) -> (styled: String)
    ensures
        styled@ == styled_text(Level::Warning, content@),
{
    worktrunk::styling::warning_message(content).into_inner()
}

/// `worktrunk::styling::error_message`: a red `✗`, a space and the content in red.
#[verifier::external_body]
fn error(content: &str) -> (styled: String)
    ensures
        styled@ == styled_text(Level::Error, content@),
{
    worktrunk::styling::error_message(content).into_inner()
}

/// `worktrunk::styling::hint_message`: a dim `↳`, a space and the content, dimmed.
#[verifier::external_body]
fn hint(content: &str) -> (styled: String)
    ensures
        styled@ == styled_text(Level::Hint, content@),
{
    worktrunk::styling::hint_message(content).into_inner()
}

/// `text` in bold.
pub fn bold(text: &str) -> (styled: String)
    ensures
        styled@ == bold_text(text@),
{
    let mut styled = text::joined("\u{1b}[1m", text);
    styled.append("\u{1b}[22m");
    styled
}

/// What `content` looks like at `level`.
pub fn styled(level: Level, content: &str) -> (styled: String)
    ensures
        styled@ == styled_text(level, content@),
{
    match level {
        Level::Progress => progress(content),
        Level::Success => success(content),
        Level::Warning => warning(content),
        Level::Error => error(content),
        Level::Hint => hint(content),
        Level::Line => content.to_owned(),
    }
}

impl Notice {
    /// The first path in the notice.
    pub fn first_path(&self) -> (path: Option<PathBuf>)
        ensures
            path == first_path(self@.pieces),
    {
        let ghost pieces = self@.pieces;
        let mut i: usize = 0;
        assert(pieces.skip(0) =~= pieces);
        while i < self.spans.len()
            invariant
                i <= self.spans@.len(),
                pieces == self@.pieces,
                first_path(pieces.skip(i as int)) == first_path(pieces),
            decreases self.spans@.len() - i,
        {
            assert(pieces.skip(i as int)[0] == self.spans@[i as int]@);
            assert(pieces.skip(i as int).drop_first() =~= pieces.skip(i + 1));
            if let Span::Path(path) = &self.spans[i] {
                return Some(path.clone());
            }
            i = i + 1;
        }
        assert(pieces.skip(i as int) =~= seq![]);
        None
    }

    /// What the notice looks like, if `path` is how its path is shown.
    pub fn render(&self, path: &str) -> (rendered: String)
        ensures
            rendered@ == rendering(self@, path@),
    {
        let ghost pieces = self@.pieces;
        let mut content = String::new();
        let mut i: usize = 0;
        assert(pieces.take(0) =~= seq![]);
        while i < self.spans.len()
            invariant
                i <= self.spans@.len(),
                pieces == self@.pieces,
                content@ == pieces_text(pieces.take(i as int), path@),
            decreases self.spans@.len() - i,
        {
            let ghost next = pieces.take(i + 1);
            assert(next.drop_last() =~= pieces.take(i as int));
            assert(next.last() == self.spans@[i as int]@);
            match &self.spans[i] {
                Span::Plain(text) => content.append(text.as_str()),
                Span::Bold(text) => content.append(bold(text.as_str()).as_str()),
                Span::Path(_) => content.append(path),
            }
            i = i + 1;
        }
        assert(pieces.take(i as int) =~= pieces);
        styled(self.level, content.as_str())
    }
}

} // verus!
