//! Text as sequences of characters: white space, lines, words and their order.

use vstd::prelude::*;
use vstd::string::StringExecFns;

verus! {

/// `String::push` appends one character.
pub assume_specification[ String::push ](target: &mut String, c: char)
    ensures
        final(target)@ == old(target)@.push(c),
;

/// `==` on string slices holds when they have the same characters.
pub assume_specification[ <str as PartialEq>::eq ](left: &str, right: &str) -> (same: bool)
    ensures
        same == (left@ == right@),
;

/// The texts of a sequence of strings.
pub open spec fn texts(strings: Seq<String>) -> Seq<Seq<char>> {
    Seq::new(strings.len(), |i: int| strings[i]@)
}

/// The texts of a sequence of character vectors.
pub open spec fn char_texts(lines: Seq<Vec<char>>) -> Seq<Seq<char>> {
    Seq::new(lines.len(), |i: int| lines[i]@)
}

/// The characters of `text`.
pub fn to_chars(text: &str) -> (chars: Vec<char>)
    ensures
        chars@ == text@,
{
    let mut chars: Vec<char> = Vec::new();
    for c in it: text.chars()
        invariant
            it.seq() == text@,
            chars@ == text@.take(it.index() as int),
    {
        chars.push(c);
        assert(text@.take(it.index() + 1) == text@.take(it.index() as int).push(c));
    }
    assert(text@.take(text@.len() as int) == text@);
    chars
}

/// The characters from `start` up to `end` as a string.
pub fn to_text(chars: &Vec<char>, start: usize, end: usize) -> (text: String)
    requires
        start <= end <= chars@.len(),
    ensures
        text@ == chars@.subrange(start as int, end as int),
{
    let mut text = String::new();
    let mut i: usize = start;
    while i < end
        invariant
            start <= i <= end <= chars@.len(),
            text@ == chars@.subrange(start as int, i as int),
        decreases end - i,
    {
        text.push(chars[i]);
        assert(chars@.subrange(start as int, i + 1) == chars@.subrange(start as int, i as int).push(chars@[i as int]));
        i = i + 1;
    }
    text
}

/// Two strings with the same characters.
pub fn same(left: &str, right: &str) -> (same: bool)
    ensures
        same == (left@ == right@),
{
    *left == *right
}

/// `left` followed by `right`.
pub fn joined(left: &str, right: &str) -> (whole: String)
    ensures
        whole@ == left@ + right@,
{
    let mut whole = left.to_owned();
    whole.append(right);
    whole
}

/// The characters with the Unicode property White_Space.
pub open spec fn is_white(c: char) -> bool {
    let n = c as u32;
    ||| 0x9 <= n <= 0xd
    ||| n == 0x20
    ||| n == 0x85
    ||| n == 0xa0
    ||| n == 0x1680
    ||| 0x2000 <= n <= 0x200a
    ||| n == 0x2028
    ||| n == 0x2029
    ||| n == 0x202f
    ||| n == 0x205f
    ||| n == 0x3000
}

/// Whether `c` is white space.
pub fn is_whitespace(c: char) -> (white: bool)
    ensures
        white == is_white(c),
{
    let n: u32 = c as u32;
    (0x9 <= n && n <= 0xd) || n == 0x20 || n == 0x85 || n == 0xa0 || n == 0x1680 || (0x2000 <= n
        && n <= 0x200a) || n == 0x2028 || n == 0x2029 || n == 0x202f || n == 0x205f || n == 0x3000
}

/// The number of bytes that `c` takes in UTF-8.
pub open spec fn utf8_len(c: char) -> nat {
    let n = c as u32;
    if n < 0x80 {
        1
    } else if n < 0x800 {
        2
    } else if n < 0x10000 {
        3
    } else {
        4
    }
}

/// Whether `text` does not hold the character `c`.
pub open spec fn free_of(text: Seq<char>, c: char) -> bool {
    forall|i: int| 0 <= i < text.len() ==> text[i] != c
}

/// Whether `text` holds no white space.
pub open spec fn free_of_white(text: Seq<char>) -> bool {
    forall|i: int| 0 <= i < text.len() ==> !is_white(text[i])
}

/// `text` without the carriage return that ends it, if one does.
pub open spec fn chop(text: Seq<char>) -> Seq<char> {
    if text.len() > 0 && text.last() == '\r' {
        text.drop_last()
    } else {
        text
    }
}

/// How many characters stand before the first newline, or in all of `text` if it has none.
pub open spec fn line_len(text: Seq<char>) -> nat
    decreases text.len(),
{
    if text.len() == 0 || text[0] == '\n' {
        0
    } else {
        1 + line_len(text.drop_first())
    }
}

/// The lines of `text`. A line ends before `\n` or `\r\n`; after the last one nothing needs to
/// stand.
pub open spec fn lines(text: Seq<char>) -> Seq<Seq<char>>
    decreases text.len(),
{
    let n = line_len(text);
    if text.len() == 0 {
        seq![]
    } else if n >= text.len() {
        seq![text]
    } else {
        seq![chop(text.take(n as int))] + lines(text.skip(n as int + 1))
    }
}

pub proof fn lemma_line_len(head: Seq<char>, rest: Seq<char>)
    requires
        free_of(head, '\n'),
        rest.len() == 0 || rest[0] == '\n',
    ensures
        line_len(head + rest) == head.len(),
    decreases head.len(),
{
    if head.len() > 0 {
        assert((head + rest).drop_first() == head.drop_first() + rest);
        lemma_line_len(head.drop_first(), rest);
    } else {
        assert(head + rest == rest);
    }
}

/// A newline ends the line before it.
pub proof fn lemma_lines_step(head: Seq<char>, rest: Seq<char>)
    requires
        free_of(head, '\n'),
    ensures
        lines(head.push('\n') + rest) == seq![chop(head)] + lines(rest),
{
    let text = head.push('\n') + rest;
    let tail = seq!['\n'] + rest;
    assert(text == head + tail);
    lemma_line_len(head, tail);
    assert(text.take(head.len() as int) == head);
    assert(text.skip(head.len() as int + 1) == rest);
}

/// Lines behind a newline do not change those before it.
pub proof fn lemma_lines_append(front: Seq<char>, rest: Seq<char>)
    requires
        front.len() == 0 || front.last() == '\n',
    ensures
        lines(front + rest) == lines(front) + lines(rest),
    decreases front.len(),
{
    if front.len() == 0 {
        assert(front + rest == rest);
        assert(lines(front) + lines(rest) == lines(rest));
    } else {
        let n = line_len(front);
        lemma_line_found(front);
        let head = front.take(n as int);
        let tail = front.skip(n as int + 1);
        assert(front == head.push('\n') + tail);
        assert(tail.len() > 0 ==> tail.last() == front.last());
        assert(front + rest == head.push('\n') + (tail + rest));
        lemma_lines_step(head, tail);
        lemma_lines_step(head, tail + rest);
        lemma_lines_append(tail, rest);
        assert((seq![chop(head)] + lines(tail)) + lines(rest) == seq![
            chop(head),
        ] + (lines(tail) + lines(rest)));
    }
}

/// A text that ends in a newline has a first one.
proof fn lemma_line_found(front: Seq<char>)
    requires
        front.len() > 0,
        front.last() == '\n',
    ensures
        line_len(front) < front.len(),
        front[line_len(front) as int] == '\n',
        free_of(front.take(line_len(front) as int), '\n'),
    decreases front.len(),
{
    if front[0] != '\n' {
        let rest = front.drop_first();
        assert(rest.last() == front.last());
        lemma_line_found(rest);
        let n = line_len(rest) as int;
        let head = front.take(n + 1);
        assert forall|i: int| 0 <= i < head.len() implies head[i] != '\n' by {
            if i > 0 {
                assert(rest.take(n)[i - 1] == head[i]);
            }
        }
    }
}

/// The lines of `text`.
pub fn split_lines(text: &str) -> (found: Vec<Vec<char>>)
    ensures
        char_texts(found@) == lines(text@),
{
    let chars = to_chars(text);
    let mut found: Vec<Vec<char>> = Vec::new();
    let mut line: Vec<char> = Vec::new();
    let mut i: usize = 0;
    assert(chars@.skip(0) == chars@);
    assert(line@ + chars@ == chars@);
    assert(char_texts(found@) + lines(line@ + chars@.skip(0)) == lines(chars@));
    while i < chars.len()
        invariant
            chars@ == text@,
            i <= chars@.len(),
            free_of(line@, '\n'),
            char_texts(found@) + lines(line@ + chars@.skip(i as int)) == lines(chars@),
        decreases chars@.len() - i,
    {
        let c = chars[i];
        let ghost before = found@;
        let ghost head = line@;
        let ghost rest = chars@.skip(i + 1);
        assert(head + chars@.skip(i as int) == head.push(c) + rest);
        if c == '\n' {
            proof {
                lemma_lines_step(head, rest);
            }
            if line.len() > 0 && line[line.len() - 1] == '\r' {
                let _ = line.pop();
            }
            assert(line@ == chop(head));
            found.push(line);
            line = Vec::new();
            assert(char_texts(found@) == char_texts(before).push(chop(head)));
            assert(line@ + rest == rest);
            assert(char_texts(before) + (seq![chop(head)] + lines(rest)) == char_texts(found@)
                + lines(rest));
        } else {
            line.push(c);
        }
        i = i + 1;
    }
    assert(line@ + chars@.skip(i as int) == line@);
    proof {
        lemma_line_len(line@, seq![]);
        assert(line@ + Seq::<char>::empty() == line@);
    }
    if line.len() > 0 {
        let ghost before = found@;
        let ghost head = line@;
        found.push(line);
        assert(char_texts(found@) == char_texts(before).push(head));
        assert(char_texts(found@) == char_texts(before) + lines(head));
    } else {
        assert(char_texts(found@) + lines(line@) == char_texts(found@));
    }
    found
}

/// `text` from its first character on that is not white space.
pub open spec fn trim_start(text: Seq<char>) -> Seq<char>
    decreases text.len(),
{
    if text.len() > 0 && is_white(text[0]) {
        trim_start(text.drop_first())
    } else {
        text
    }
}

/// `text` up to its last character that is not white space.
pub open spec fn trim_end(text: Seq<char>) -> Seq<char>
    decreases text.len(),
{
    if text.len() > 0 && is_white(text.last()) {
        trim_end(text.drop_last())
    } else {
        text
    }
}

/// `text` without the white space around it.
pub open spec fn trim(text: Seq<char>) -> Seq<char> {
    trim_end(trim_start(text))
}

/// The characters of `text` before its first white space.
pub open spec fn word(text: Seq<char>) -> Seq<char>
    decreases text.len(),
{
    if text.len() == 0 || is_white(text[0]) {
        seq![]
    } else {
        seq![text[0]] + word(text.drop_first())
    }
}

/// Where `trim_start` begins.
pub fn start_of_text(chars: &Vec<char>, from: usize, to: usize) -> (start: usize)
    requires
        from <= to <= chars@.len(),
    ensures
        from <= start <= to,
        chars@.subrange(start as int, to as int) == trim_start(
            chars@.subrange(from as int, to as int),
        ),
        start < to ==> !is_white(chars@[start as int]),
{
    let mut start: usize = from;
    while start < to && is_whitespace(chars[start])
        invariant
            from <= start <= to <= chars@.len(),
            trim_start(chars@.subrange(start as int, to as int)) == trim_start(
                chars@.subrange(from as int, to as int),
            ),
        decreases to - start,
    {
        assert(chars@.subrange(start as int, to as int).drop_first() == chars@.subrange(
            start + 1,
            to as int,
        ));
        start = start + 1;
    }
    start
}

/// Where `trim_end` stops.
pub fn end_of_text(chars: &Vec<char>, from: usize, to: usize) -> (end: usize)
    requires
        from <= to <= chars@.len(),
    ensures
        from <= end <= to,
        chars@.subrange(from as int, end as int) == trim_end(
            chars@.subrange(from as int, to as int),
        ),
{
    let mut end: usize = to;
    while end > from && is_whitespace(chars[end - 1])
        invariant
            from <= end <= to <= chars@.len(),
            trim_end(chars@.subrange(from as int, end as int)) == trim_end(
                chars@.subrange(from as int, to as int),
            ),
        decreases end,
    {
        assert(chars@.subrange(from as int, end as int).drop_last() == chars@.subrange(
            from as int,
            end - 1,
        ));
        end = end - 1;
    }
    end
}

/// Where the word that begins at `from` stops.
pub fn end_of_word(chars: &Vec<char>, from: usize) -> (end: usize)
    requires
        from <= chars@.len(),
    ensures
        from <= end <= chars@.len(),
        chars@.subrange(from as int, end as int) == word(chars@.skip(from as int)),
{
    let mut end: usize = from;
    assert(chars@.subrange(from as int, end as int) == Seq::<char>::empty());
    while end < chars.len() && !is_whitespace(chars[end])
        invariant
            from <= end <= chars@.len(),
            chars@.subrange(from as int, end as int) + word(chars@.skip(end as int)) == word(
                chars@.skip(from as int),
            ),
        decreases chars@.len() - end,
    {
        let ghost rest = chars@.skip(end as int);
        assert(rest.drop_first() == chars@.skip(end + 1));
        assert(chars@.subrange(from as int, end + 1) == chars@.subrange(
            from as int,
            end as int,
        ).push(rest[0]));
        assert(chars@.subrange(from as int, end as int) + (seq![rest[0]] + word(rest.drop_first()))
            == chars@.subrange(from as int, end + 1) + word(chars@.skip(end + 1)));
        end = end + 1;
    }
    assert(chars@.subrange(from as int, end as int) + Seq::<char>::empty() == chars@.subrange(
        from as int,
        end as int,
    ));
    end
}

/// `text` without the white space around it.
pub fn trimmed(text: &str) -> (rest: String)
    ensures
        rest@ == trim(text@),
{
    let chars = to_chars(text);
    assert(chars@.subrange(0, chars@.len() as int) == chars@);
    let start = start_of_text(&chars, 0, chars.len());
    let end = end_of_text(&chars, start, chars.len());
    to_text(&chars, start, end)
}

} // verus!
