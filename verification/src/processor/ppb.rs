//! Pretty-printing of brace expressions: one alternative per line, each
//! indented to the column of the brace that opened its group.

use vstd::prelude::*;
use crate::text::{chars_of, join, join_texts, push_all, rows, slice_of, texts_of_all};

verus! {

/// The character that starts an ANSI escape sequence.
pub open spec fn escape() -> char {
    '\u{1b}'
}

/// Whether `c` is an ASCII letter, which ends an escape sequence.
pub open spec fn is_letter(c: char) -> bool {
    ('a' as int <= c as int && c as int <= 'z' as int) || ('A' as int <= c as int && c as int
        <= 'Z' as int)
}

/// Whether `c` is white space in the sense of Unicode.
pub open spec fn is_space(c: char) -> bool {
    let n = c as int;
    (0x09 <= n <= 0x0d) || n == 0x20 || n == 0x85 || n == 0xa0 || n == 0x1680 || (0x2000 <= n
        <= 0x200a) || n == 0x2028 || n == 0x2029 || n == 0x202f || n == 0x205f || n == 0x3000
}

/// The number of bytes that `c` takes in UTF-8.
pub open spec fn utf8_width(c: char) -> nat {
    let n = c as int;
    if n < 0x80 {
        1
    } else if n < 0x800 {
        2
    } else if n < 0x10000 {
        3
    } else {
        4
    }
}

/// `n` spaces.
pub open spec fn spaces(n: nat) -> Seq<char> {
    Seq::new(n, |i: int| ' ')
}

/// The position after the first letter at or after `j`; the end where there
/// is none.
pub open spec fn after_letter(s: Seq<char>, j: int) -> int
    decreases s.len() - j,
{
    if j < 0 || j >= s.len() {
        s.len() as int
    } else if is_letter(s[j]) {
        j + 1
    } else {
        after_letter(s, j + 1)
    }
}

/// Where reading goes on after the escape character at `i`: after the
/// letter that ends the sequence where `[` follows, else after the one
/// character that follows.
pub open spec fn escape_end(s: Seq<char>, i: int) -> int {
    let end = if i + 1 < s.len() && s[i + 1] == '[' {
        after_letter(s, i + 2)
    } else {
        i + 2
    };
    if i < end <= s.len() {
        end
    } else {
        s.len() as int
    }
}

/// The number of characters of `s[i..]` that show: those outside escape
/// sequences.
pub open spec fn visible_from(s: Seq<char>, i: int) -> nat
    decreases s.len() - i,
{
    if i < 0 || i >= s.len() {
        0
    } else if s[i] == escape() {
        visible_from(s, escape_end(s, i))
    } else {
        1 + visible_from(s, i + 1)
    }
}

/// Whether `s[i..]` holds, outside escape sequences, a character that is
/// not white space.
pub open spec fn shows_from(s: Seq<char>, i: int) -> bool
    decreases s.len() - i,
{
    if i < 0 || i >= s.len() {
        false
    } else if s[i] == escape() {
        shows_from(s, escape_end(s, i))
    } else if !is_space(s[i]) {
        true
    } else {
        shows_from(s, i + 1)
    }
}

/// The length of `line` without the white space at its end.
pub open spec fn trimmed_len(line: Seq<char>) -> nat
    decreases line.len(),
{
    if line.len() > 0 && is_space(line.last()) {
        trimmed_len(line.drop_last())
    } else {
        line.len()
    }
}

/// As many spaces as the characters `s[from..]` take bytes in UTF-8.
pub open spec fn padding(s: Seq<char>, from: int) -> Seq<char>
    decreases s.len() - from,
{
    if from < 0 || from >= s.len() {
        Seq::empty()
    } else {
        spaces(utf8_width(s[from])) + padding(s, from + 1)
    }
}

/// `line` with the comma that ends its text removed; the white space after
/// it becomes as many spaces as it took bytes.
pub open spec fn without_last_comma(line: Seq<char>) -> Seq<char> {
    let n = trimmed_len(line) as int;
    if n > 0 && line[n - 1] == ',' {
        line.subrange(0, n - 1) + padding(line, n)
    } else {
        line
    }
}

/// The state of the printer: the finished lines, the columns of the braces
/// that are open, and the line being written.
pub struct Layout {
    pub lines: Seq<Seq<char>>,
    pub stack: Seq<usize>,
    pub line: Seq<char>,
}

/// The indentation of a new line: to the column of the innermost open
/// brace.
pub open spec fn indent(stack: Seq<usize>) -> Seq<char> {
    if stack.len() > 0 {
        spaces(stack.last() as nat)
    } else {
        Seq::empty()
    }
}

/// The line that holds a closing brace, one column left of the group's
/// content.
pub open spec fn closing_line(stack: Seq<usize>) -> Seq<char> {
    if stack.len() > 0 && stack.last() > 0 {
        spaces((stack.last() - 1) as nat).push('}')
    } else {
        seq!['}']
    }
}

/// The state after one character outside escape sequences.
pub open spec fn advance(st: Layout, c: char) -> Layout {
    if c == '{' {
        let line = st.line.push('{');
        let column = visible_from(line, 0) as usize;
        Layout { lines: st.lines.push(line), stack: st.stack.push(column), line: spaces(column as nat) }
    } else if c == '}' {
        let kept = if shows_from(st.line, 0) {
            st.lines.push(without_last_comma(st.line))
        } else {
            st.lines
        };
        let stack = if st.stack.len() > 0 {
            st.stack.drop_last()
        } else {
            st.stack
        };
        Layout { lines: kept.push(closing_line(st.stack)), stack, line: indent(stack) }
    } else if c == ',' {
        Layout { lines: st.lines.push(st.line.push(',')), stack: st.stack, line: indent(st.stack) }
    } else {
        Layout { line: st.line.push(c), ..st }
    }
}

/// Whether a whole escape sequence starts at `i`.
pub open spec fn sequence_at(s: Seq<char>, i: int) -> bool {
    0 <= i && i + 1 < s.len() && s[i] == escape() && s[i + 1] == '['
}

/// The state after reading `s[i..]`. An escape sequence is copied to the
/// line as it is.
pub open spec fn layout_from(s: Seq<char>, i: int, st: Layout) -> Layout
    decreases s.len() - i,
{
    if i < 0 || i >= s.len() {
        st
    } else if sequence_at(s, i) {
        let end = escape_end(s, i);
        layout_from(s, end, Layout { line: st.line + s.subrange(i, end), ..st })
    } else {
        layout_from(s, i + 1, advance(st, s[i]))
    }
}

/// The lines of the pretty-printed expression.
pub open spec fn pretty_lines(s: Seq<char>) -> Seq<Seq<char>> {
    let st = layout_from(
        s,
        0,
        Layout { lines: Seq::empty(), stack: Seq::empty(), line: Seq::empty() },
    );
    if shows_from(st.line, 0) {
        st.lines.push(st.line)
    } else {
        st.lines
    }
}

/// The pretty-printed expression: its lines joined by line feeds.
pub open spec fn pretty(s: Seq<char>) -> Seq<char> {
    join(pretty_lines(s), seq!['\n'])
}

/// Tells whether a character is an ASCII letter.
pub fn letter(c: char) -> (r: bool)
    ensures
        r == is_letter(c),
{
    ('a' <= c && c <= 'z') || ('A' <= c && c <= 'Z')
}

/// Tells whether a character is white space in the sense of Unicode.
pub fn space(c: char) -> (r: bool)
    ensures
        r == is_space(c),
{
    ('\u{9}' <= c && c <= '\u{d}') || c == ' ' || c == '\u{85}' || c == '\u{a0}' || c
        == '\u{1680}' || ('\u{2000}' <= c && c <= '\u{200a}') || c == '\u{2028}' || c
        == '\u{2029}' || c == '\u{202f}' || c == '\u{205f}' || c == '\u{3000}'
}

/// The number of bytes that a character takes in UTF-8.
pub fn width_of(c: char) -> (r: usize)
    ensures
        r == utf8_width(c),
{
    let n: u32 = c as u32;
    if n < 128 {
        1
    } else if n < 2048 {
        2
    } else if n < 65536 {
        3
    } else {
        4
    }
}

/// Appends `n` spaces to `out`.
pub fn push_spaces(out: &mut Vec<char>, n: usize)
    ensures
        final(out)@ == old(out)@ + spaces(n as nat),
{
    let mut k: usize = 0;
    while k < n
        invariant
            k <= n,
            out@ == old(out)@ + spaces(k as nat),
        decreases n - k,
    {
        out.push(' ');
        k += 1;
        assert(out@ =~= old(out)@ + spaces(k as nat));
    }
}

/// Where reading goes on after the escape character at `i`.
pub fn skip_escape(s: &Vec<char>, i: usize) -> (end: usize)
    requires
        i < s.len(),
    ensures
        end == escape_end(s@, i as int),
        i < end <= s.len(),
{
    if i + 1 < s.len() && s[i + 1] == '[' {
        let mut j: usize = i + 2;
        while j < s.len()
            invariant
                i + 2 <= j <= s.len(),
                s[i + 1] == '[',
                after_letter(s@, i + 2) == after_letter(s@, j as int),
            decreases s.len() - j,
        {
            if letter(s[j]) {
                return j + 1;
            }
            j += 1;
        }
        j
    } else if s.len() - i >= 2 {
        i + 2
    } else {
        s.len()
    }
}

/// Counts the characters that show: those outside escape sequences.
pub fn visible_len(s: &Vec<char>) -> (n: usize)
    ensures
        n == visible_from(s@, 0),
        n <= s.len(),
{
    let mut count: usize = 0;
    let mut i: usize = 0;
    while i < s.len()
        invariant
            i <= s.len(),
            count <= i,
            visible_from(s@, 0) == count + visible_from(s@, i as int),
        decreases s.len() - i,
    {
        if s[i] == '\u{1b}' {
            i = skip_escape(s, i);
        } else {
            count += 1;
            i += 1;
        }
    }
    count
}

/// Tells whether a line holds, outside escape sequences, a character that
/// is not white space.
pub fn has_visible_content(s: &Vec<char>) -> (r: bool)
    ensures
        r == shows_from(s@, 0),
{
    let mut i: usize = 0;
    while i < s.len()
        invariant
            i <= s.len(),
            shows_from(s@, 0) == shows_from(s@, i as int),
        decreases s.len() - i,
    {
        if s[i] == '\u{1b}' {
            i = skip_escape(s, i);
        } else if !space(s[i]) {
            return true;
        } else {
            i += 1;
        }
    }
    false
}

/// Removes the comma that ends the text of a line.
pub fn drop_last_comma(line: &Vec<char>) -> (r: Vec<char>)
    ensures
        r@ == without_last_comma(line@),
{
    let mut n: usize = line.len();
    proof {
        assert(line@.subrange(0, n as int) =~= line@);
    }
    while n > 0 && space(line[n - 1])
        invariant
            n <= line.len(),
            trimmed_len(line@) == trimmed_len(line@.subrange(0, n as int)),
        decreases n,
    {
        proof {
            let part = line@.subrange(0, n as int);
            assert(part.last() == line[n - 1]);
            assert(part.drop_last() =~= line@.subrange(0, n - 1));
        }
        n -= 1;
    }
    proof {
        let part = line@.subrange(0, n as int);
        if n > 0 {
            assert(part.last() == line[n - 1]);
        }
        assert(trimmed_len(line@) == n);
    }
    if n > 0 && line[n - 1] == ',' {
        let mut r = slice_of(line, 0, n - 1);
        let mut k: usize = line.len();
        let ghost head = r@;
        let mut tail: Vec<char> = Vec::new();
        // collect the padding from the end towards the comma
        while k > n
            invariant
                n <= k <= line.len(),
                tail@ == padding(line@, k as int),
            decreases k,
        {
            k -= 1;
            let mut piece: Vec<char> = Vec::new();
            push_spaces(&mut piece, width_of(line[k]));
            push_all(&mut piece, &tail);
            assert(piece@ =~= spaces(utf8_width(line[k as int])) + padding(line@, k + 1));
            tail = piece;
        }
        push_all(&mut r, &tail);
        r
    } else {
        let whole = slice_of(line, 0, line.len());
        assert(line@.subrange(0, line.len() as int) =~= line@);
        whole
    }
}

/// The indentation of a new line.
pub fn indent_line(stack: &Vec<usize>) -> (r: Vec<char>)
    ensures
        r@ == indent(stack@),
{
    let mut r: Vec<char> = Vec::new();
    if stack.len() > 0 {
        push_spaces(&mut r, stack[stack.len() - 1]);
        assert(r@ =~= spaces(stack@.last() as nat));
    }
    r
}

/// Pretty-prints a brace expression such as `a/{b,c/{d,e},f}`: every brace
/// and comma ends a line, and what follows is indented to the column of
/// the brace that opened the group.
pub fn pretty_braces(expr: &str) -> (r: String)
    ensures
        r@ == pretty(expr@),
{
    let chars = chars_of(expr);
    let mut lines: Vec<Vec<char>> = Vec::new();
    let mut stack: Vec<usize> = Vec::new();
    let mut line: Vec<char> = Vec::new();
    let mut i: usize = 0;
    let ghost start = Layout { lines: Seq::empty(), stack: Seq::empty(), line: Seq::empty() };
    assert(rows(lines@) =~= Seq::empty());
    while i < chars.len()
        invariant
            i <= chars.len(),
            layout_from(chars@, 0, start) == layout_from(
                chars@,
                i as int,
                Layout { lines: rows(lines@), stack: stack@, line: line@ },
            ),
        decreases chars.len() - i,
    {
        let c = chars[i];
        if c == '\u{1b}' && i + 1 < chars.len() && chars[i + 1] == '[' {
            let end = skip_escape(&chars, i);
            let copied = slice_of(&chars, i, end);
            push_all(&mut line, &copied);
            i = end;
        } else if c == '{' {
            line.push(c);
            let column = visible_len(&line);
            let whole = slice_of(&line, 0, line.len());
            proof {
                assert(line@.subrange(0, line.len() as int) =~= line@);
                assert(rows(lines@.push(whole)) =~= rows(lines@).push(line@));
            }
            lines.push(whole);
            stack.push(column);
            line = Vec::new();
            push_spaces(&mut line, column);
            assert(line@ =~= spaces(column as nat));
            i += 1;
        } else if c == '}' {
            if has_visible_content(&line) {
                let kept = drop_last_comma(&line);
                assert(rows(lines@.push(kept)) =~= rows(lines@).push(kept@));
                lines.push(kept);
            }
            let mut closing: Vec<char> = Vec::new();
            if stack.len() > 0 && stack[stack.len() - 1] > 0 {
                push_spaces(&mut closing, stack[stack.len() - 1] - 1);
            }
            closing.push('}');
            proof {
                assert(closing@ =~= closing_line(stack@));
                assert(rows(lines@.push(closing)) =~= rows(lines@).push(closing@));
            }
            lines.push(closing);
            if stack.len() > 0 {
                stack.pop();
            }
            line = indent_line(&stack);
            i += 1;
        } else if c == ',' {
            line.push(c);
            proof {
                assert(rows(lines@.push(line)) =~= rows(lines@).push(line@));
            }
            lines.push(line);
            line = indent_line(&stack);
            i += 1;
        } else {
            line.push(c);
            i += 1;
        }
    }
    if has_visible_content(&line) {
        proof {
            assert(rows(lines@.push(line)) =~= rows(lines@).push(line@));
        }
        lines.push(line);
    }
    let plain = texts_of_all(&lines);
    proof {
        reveal_strlit("\n");
        assert("\n"@ =~= seq!['\n']);
    }
    join_texts(plain.as_slice(), "\n")
}

} // verus!
