//! Text for a terminal: colours, and numbers written out in digits.

use vstd::prelude::*;
use vstd::slice::slice_subrange;
use vstd::std_specs::iter::IteratorSpec;
use vstd::string::StringExecFns;

verus! {

/// The character of the digit `d` in base 16 or below, upper case.
pub open spec fn digit_char(d: nat) -> char {
    if d < 10 {
        ((48 + d) as u8) as char
    } else {
        ((55 + d) as u8) as char
    }
}

/// `n` written in decimal digits.
pub open spec fn decimal(n: nat) -> Seq<char>
    decreases n,
{
    if n < 10 {
        seq![digit_char(n)]
    } else {
        decimal(n / 10).push(digit_char(n % 10))
    }
}

/// `n` written in decimal digits, with a minus sign where it is negative.
pub open spec fn signed_decimal(n: int) -> Seq<char> {
    if n < 0 {
        seq!['-'] + decimal((-n) as nat)
    } else {
        decimal(n as nat)
    }
}

/// The escape sequence that ends every style.
pub open spec fn reset() -> Seq<char> {
    seq!['\x1b', '[', 'm']
}

/// `text` in the foreground colour `color`.
pub open spec fn foreground_text(color: u8, text: Seq<char>) -> Seq<char> {
    seq!['\x1b', '[', '3'] + decimal(color as nat) + seq!['m'] + text + reset()
}

/// `text` in bold.
pub open spec fn bold_text(text: Seq<char>) -> Seq<char> {
    seq!['\x1b', '[', '1', 'm'] + text + reset()
}

/// `text` dimmed.
pub open spec fn dim_text(text: Seq<char>) -> Seq<char> {
    seq!['\x1b', '[', '2', 'm'] + text + reset()
}

/// The one-character string of a digit.
fn digit_str(d: u8) -> (s: &'static str)
    requires
        d < 16,
    ensures
        s@ == seq![digit_char(d as nat)],
{
    let s = match d {
        0 => "0",
        1 => "1",
        2 => "2",
        3 => "3",
        4 => "4",
        5 => "5",
        6 => "6",
        7 => "7",
        8 => "8",
        9 => "9",
        10 => "A",
        11 => "B",
        12 => "C",
        13 => "D",
        14 => "E",
        _ => "F",
    };
    proof {
        reveal_strlit("0");
        reveal_strlit("1");
        reveal_strlit("2");
        reveal_strlit("3");
        reveal_strlit("4");
        reveal_strlit("5");
        reveal_strlit("6");
        reveal_strlit("7");
        reveal_strlit("8");
        reveal_strlit("9");
        reveal_strlit("A");
        reveal_strlit("B");
        reveal_strlit("C");
        reveal_strlit("D");
        reveal_strlit("E");
        reveal_strlit("F");
        assert(s@ =~= seq![digit_char(d as nat)]);
    }
    s
}

/// Appends one hexadecimal digit, upper case.
pub(crate) fn push_hex_digit(out: &mut String, d: u8)
    requires
        d < 16,
    ensures
        final(out)@ == old(out)@ + seq![digit_char(d as nat)],
{
    out.append(digit_str(d));
}

/// Appends `n` in decimal digits.
pub fn push_decimal(out: &mut String, n: u64)
    ensures
        final(out)@ == old(out)@ + decimal(n as nat),
    decreases n,
{
    if n >= 10 {
        push_decimal(out, n / 10);
    }
    out.append(digit_str((n % 10) as u8));
    proof {
        if n >= 10 {
            assert(final(out)@ =~= old(out)@ + decimal((n / 10) as nat).push(
                digit_char((n % 10) as nat),
            ));
        }
    }
}

/// Appends `n` in decimal digits, with a minus sign where it is negative.
pub fn push_signed_decimal(out: &mut String, n: i64)
    ensures
        final(out)@ == old(out)@ + signed_decimal(n as int),
{
    if n < 0 {
        proof {
            reveal_strlit("-");
        }
        out.append("-");
        let magnitude: u64 = if n == i64::MIN {
            0x8000_0000_0000_0000
        } else {
            (-n) as u64
        };
        push_decimal(out, magnitude);
        assert(out@ =~= old(out)@ + (seq!['-'] + decimal((-n) as nat)));
    } else {
        push_decimal(out, n as u64);
    }
}

/// Wraps `text` in the escape sequences of the foreground colour `color`.
pub fn foreground(color: u8, text: &str) -> (out: String)
    ensures
        out@ == foreground_text(color, text@),
{
    proof {
        reveal_strlit("\x1b[3");
        reveal_strlit("m");
        reveal_strlit("\x1b[m");
    }
    let mut out = String::from_str("\x1b[3");
    assert(out@ =~= seq!['\x1b', '[', '3']);
    push_decimal(&mut out, color as u64);
    out.append("m");
    out.append(text);
    out.append("\x1b[m");
    assert(out@ =~= foreground_text(color, text@));
    out
}

/// Wraps `text` in the escape sequences of bold type.
pub fn bold(text: &str) -> (out: String)
    ensures
        out@ == bold_text(text@),
{
    proof {
        reveal_strlit("\x1b[1m");
        reveal_strlit("\x1b[m");
    }
    let mut out = String::from_str("\x1b[1m");
    out.append(text);
    out.append("\x1b[m");
    assert(out@ =~= bold_text(text@));
    out
}

/// Wraps `text` in the escape sequences of dimmed type.
pub fn dim(text: &str) -> (out: String)
    ensures
        out@ == dim_text(text@),
{
    proof {
        reveal_strlit("\x1b[2m");
        reveal_strlit("\x1b[m");
    }
    let mut out = String::from_str("\x1b[2m");
    out.append(text);
    out.append("\x1b[m");
    assert(out@ =~= dim_text(text@));
    out
}

/// Wraps `text` in the foreground colour `color` and in bold type.
pub fn foreground_bold(color: u8, text: &str) -> (out: String)
    ensures
        out@ == bold_text(foreground_text(color, text@)),
{
    let colored = foreground(color, text);
    bold(colored.as_str())
}

/// A function that wraps text in the foreground colour `color`.
pub fn foreground_color(color: u8) -> (paint: impl Fn(&str) -> String)
    ensures
        forall|text: &str| paint.requires((text,)),
        forall|text: &str, out: String|
            paint.ensures((text,), out) ==> out@ == foreground_text(color, text@),
{
    move |text: &str| -> (out: String)
        ensures
            out@ == foreground_text(color, text@),
        { foreground(color, text) }
}

/// `String::push` of std: the string grows by the one character `c` at
/// its end.
#[verifier::external_body]
pub(crate) fn push_char(out: &mut String, c: char)
    ensures
        final(out)@ == old(out)@.push(c),
{
    out.push(c);
}

/// The characters of `text`, one by one.
pub(crate) fn chars_of(text: &str) -> (chars: Vec<char>)
    ensures
        chars@ == text@,
{
    let mut chars: Vec<char> = Vec::new();
    let mut rest = text.chars();
    loop
        invariant
            chars@ + rest.remaining() == text@,
            rest.decrease() is Some,
        decreases rest.decrease()->0,
    {
        let ghost before = rest.remaining();
        match rest.next() {
            Some(c) => {
                chars.push(c);
                assert(chars@ + rest.remaining() =~= text@) by {
                    assert(before =~= seq![c] + before.drop_first());
                }
            },
            None => {
                assert(chars@ =~= text@);
                return chars;
            },
        }
    }
}

/// The offset of the first line feed of `text`; its length where it has
/// none.
pub open spec fn line_end(text: Seq<char>) -> int
    decreases text.len(),
{
    if text.len() == 0 || text[0] == '\n' {
        0
    } else {
        1 + line_end(text.drop_first())
    }
}

/// The first line of `text`, without its line ending: a line feed, or a
/// carriage return and a line feed.
pub open spec fn first_line(text: Seq<char>) -> Seq<char> {
    let end = line_end(text);
    if 0 < end < text.len() && text[end - 1] == '\r' {
        text.take(end - 1)
    } else {
        text.take(end)
    }
}

/// What follows the first line of `text` and its line ending.
pub open spec fn after_first_line(text: Seq<char>) -> Seq<char> {
    let end = line_end(text);
    if end < text.len() {
        text.skip(end + 1)
    } else {
        Seq::empty()
    }
}

/// `text` with `indent` in front of every line that is not empty. The
/// lines are joined by line feeds; a final line ending is dropped.
pub open spec fn indent_text(text: Seq<char>, indent: Seq<char>) -> Seq<char>
    decreases text.len(),
{
    if text.len() == 0 {
        Seq::empty()
    } else {
        let line = first_line(text);
        let shown = if line.len() == 0 {
            line
        } else {
            indent + line
        };
        let rest = after_first_line(text);
        if rest.len() == 0 {
            shown
        } else {
            proof {
                lemma_line_end_bounds(text);
            }
            shown + seq!['\n'] + indent_text(rest, indent)
        }
    }
}

/// The indentation that is used where none is given: four spaces.
pub open spec fn default_indent() -> Seq<char> {
    seq![' ', ' ', ' ', ' ']
}

/// The first line feed of a text lies inside it, and nothing in front
/// of it is a line feed.
pub proof fn lemma_line_end_bounds(text: Seq<char>)
    ensures
        0 <= line_end(text) <= text.len(),
        line_end(text) < text.len() ==> text[line_end(text)] == '\n',
        forall|i: int| 0 <= i < line_end(text) ==> text[i] != '\n',
    decreases text.len(),
{
    if text.len() == 0 || text[0] == '\n' {
    } else {
        lemma_line_end_bounds(text.drop_first());
        assert forall|i: int| 0 <= i < line_end(text) implies text[i] != '\n' by {
            if i > 0 {
                assert(text[i] == text.drop_first()[i - 1]);
            }
        }
    }
}

/// A line feed with none in front of it, or the end of a text without
/// one, is where the first line ends.
pub proof fn lemma_line_end_is(text: Seq<char>, end: int)
    requires
        0 <= end <= text.len(),
        forall|i: int| 0 <= i < end ==> text[i] != '\n',
        end == text.len() || text[end] == '\n',
    ensures
        line_end(text) == end,
    decreases end,
{
    if end > 0 {
        let tail = text.drop_first();
        assert forall|i: int| 0 <= i < end - 1 implies tail[i] != '\n' by {
            assert(tail[i] == text[i + 1]);
        }
        lemma_line_end_is(tail, end - 1);
    }
}

/// Puts `indent_str`, or four spaces where none is given, in front of
/// every line of `text` that is not empty.
pub fn indent(text: &str, indent_str: Option<&str>) -> (out: String)
    ensures
        out@ == indent_text(
            text@,
            match indent_str {
                Some(given) => given@,
                None => default_indent(),
            },
        ),
{
    proof {
        reveal_strlit("    ");
    }
    let prefix: &str = match indent_str {
        Some(given) => given,
        None => "    ",
    };
    let ghost margin = prefix@;
    assert(margin =~= match indent_str {
        Some(given) => given@,
        None => default_indent(),
    });
    let chars = chars_of(text);
    let n = chars.len();
    let mut out = String::new();
    let mut start: usize = 0;
    assert(chars@.skip(0) =~= chars@);
    assert(out@ + indent_text(chars@, margin) =~= indent_text(chars@, margin));
    while start < n
        invariant
            n == chars@.len(),
            start <= n,
            margin == prefix@,
            indent_text(chars@, margin) == out@ + indent_text(chars@.skip(start as int), margin),
        decreases n - start,
    {
        let ghost rest = chars@.skip(start as int);
        let ghost so_far = out@;
        let mut end: usize = start;
        while end < n && chars[end] != '\n'
            invariant
                n == chars@.len(),
                start <= end <= n,
                forall|i: int| start <= i < end ==> chars@[i] != '\n',
            decreases n - end,
        {
            end = end + 1;
        }
        proof {
            assert forall|i: int| 0 <= i < end - start implies rest[i] != '\n' by {
                assert(rest[i] == chars@[start + i]);
            }
            lemma_line_end_is(rest, end - start);
        }
        let stop: usize = if end < n && end > start && chars[end - 1] == '\r' {
            end - 1
        } else {
            end
        };
        assert(first_line(rest) =~= chars@.subrange(start as int, stop as int));
        if stop > start {
            out.append(prefix);
            let mut i: usize = start;
            while i < stop
                invariant
                    start <= i <= stop <= n,
                    n == chars@.len(),
                    out@ == so_far + margin + chars@.subrange(start as int, i as int),
                decreases stop - i,
            {
                push_char(&mut out, chars[i]);
                assert(chars@.subrange(start as int, i + 1) =~= chars@.subrange(
                    start as int,
                    i as int,
                ).push(chars@[i as int]));
                i = i + 1;
            }
        }
        let next: usize = if end < n {
            end + 1
        } else {
            n
        };
        assert(after_first_line(rest) =~= chars@.skip(next as int));
        if next < n {
            push_char(&mut out, '\n');
        }
        proof {
            let line = first_line(rest);
            let shown = if line.len() == 0 {
                line
            } else {
                margin + line
            };
            let after = after_first_line(rest);
            if after.len() == 0 {
                assert(out@ =~= so_far + shown);
                assert(indent_text(after, margin) =~= Seq::<char>::empty());
                assert(out@ + indent_text(after, margin) =~= so_far + indent_text(rest, margin));
            } else {
                assert(out@ =~= so_far + (shown + seq!['\n']));
                assert(out@ + indent_text(after, margin) =~= so_far + indent_text(rest, margin));
            }
        }
        start = next;
    }
    assert(indent_text(chars@.skip(n as int), margin) =~= Seq::<char>::empty());
    assert(out@ =~= indent_text(chars@, margin));
    out
}

/// The number of bytes that one line of a hex dump shows.
pub const BYTES_PER_LINE: usize = 24;

/// The character of the digit `d` in base 16, lower case.
pub open spec fn lower_digit_char(d: nat) -> char {
    if d < 10 {
        ((48 + d) as u8) as char
    } else {
        ((87 + d) as u8) as char
    }
}

/// `n` written in hexadecimal digits, lower case.
pub open spec fn lower_hex(n: nat) -> Seq<char>
    decreases n,
{
    if n < 16 {
        seq![lower_digit_char(n)]
    } else {
        lower_hex(n / 16).push(lower_digit_char(n % 16))
    }
}

/// `count` times the character `c`.
pub open spec fn repeated(c: char, count: nat) -> Seq<char> {
    Seq::new(count, |i: int| c)
}

/// `n` in hexadecimal digits, with zeros in front up to four digits.
pub open spec fn offset_text(n: nat) -> Seq<char> {
    let digits = lower_hex(n);
    if digits.len() < 4 {
        repeated('0', (4 - digits.len()) as nat) + digits
    } else {
        digits
    }
}

/// The two hexadecimal digits of `b`, upper case.
pub open spec fn hex_byte(b: u8) -> Seq<char> {
    seq![digit_char((b / 16) as nat), digit_char((b % 16) as nat)]
}

/// The bytes of `chunk` in two hexadecimal digits each, with one space
/// between two bytes.
pub open spec fn hex_bytes(chunk: Seq<u8>) -> Seq<char>
    decreases chunk.len(),
{
    if chunk.len() == 0 {
        Seq::empty()
    } else if chunk.len() == 1 {
        hex_byte(chunk[0])
    } else {
        hex_bytes(chunk.drop_last()) + seq![' '] + hex_byte(chunk.last())
    }
}

/// The character that stands for `b` in the text column: itself where it
/// is printable ASCII, and a dot else.
pub open spec fn printable_char(b: u8) -> char {
    if 0x20 <= b < 0x7F {
        b as char
    } else {
        '.'
    }
}

/// The text column of a line.
pub open spec fn printable_text(chunk: Seq<u8>) -> Seq<char> {
    Seq::new(chunk.len(), |i: int| printable_char(chunk[i]))
}

/// One line of a hex dump: the offset, the bytes in hexadecimal, padded
/// to the width of a full line, and the bytes as text.
pub open spec fn hex_line(offset: nat, chunk: Seq<u8>) -> Seq<char> {
    offset_text(offset) + repeated(' ', 3) + hex_bytes(chunk) + repeated(
        ' ',
        (3 * (BYTES_PER_LINE - chunk.len())) as nat,
    ) + repeated(' ', 2) + printable_text(chunk)
}

/// The hex dump of `data`, whose first byte has the offset `offset`:
/// one line for every 24 bytes, joined by line feeds.
pub open spec fn hex_dump_text(data: Seq<u8>, offset: nat) -> Seq<char>
    decreases data.len(),
{
    if data.len() == 0 {
        Seq::empty()
    } else if data.len() <= BYTES_PER_LINE {
        hex_line(offset, data)
    } else {
        hex_line(offset, data.take(BYTES_PER_LINE as int)) + seq!['\n'] + hex_dump_text(
            data.skip(BYTES_PER_LINE as int),
            offset + BYTES_PER_LINE as nat,
        )
    }
}

/// The one-character string of a hexadecimal digit, lower case.
fn lower_digit_str(d: u8) -> (s: &'static str)
    requires
        d < 16,
    ensures
        s@ == seq![lower_digit_char(d as nat)],
{
    if d < 10 {
        digit_str(d)
    } else {
        let s = match d {
            10 => "a",
            11 => "b",
            12 => "c",
            13 => "d",
            14 => "e",
            _ => "f",
        };
        proof {
            reveal_strlit("a");
            reveal_strlit("b");
            reveal_strlit("c");
            reveal_strlit("d");
            reveal_strlit("e");
            reveal_strlit("f");
            assert(s@ =~= seq![lower_digit_char(d as nat)]);
        }
        s
    }
}

/// Appends `n` in hexadecimal digits, lower case.
fn push_lower_hex(out: &mut String, n: usize)
    ensures
        final(out)@ == old(out)@ + lower_hex(n as nat),
    decreases n,
{
    if n >= 16 {
        push_lower_hex(out, n / 16);
    }
    out.append(lower_digit_str((n % 16) as u8));
    proof {
        if n >= 16 {
            assert(final(out)@ =~= old(out)@ + lower_hex((n / 16) as nat).push(
                lower_digit_char((n % 16) as nat),
            ));
        }
    }
}

/// Appends `n` in hexadecimal digits, lower case, four at the least.
fn push_offset(out: &mut String, n: usize)
    ensures
        final(out)@ == old(out)@ + offset_text(n as nat),
{
    proof {
        reveal_with_fuel(lower_hex, 5);
        reveal_strlit("000");
        reveal_strlit("00");
        reveal_strlit("0");
    }
    if n < 16 {
        out.append("000");
        assert(out@ =~= old(out)@ + repeated('0', 3));
    } else if n < 256 {
        out.append("00");
        assert(out@ =~= old(out)@ + repeated('0', 2));
    } else if n < 4096 {
        out.append("0");
        assert(out@ =~= old(out)@ + repeated('0', 1));
    }
    push_lower_hex(out, n);
    assert(out@ =~= old(out)@ + offset_text(n as nat));
}

/// Appends `count` spaces.
fn push_spaces(out: &mut String, count: usize)
    ensures
        final(out)@ == old(out)@ + repeated(' ', count as nat),
{
    let mut i: usize = 0;
    assert(out@ =~= old(out)@ + repeated(' ', 0));
    while i < count
        invariant
            i <= count,
            out@ == old(out)@ + repeated(' ', i as nat),
        decreases count - i,
    {
        push_char(out, ' ');
        i = i + 1;
        assert(out@ =~= old(out)@ + repeated(' ', i as nat));
    }
}

/// Appends the bytes of `chunk` in hexadecimal, a space between two.
fn push_hex_bytes(out: &mut String, chunk: &[u8])
    ensures
        final(out)@ == old(out)@ + hex_bytes(chunk@),
{
    let mut i: usize = 0;
    assert(chunk@.take(0) =~= Seq::<u8>::empty());
    assert(out@ =~= old(out)@ + hex_bytes(chunk@.take(0)));
    while i < chunk.len()
        invariant
            i <= chunk@.len(),
            out@ == old(out)@ + hex_bytes(chunk@.take(i as int)),
        decreases chunk@.len() - i,
    {
        let ghost before = out@;
        let b: u8 = chunk[i];
        if i > 0 {
            push_char(out, ' ');
        }
        out.append(digit_str(b / 16));
        out.append(digit_str(b % 16));
        proof {
            let seen = chunk@.take(i + 1);
            assert(seen.drop_last() =~= chunk@.take(i as int));
            assert(seen.last() == b);
            if i > 0 {
                assert(out@ =~= old(out)@ + (hex_bytes(chunk@.take(i as int)) + seq![' ']
                    + hex_byte(b)));
            } else {
                assert(out@ =~= old(out)@ + hex_byte(b));
            }
        }
        i = i + 1;
    }
    assert(chunk@.take(chunk@.len() as int) =~= chunk@);
}

/// Appends the bytes of `chunk` as text, a dot for what cannot be shown.
fn push_printable(out: &mut String, chunk: &[u8])
    ensures
        final(out)@ == old(out)@ + printable_text(chunk@),
{
    let mut i: usize = 0;
    assert(out@ =~= old(out)@ + printable_text(chunk@.take(0)));
    while i < chunk.len()
        invariant
            i <= chunk@.len(),
            out@ == old(out)@ + printable_text(chunk@.take(i as int)),
        decreases chunk@.len() - i,
    {
        let b: u8 = chunk[i];
        let c: char = if b >= 0x20 && b < 0x7F {
            b as char
        } else {
            '.'
        };
        push_char(out, c);
        assert(out@ =~= old(out)@ + printable_text(chunk@.take(i + 1)));
        i = i + 1;
    }
    assert(chunk@.take(chunk@.len() as int) =~= chunk@);
}

/// Appends one line of a hex dump.
fn push_hex_line(out: &mut String, offset: usize, chunk: &[u8])
    requires
        chunk@.len() <= BYTES_PER_LINE,
    ensures
        final(out)@ == old(out)@ + hex_line(offset as nat, chunk@),
{
    push_offset(out, offset);
    push_spaces(out, 3);
    push_hex_bytes(out, chunk);
    push_spaces(out, 3 * (BYTES_PER_LINE - chunk.len()));
    push_spaces(out, 2);
    push_printable(out, chunk);
    assert(out@ =~= old(out)@ + hex_line(offset as nat, chunk@));
}

/// Shows `data` as a hex dump: 24 bytes to the line, each line with its
/// offset, the bytes in hexadecimal and the bytes as text.
pub fn hex_dump(data: &[u8]) -> (out: String)
    ensures
        out@ == hex_dump_text(data@, 0),
{
    let n = data.len();
    let mut out = String::new();
    let mut offset: usize = 0;
    assert(data@.skip(0) =~= data@);
    assert(out@ + hex_dump_text(data@, 0) =~= hex_dump_text(data@, 0));
    while offset < n
        invariant
            n == data@.len(),
            offset <= n,
            hex_dump_text(data@, 0) == out@ + hex_dump_text(
                data@.skip(offset as int),
                offset as nat,
            ),
        decreases n - offset,
    {
        let ghost so_far = out@;
        let ghost rest = data@.skip(offset as int);
        let end: usize = if n - offset > BYTES_PER_LINE {
            offset + BYTES_PER_LINE
        } else {
            n
        };
        let chunk = slice_subrange(data, offset, end);
        push_hex_line(&mut out, offset, chunk);
        if end < n {
            push_char(&mut out, '\n');
            proof {
                assert(chunk@ =~= rest.take(BYTES_PER_LINE as int));
                assert(data@.skip(end as int) =~= rest.skip(BYTES_PER_LINE as int));
                assert(out@ + hex_dump_text(data@.skip(end as int), end as nat) =~= so_far
                    + hex_dump_text(rest, offset as nat));
            }
        } else {
            proof {
                assert(chunk@ =~= rest);
                assert(data@.skip(end as int) =~= Seq::<u8>::empty());
                assert(out@ + hex_dump_text(data@.skip(end as int), end as nat) =~= so_far
                    + hex_dump_text(rest, offset as nat));
            }
        }
        offset = end;
    }
    assert(data@.skip(n as int) =~= Seq::<u8>::empty());
    assert(out@ =~= hex_dump_text(data@, 0));
    out
}

} // verus!
