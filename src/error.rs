use vstd::prelude::*;
use vstd::utf8::{decode_utf8, encode_utf8, valid_utf8};
use crate::document::{join_dots, join_path};
use crate::text::{find_byte, push_char, strings_view};

verus! {

/// Number of times `needle` occurs in `s`.
pub open spec fn count_of(s: Seq<u8>, needle: u8) -> nat
    decreases s.len(),
{
    if s.len() == 0 {
        0
    } else {
        count_of(s.drop_last(), needle) + if s.last() == needle { 1nat } else { 0nat }
    }
}

/// Index just past the last `'\n'` among the first `i` bytes of `s`, or 0 when there is none.
pub open spec fn line_start_before(s: Seq<u8>, i: int) -> int
    decreases i,
{
    if i <= 0 {
        0
    } else if s[i - 1] == 10u8 {
        i
    } else {
        line_start_before(s, i - 1)
    }
}

/// Whether `b` begins a character in UTF-8, i.e. is not a continuation byte.
pub open spec fn starts_char(b: u8) -> bool {
    !(0x80u8 <= b && b <= 0xBFu8)
}

/// The number of characters that begin in `s`.
pub open spec fn char_starts(s: Seq<u8>) -> nat
    decreases s.len(),
{
    if s.len() == 0 {
        0
    } else {
        char_starts(s.drop_last()) + if starts_char(s.last()) { 1nat } else { 0nat }
    }
}

/// The zero-based (line, column) of byte `index` in `input`: the index is first clamped
/// to the last byte; the line is the number of newlines before it, the column the number
/// of characters that begin between the start of that line and it, and the amount
/// clamped off the end is added back to the column.
pub open spec fn position_of(input: Seq<u8>, index: nat) -> (nat, nat) {
    if input.len() == 0 {
        (0, index)
    } else {
        let safe = if index < input.len() { index as int } else { input.len() - 1 };
        let start = line_start_before(input, safe);
        (
            count_of(input.subrange(0, safe), 10u8),
            (char_starts(input.subrange(start, safe)) + (index - safe)) as nat,
        )
    }
}

/// A parse failure: a message, the source it was raised on, the key path that led to it,
/// and the byte range it covers.
#[derive(Debug, Clone, PartialEq, Eq)]
pub struct TomlError {
    pub message: String,
    pub input: Option<String>,
    pub keys: Vec<String>,
    pub span: Option<std::ops::Range<usize>>,
}

impl TomlError {
    /// An error with the given message and span, no source text and no key path.
    pub fn custom(message: String, span: Option<std::ops::Range<usize>>) -> (r: Self)
        ensures
            r.message@ == message@,
            r.input.is_none(),
            r.keys@.len() == 0,
            r.span == span,
    {
        TomlError { message, input: None, keys: Vec::new(), span }
    }

    /// The start/end byte index into the source where the error occurred.
    pub fn span(&self) -> (r: Option<std::ops::Range<usize>>)
        ensures
            r == self.span,
    {
        match &self.span {
            Some(s) => Some(std::ops::Range { start: s.start, end: s.end }),
            None => None,
        }
    }

    /// Attaches (or clears) the source text the error refers to.
    pub fn set_input(&mut self, input: Option<&str>)
        ensures
            final(self).message == old(self).message,
            final(self).keys == old(self).keys,
            final(self).span == old(self).span,
            match input {
                Some(s) => final(self).input is Some && final(self).input->0@ == s@,
                None => final(self).input is None,
            },
    {
        self.input = match input {
            Some(s) => Some(s.to_string()),
            None => None,
        };
    }
}

/// Relies on bytecount::count: the number of bytes of `haystack` equal to `needle`.
#[verifier::external_body]
fn count_bytes(haystack: &[u8], needle: u8) -> (r: usize)
    ensures
        r == count_of(haystack@, needle),
{
    bytecount::count(haystack, needle)
}

/// Relies on std's str::from_utf8: succeeds exactly on valid UTF-8 and then holds the
/// decoded characters.
#[verifier::external_body]
fn str_from_utf8(b: &[u8]) -> (r: Option<&str>)
    ensures
        r is Some <==> valid_utf8(b@),
        r is Some ==> r->0@ == decode_utf8(b@),
{
    std::str::from_utf8(b).ok()
}

/// Translates a byte offset into a zero-based (line, column) pair, the column counted in
/// characters.
pub fn translate_position(input: &[u8], index: usize) -> (r: (usize, usize))
    ensures
        r.0 as nat == position_of(input@, index as nat).0,
        r.1 as nat == position_of(input@, index as nat).1,
{
    if input.len() == 0 {
        return (0, index);
    }
    let safe: usize = if index < input.len() { index } else { input.len() - 1 };
    let column_offset: usize = index - safe;
    let mut start: usize = safe;
    while start > 0 && input[start - 1] != 10u8
        invariant
            start <= safe < input@.len(),
            line_start_before(input@, start as int) == line_start_before(input@, safe as int),
        decreases start,
    {
        start = start - 1;
    }
    let line = count_bytes(&input[0..safe], 10u8);
    let mut column: usize = 0;
    let mut k: usize = start;
    while k < safe
        invariant
            start <= k <= safe < input@.len(),
            column == char_starts(input@.subrange(start as int, k as int)),
            column <= k - start,
        decreases safe - k,
    {
        proof {
            assert(input@.subrange(start as int, k + 1).drop_last() =~= input@.subrange(
                start as int,
                k as int,
            ));
        }
        let b = input[k];
        if !(0x80u8 <= b && b <= 0xBFu8) {
            column = column + 1;
        }
        k = k + 1;
    }
    (line, column + column_offset)
}

/// The first position at or after `i` that holds a `'\n'`, or the length.
pub open spec fn next_newline(s: Seq<u8>, i: int) -> int
    decreases s.len() - i,
{
    if i >= s.len() {
        s.len() as int
    } else if s[i] == 10u8 {
        i
    } else {
        next_newline(s, i + 1)
    }
}

/// The text of the line that holds byte `index` (clamped into the input): the
/// characters from the line's start up to its `'\n'`, or nothing where those bytes are
/// not valid UTF-8.
pub open spec fn line_text(input: Seq<u8>, index: nat) -> Seq<char> {
    if input.len() == 0 {
        Seq::empty()
    } else {
        let safe = if index < input.len() { index as int } else { input.len() - 1 };
        let start = line_start_before(input, safe);
        let piece = input.subrange(start, next_newline(input, start));
        if valid_utf8(piece) {
            decode_utf8(piece)
        } else {
            Seq::empty()
        }
    }
}

/// The decimal digit for `d`.
pub open spec fn digit_char(d: nat) -> char {
    if d == 0 {
        '0'
    } else if d == 1 {
        '1'
    } else if d == 2 {
        '2'
    } else if d == 3 {
        '3'
    } else if d == 4 {
        '4'
    } else if d == 5 {
        '5'
    } else if d == 6 {
        '6'
    } else if d == 7 {
        '7'
    } else if d == 8 {
        '8'
    } else {
        '9'
    }
}

/// `n` written in decimal.
pub open spec fn decimal(n: nat) -> Seq<char>
    decreases n,
{
    if n < 10 {
        seq![digit_char(n)]
    } else {
        decimal(n / 10).push(digit_char(n % 10))
    }
}

/// `k` copies of `c`.
pub open spec fn repeated(c: char, k: nat) -> Seq<char> {
    Seq::new(k, |i: int| c)
}

/// Whether the error can show the source excerpt.
pub open spec fn has_context(e: TomlError) -> bool {
    e.input is Some && e.span is Some
}

/// The excerpt shown above the message: the position, the numbered source line with a
/// gutter, and a caret run under the span, at least one caret long and cut at the end
/// of the line.
pub open spec fn excerpt(input: Seq<char>, start: nat, end: nat) -> Seq<char> {
    let bytes = encode_utf8(input);
    let line = position_of(bytes, start).0;
    let column = position_of(bytes, start).1;
    let number = decimal(line + 1);
    let gutter = repeated(' ', number.len() + 1);
    let content = line_text(bytes, start);
    let width = if end >= start { end - start } else { 0int };
    let room = if content.len() >= column { content.len() - column } else { 0int };
    let highlight = if width <= room { width } else { room };
    let extra = if highlight >= 1 { (highlight - 1) as nat } else { 0nat };
    "TOML parse error at line "@ + number + ", column "@ + decimal(column + 1) + "\n"@ + gutter
        + "|\n"@ + number + " | "@ + content + "\n"@ + gutter + "|"@ + repeated(' ', column + 1)
        + "^"@ + repeated('^', extra) + "\n"@
}

/// The full diagnostic text of an error.
pub open spec fn rendered(e: TomlError) -> Seq<char> {
    let head = if has_context(e) {
        excerpt(e.input->Some_0@, e.span->Some_0.start as nat, e.span->Some_0.end as nat)
    } else {
        Seq::empty()
    };
    let tail = if !has_context(e) && e.keys@.len() > 0 {
        "in `"@ + join_dots(strings_view(e.keys@)) + "`\n"@
    } else {
        Seq::empty()
    };
    head + e.message@ + "\n"@ + tail
}

fn digit(d: u128) -> (r: char)
    requires
        d < 10,
    ensures
        r == digit_char(d as nat),
{
    if d == 0 {
        '0'
    } else if d == 1 {
        '1'
    } else if d == 2 {
        '2'
    } else if d == 3 {
        '3'
    } else if d == 4 {
        '4'
    } else if d == 5 {
        '5'
    } else if d == 6 {
        '6'
    } else if d == 7 {
        '7'
    } else if d == 8 {
        '8'
    } else {
        '9'
    }
}

/// Appends `n` in decimal.
fn push_decimal(s: &mut String, n: u128)
    ensures
        final(s)@ == old(s)@ + decimal(n as nat),
    decreases n,
{
    if n >= 10 {
        push_decimal(s, n / 10);
    }
    push_char(s, digit(n % 10));
    proof {
        if n >= 10 {
            assert(old(s)@ + decimal(n as nat) =~= old(s)@ + decimal((n / 10) as nat) + seq![
                digit_char((n % 10) as nat),
            ]);
        } else {
            assert(decimal(n as nat) =~= seq![digit_char((n % 10) as nat)]);
        }
    }
}

/// Appends `k` copies of `c`.
fn push_repeated(s: &mut String, c: char, k: u128)
    ensures
        final(s)@ == old(s)@ + repeated(c, k as nat),
{
    let mut i: u128 = 0;
    while i < k
        invariant
            i <= k,
            s@ == old(s)@ + repeated(c, i as nat),
        decreases k - i,
    {
        push_char(s, c);
        i = i + 1;
        assert(s@ =~= old(s)@ + repeated(c, i as nat));
    }
}

proof fn lemma_next_newline(s: Seq<u8>, i: int, e: int)
    requires
        0 <= i <= e <= s.len(),
        forall|j: int| i <= j < e ==> s[j] != 10u8,
        e == s.len() || s[e] == 10u8,
    ensures
        next_newline(s, i) == e,
    decreases e - i,
{
    if i < e {
        lemma_next_newline(s, i + 1, e);
    }
}

/// The text of the line that holds byte `index`.
fn line_at(input: &[u8], index: usize) -> (r: String)
    ensures
        r@ == line_text(input@, index as nat),
{
    if input.len() == 0 {
        return String::new();
    }
    let safe: usize = if index < input.len() { index } else { input.len() - 1 };
    let mut start: usize = safe;
    while start > 0 && input[start - 1] != 10u8
        invariant
            start <= safe < input@.len(),
            line_start_before(input@, start as int) == line_start_before(input@, safe as int),
        decreases start,
    {
        start = start - 1;
    }
    let rest = &input[start..input.len()];
    let end: usize = match find_byte(10u8, rest) {
        Some(i) => start + i,
        None => input.len(),
    };
    proof {
        assert(rest@ == input@.subrange(start as int, input@.len() as int));
        assert forall|j: int| start <= j < end implies input@[j] != 10u8 by {
            assert(rest@[j - start] == input@[j]);
        }
        lemma_next_newline(input@, start as int, end as int);
    }
    let piece = &input[start..end];
    assert(piece@ == input@.subrange(start as int, end as int));
    match str_from_utf8(piece) {
        Some(s) => s.to_owned(),
        None => String::new(),
    }
}

impl TomlError {
    /// The diagnostic text: with source and span, the position, the numbered source
    /// line and a caret run under the span; then the message; and, without that
    /// excerpt, the key path as ``in `a.b.c` `` when there is one.
    pub fn render(&self) -> (r: String)
        ensures
            r@ == rendered(*self),
    {
        let mut out = String::new();
        let mut context = false;
        match (&self.input, &self.span) {
            (Some(input), Some(span)) => {
                context = true;
                let bytes = input.as_str().as_bytes();
                let (line, column) = translate_position(bytes, span.start);
                let content = line_at(bytes, span.start);
                let mut number = String::new();
                push_decimal(&mut number, line as u128 + 1);
                let gutter = number.as_str().unicode_len();
                let width: usize = if span.end >= span.start { span.end - span.start } else { 0 };
                let line_len = content.as_str().unicode_len();
                let room: usize = if line_len >= column { line_len - column } else { 0 };
                let highlight: usize = if width <= room { width } else { room };
                let extra: usize = if highlight >= 1 { highlight - 1 } else { 0 };
                out.append("TOML parse error at line ");
                out.append(number.as_str());
                out.append(", column ");
                push_decimal(&mut out, column as u128 + 1);
                out.append("\n");
                push_repeated(&mut out, ' ', gutter as u128 + 1);
                out.append("|\n");
                out.append(number.as_str());
                out.append(" | ");
                out.append(content.as_str());
                out.append("\n");
                push_repeated(&mut out, ' ', gutter as u128 + 1);
                out.append("|");
                push_repeated(&mut out, ' ', column as u128 + 1);
                out.append("^");
                push_repeated(&mut out, '^', extra as u128);
                out.append("\n");
                assert(out@ =~= excerpt(input@, span.start as nat, span.end as nat));
            },
            _ => {},
        }
        out.append(self.message.as_str());
        out.append("\n");
        if !context && self.keys.len() > 0 {
            let joined = join_path(&self.keys);
            out.append("in `");
            out.append(joined.as_str());
            out.append("`\n");
        }
        assert(out@ =~= rendered(*self));
        out
    }
}

} // verus!
