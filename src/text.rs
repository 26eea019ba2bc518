//! Reading and writing the text format of a tensor.
//!
//! The text is line based. The first line holds the number of axes `N`, the
//! second the inclusive lower bound of each axis, the third the exclusive upper
//! bound; each further line holds `N` coordinates and a value. Tokens are
//! separated by spaces or tabs, `#` starts a comment that runs to the end of
//! the line, and both LF and CRLF end a line. The writer separates tokens with
//! tabs and ends lines with LF.
use crate::axis::{axes_view, copy_axes, Axis, AxisBuilder, AxisIds};
use crate::iter::{axes_in_shape, logical_index};
use crate::tensor::{block_size_of, blocks_view, row_in_range, rows_view, COOTensor};
use vstd::prelude::*;
use vstd::utf8::{encode_utf8, valid_utf8};

verus! {

/// A cursor over bytes that tracks the line and column of the next byte, both from 1.
pub struct LineNumberReader {
    pub bytes: Vec<u8>,
    pub pos: usize,
    pub line_number: u64,
    pub column_number: u64,
}

/// The line of position `p` of `b`, from 1.
pub open spec fn line_of(b: Seq<u8>, p: int) -> nat
    decreases p,
{
    if p <= 0 {
        1
    } else {
        line_of(b, p - 1) + if b[p - 1] == 10 { 1nat } else { 0nat }
    }
}

/// The column of position `p` of `b`, from 1.
pub open spec fn column_of(b: Seq<u8>, p: int) -> nat
    decreases p,
{
    if p <= 0 {
        1
    } else if b[p - 1] == 10 {
        1
    } else {
        column_of(b, p - 1) + 1
    }
}

proof fn lemma_line_column_bound(b: Seq<u8>, p: int)
    requires
        0 <= p,
    ensures
        1 <= line_of(b, p) <= p + 1,
        1 <= column_of(b, p) <= p + 1,
    decreases p,
{
    if p > 0 {
        lemma_line_column_bound(b, p - 1);
    }
}

impl LineNumberReader {
    pub open spec fn wf(&self) -> bool {
        &&& self.pos <= self.bytes@.len()
        &&& self.bytes@.len() < u64::MAX
        &&& self.line_number == line_of(self.bytes@, self.pos as int)
        &&& self.column_number == column_of(self.bytes@, self.pos as int)
    }

    /// The bytes not read yet.
    pub open spec fn rest(&self) -> nat {
        (self.bytes@.len() - self.pos) as nat
    }

    /// A reader at the first byte of `bytes`.
    pub fn new(bytes: Vec<u8>) -> (r: LineNumberReader)
        requires
            bytes@.len() < u64::MAX,
        ensures
            r.wf(),
            r.bytes == bytes,
            r.pos == 0,
            r.line_number == 1,
            r.column_number == 1,
    {
        LineNumberReader { bytes, pos: 0, line_number: 1, column_number: 1 }
    }

    /// The line and the column of the next byte.
    pub fn line_column(&self) -> (r: (u64, u64))
        ensures
            r == (self.line_number, self.column_number),
    {
        (self.line_number, self.column_number)
    }

    /// The next byte, without reading it.
    pub fn peek_byte(&self) -> (r: Option<u8>)
        requires
            self.wf(),
        ensures
            r == if self.pos < self.bytes@.len() {
                Some(self.bytes@[self.pos as int])
            } else {
                None::<u8>
            },
    {
        if self.pos < self.bytes.len() {
            Some(self.bytes[self.pos])
        } else {
            None
        }
    }

    /// Reads the next byte; a line feed moves to the start of the next line.
    pub fn read_byte(&mut self) -> (r: Option<u8>)
        requires
            old(self).wf(),
        ensures
            final(self).wf(),
            final(self).bytes == old(self).bytes,
            old(self).pos < old(self).bytes@.len() ==> {
                let b = old(self).bytes@[old(self).pos as int];
                &&& r == Some(b)
                &&& final(self).pos == old(self).pos + 1
                &&& b == 10 ==> final(self).line_number == old(self).line_number + 1
                    && final(self).column_number == 1
                &&& b != 10 ==> final(self).line_number == old(self).line_number
                    && final(self).column_number == old(self).column_number + 1
            },
            old(self).pos >= old(self).bytes@.len() ==> r.is_none() && *final(self) == *old(self),
    {
        if self.pos < self.bytes.len() {
            let b = self.bytes[self.pos];
            proof {
                lemma_line_column_bound(self.bytes@, self.pos + 1);
            }
            self.pos = self.pos + 1;
            if b == 10 {
                self.line_number = self.line_number + 1;
                self.column_number = 1;
            } else {
                self.column_number = self.column_number + 1;
            }
            Some(b)
        } else {
            None
        }
    }

    /// The bytes being read.
    pub fn inner(&self) -> (r: &[u8])
        ensures
            r@ == self.bytes@,
    {
        self.bytes.as_slice()
    }

    /// The bytes being read, giving up the reader.
    pub fn into_inner(self) -> (r: Vec<u8>)
        ensures
            r == self.bytes,
    {
        self.bytes
    }
}

/// Which kinds of token are wanted.
#[derive(Clone, Copy, Debug, PartialEq, Eq, Structural)]
pub struct TokenMask {
    pub eof: bool,
    pub new_line: bool,
    pub comment: bool,
    pub value: bool,
}

/// A token of the text format.
pub enum Token {
    Eof,
    NewLine,
    Comment,
    Value(Vec<u8>),
}

/// Whether `mask` admits `token`.
pub open spec fn admits(mask: TokenMask, token: Token) -> bool {
    match token {
        Token::Eof => mask.eof,
        Token::NewLine => mask.new_line,
        Token::Comment => mask.comment,
        Token::Value(_) => mask.value,
    }
}

/// What was found where another token was expected.
#[derive(Clone, Copy, Debug, PartialEq, Eq, Structural)]
pub enum Found {
    NewLine,
    Comment,
    Byte(u8),
    EndOfFile,
}

/// Why a text could not be read as a tensor.
#[derive(Debug)]
pub enum TensorReadError {
    /// A coordinate lies outside the range of its axis.
    IndexOutOfBoundError { line: u64, column: u64 },
    /// A token of another kind than expected.
    TokenizeError { line: u64, column: u64, expect: TokenMask, found: Found },
    /// A token that is not a number of the expected kind.
    ValueError { line: u64, column: u64, value: Vec<u8> },
    /// A token whose bytes are not UTF-8.
    FromUtf8Error { line: u64, column: u64 },
}

/// Whether `b` ends a value token: a space, a tab, a line break or `#`.
pub open spec fn is_delimiter(b: u8) -> bool {
    b == 32 || b == 9 || b == 10 || b == 13 || b == 35
}

/// Whether `c` is a space or a tab.
pub open spec fn is_blank(c: u8) -> bool {
    c == 32 || c == 9
}

/// The first position at or after `p` that does not hold a space or a tab.
pub open spec fn skip_blanks(b: Seq<u8>, p: int) -> int
    decreases b.len() - p,
{
    if 0 <= p < b.len() && is_blank(b[p]) {
        skip_blanks(b, p + 1)
    } else {
        p
    }
}

/// The end of the value token that starts at `p`: the first delimiter at or after it.
pub open spec fn value_end(b: Seq<u8>, p: int) -> int
    decreases b.len() - p,
{
    if 0 <= p < b.len() && !is_delimiter(b[p]) {
        value_end(b, p + 1)
    } else {
        p
    }
}

/// The end of a comment whose text starts at `p`: the first line break at or after it.
pub open spec fn comment_end(b: Seq<u8>, p: int) -> int
    decreases b.len() - p,
{
    if 0 <= p < b.len() && b[p] != 10 && b[p] != 13 {
        comment_end(b, p + 1)
    } else {
        p
    }
}

/// What the tokenizer finds: a token, or something of a kind that was not expected.
pub enum Scan {
    Eof,
    NewLine,
    Comment,
    Value(Seq<u8>),
    Bad(Found),
}

/// The token read at `p` when the kinds in `m` are expected, with the position after
/// it; for an unexpected kind, the position where it starts.
///
/// Spaces and tabs are passed over. The end of the text is `Eof`; LF, CR or CR LF is
/// `NewLine`; `#` starts a comment that runs up to the next line break; any other
/// byte starts a value that runs up to the next delimiter.
pub open spec fn scan(b: Seq<u8>, p: int, m: TokenMask) -> (Scan, int) {
    let s = skip_blanks(b, p);
    if s >= b.len() {
        if m.eof {
            (Scan::Eof, s)
        } else {
            (Scan::Bad(Found::EndOfFile), s)
        }
    } else if b[s] == 10 || b[s] == 13 {
        if m.new_line {
            (
                Scan::NewLine,
                if b[s] == 13 && s + 1 < b.len() && b[s + 1] == 10 {
                    s + 2
                } else {
                    s + 1
                },
            )
        } else {
            (Scan::Bad(Found::NewLine), s)
        }
    } else if b[s] == 35 {
        if m.comment {
            (Scan::Comment, comment_end(b, s + 1))
        } else {
            (Scan::Bad(Found::Comment), s)
        }
    } else if m.value {
        (Scan::Value(b.subrange(s, value_end(b, s))), value_end(b, s))
    } else {
        (Scan::Bad(Found::Byte(b[s])), s)
    }
}

/// Whether the token `t` is what `sc` describes.
pub open spec fn token_is(t: Token, sc: Scan) -> bool {
    match t {
        Token::Eof => sc == Scan::Eof,
        Token::NewLine => sc == Scan::NewLine,
        Token::Comment => sc == Scan::Comment,
        Token::Value(v) => sc == Scan::Value(v@),
    }
}

/// Whether `err` reports the unexpected kind in `sc`, found at position `p` of `b`
/// while the kinds in `expect` were expected.
pub open spec fn reports(err: TensorReadError, b: Seq<u8>, p: int, expect: TokenMask, sc: Scan) -> bool {
    match err {
        TensorReadError::TokenizeError { line, column, expect: ex, found } => sc == Scan::Bad(found)
            && ex == expect && line == line_of(b, p) && column == column_of(b, p),
        _ => false,
    }
}

proof fn lemma_skip_blanks(b: Seq<u8>, p: int)
    requires
        0 <= p <= b.len(),
    ensures
        p <= skip_blanks(b, p) <= b.len(),
        skip_blanks(b, p) < b.len() ==> !is_blank(b[skip_blanks(b, p)]),
    decreases b.len() - p,
{
    if p < b.len() && is_blank(b[p]) {
        lemma_skip_blanks(b, p + 1);
    }
}

proof fn lemma_value_end(b: Seq<u8>, p: int)
    requires
        0 <= p <= b.len(),
    ensures
        p <= value_end(b, p) <= b.len(),
        p < b.len() && !is_delimiter(b[p]) ==> p < value_end(b, p),
    decreases b.len() - p,
{
    if p < b.len() && !is_delimiter(b[p]) {
        lemma_value_end(b, p + 1);
    }
}

proof fn lemma_comment_end(b: Seq<u8>, p: int)
    requires
        0 <= p <= b.len(),
    ensures
        p <= comment_end(b, p) <= b.len(),
    decreases b.len() - p,
{
    if p < b.len() && b[p] != 10 && b[p] != 13 {
        lemma_comment_end(b, p + 1);
    }
}

/// A token ends within the text; every token but the end moves forward, and a
/// value is never empty.
pub proof fn lemma_scan(b: Seq<u8>, p: int, m: TokenMask)
    requires
        0 <= p <= b.len(),
    ensures
        ({
            let (sc, e) = scan(b, p, m);
            &&& p <= e <= b.len()
            &&& sc == Scan::Eof ==> e == b.len()
            &&& !(sc matches Scan::Eof) && !(sc matches Scan::Bad(_)) ==> p < e
            &&& sc matches Scan::Value(v) ==> v.len() > 0
        }),
{
    lemma_skip_blanks(b, p);
    let s = skip_blanks(b, p);
    if s < b.len() {
        lemma_value_end(b, s);
        lemma_comment_end(b, s + 1);
    }
}

/// Reads a value token: the bytes up to the next delimiter or the end.
fn read_next_value(r: &mut LineNumberReader) -> (v: Vec<u8>)
    requires
        old(r).wf(),
    ensures
        final(r).wf(),
        final(r).bytes == old(r).bytes,
        final(r).pos == value_end(old(r).bytes@, old(r).pos as int),
        v@ == old(r).bytes@.subrange(old(r).pos as int, final(r).pos as int),
{
    let mut v: Vec<u8> = Vec::new();
    let ghost start = r.pos;
    loop
        invariant
            r.wf(),
            r.bytes == old(r).bytes,
            start == old(r).pos,
            start <= r.pos,
            v@ == r.bytes@.subrange(start as int, r.pos as int),
            value_end(r.bytes@, start as int) == value_end(r.bytes@, r.pos as int),
        ensures
            r.wf(),
            r.bytes == old(r).bytes,
            v@ == r.bytes@.subrange(start as int, r.pos as int),
            r.pos == value_end(r.bytes@, start as int),
        decreases r.rest(),
    {
        match r.peek_byte() {
            Some(b) => {
                if b == 32 || b == 9 || b == 10 || b == 13 || b == 35 {
                    break;
                }
                v.push(b);
                r.read_byte();
                assert(v@ =~= r.bytes@.subrange(start as int, r.pos as int));
            },
            None => {
                break;
            },
        }
    }
    v
}

/// Skips a comment, up to, not including, the line break that ends it.
fn read_next_comment(r: &mut LineNumberReader)
    requires
        old(r).wf(),
    ensures
        final(r).wf(),
        final(r).bytes == old(r).bytes,
        final(r).pos == comment_end(old(r).bytes@, old(r).pos as int),
{
    loop
        invariant
            r.wf(),
            r.bytes == old(r).bytes,
            comment_end(r.bytes@, old(r).pos as int) == comment_end(r.bytes@, r.pos as int),
        ensures
            r.wf(),
            r.bytes == old(r).bytes,
            r.pos == comment_end(r.bytes@, old(r).pos as int),
        decreases r.rest(),
    {
        match r.peek_byte() {
            Some(b) => {
                if b == 10 || b == 13 {
                    break;
                }
                r.read_byte();
            },
            None => {
                break;
            },
        }
    }
}

/// Reads the next token, which must be of a kind in `expect`: the token that
/// [`scan`] describes, or an error at the place where an unexpected kind starts.
///
/// A token comes with the line and the column where it starts.
fn read_next_token(r: &mut LineNumberReader, expect: TokenMask) -> (res: Result<(Token, u64, u64), TensorReadError>)
    requires
        old(r).wf(),
    ensures
        final(r).wf(),
        final(r).bytes == old(r).bytes,
        ({
            let (sc, e) = scan(old(r).bytes@, old(r).pos as int, expect);
            let start = skip_blanks(old(r).bytes@, old(r).pos as int);
            match res {
                Ok((t, line, column)) => token_is(t, sc) && final(r).pos == e && line == line_of(old(r).bytes@, start)
                    && column == column_of(old(r).bytes@, start),
                Err(err) => reports(err, old(r).bytes@, e, expect, sc),
            }
        }),
{
    let ghost b = r.bytes@;
    let ghost p0 = r.pos as int;
    loop
        invariant
            r.wf(),
            r.bytes == old(r).bytes,
            b == r.bytes@,
            p0 == old(r).pos,
            p0 <= r.pos,
            skip_blanks(b, p0) == skip_blanks(b, r.pos as int),
        decreases r.rest(),
    {
        let (line, column) = r.line_column();
        match r.peek_byte() {
            Some(c) => {
                if c == 32 || c == 9 {
                    r.read_byte();
                } else if c == 10 || c == 13 {
                    if !expect.new_line {
                        return Err(TensorReadError::TokenizeError { line, column, expect, found: Found::NewLine });
                    }
                    r.read_byte();
                    if c == 13 {
                        if r.peek_byte() == Some(10u8) {
                            r.read_byte();
                        }
                    }
                    return Ok((Token::NewLine, line, column));
                } else if c == 35 {
                    if !expect.comment {
                        return Err(TensorReadError::TokenizeError { line, column, expect, found: Found::Comment });
                    }
                    r.read_byte();
                    read_next_comment(r);
                    return Ok((Token::Comment, line, column));
                } else {
                    if !expect.value {
                        return Err(TensorReadError::TokenizeError { line, column, expect, found: Found::Byte(c) });
                    }
                    let v = read_next_value(r);
                    return Ok((Token::Value(v), line, column));
                }
            },
            None => {
                if !expect.eof {
                    return Err(TensorReadError::TokenizeError { line, column, expect, found: Found::EndOfFile });
                }
                return Ok((Token::Eof, line, column));
            },
        }
    }
}

/// The union of two masks.
pub open spec fn mask_union(a: TokenMask, b: TokenMask) -> TokenMask {
    TokenMask {
        eof: a.eof || b.eof,
        new_line: a.new_line || b.new_line,
        comment: a.comment || b.comment,
        value: a.value || b.value,
    }
}

/// Whether `expect` asks for the token `sc`.
pub open spec fn wanted(expect: TokenMask, sc: Scan) -> bool {
    match sc {
        Scan::Eof => expect.eof,
        Scan::NewLine => expect.new_line,
        Scan::Comment => expect.comment,
        Scan::Value(_) => expect.value,
        Scan::Bad(_) => false,
    }
}

/// The first token from `p` of a kind in `expect`, passing over tokens of a kind in
/// `skip`, with the position after it; or the first token of neither kind.
pub open spec fn scan_until(b: Seq<u8>, p: int, expect: TokenMask, skip: TokenMask) -> (Scan, int)
    decreases b.len() - p,
{
    let (sc, e) = scan(b, p, mask_union(skip, expect));
    if sc matches Scan::Bad(_) {
        (sc, e)
    } else if wanted(expect, sc) || !(p < e <= b.len()) {
        (sc, e)
    } else {
        scan_until(b, e, expect, skip)
    }
}

/// Where the token that [`scan_until`] finds starts.
pub open spec fn scan_until_start(b: Seq<u8>, p: int, expect: TokenMask, skip: TokenMask) -> int
    decreases b.len() - p,
{
    let (sc, e) = scan(b, p, mask_union(skip, expect));
    if sc matches Scan::Bad(_) {
        skip_blanks(b, p)
    } else if wanted(expect, sc) || !(p < e <= b.len()) {
        skip_blanks(b, p)
    } else {
        scan_until_start(b, e, expect, skip)
    }
}

/// The token `scan_until` finds is wanted, ends within the text, and all but the
/// end move forward; a value is never empty.
pub proof fn lemma_scan_until(b: Seq<u8>, p: int, expect: TokenMask, skip: TokenMask)
    requires
        0 <= p <= b.len(),
        !skip.eof,
    ensures
        ({
            let (sc, e) = scan_until(b, p, expect, skip);
            &&& p <= e <= b.len()
            &&& !(sc matches Scan::Bad(_)) ==> wanted(expect, sc)
            &&& sc == Scan::Eof ==> e == b.len()
            &&& !(sc matches Scan::Eof) && !(sc matches Scan::Bad(_)) ==> p < e
            &&& sc matches Scan::Value(v) ==> v.len() > 0
        }),
    decreases b.len() - p,
{
    let (sc, e) = scan(b, p, mask_union(skip, expect));
    lemma_scan(b, p, mask_union(skip, expect));
    if !(sc matches Scan::Bad(_)) && !wanted(expect, sc) && p < e <= b.len() {
        lemma_scan_until(b, e, expect, skip);
    }
}

/// Reads tokens until one of a kind in `expect`, passing over those of a kind in
/// `skip`: the token that [`scan_until`] describes, or an error where a token of
/// neither kind starts. A token comes with the line and the column where it starts.
fn read_until_token(r: &mut LineNumberReader, expect: TokenMask, skip: TokenMask) -> (res: Result<
    (Token, u64, u64),
    TensorReadError,
>)
    requires
        old(r).wf(),
        !skip.eof,
    ensures
        final(r).wf(),
        final(r).bytes == old(r).bytes,
        ({
            let (sc, e) = scan_until(old(r).bytes@, old(r).pos as int, expect, skip);
            let start = scan_until_start(old(r).bytes@, old(r).pos as int, expect, skip);
            match res {
                Ok((t, line, column)) => token_is(t, sc) && final(r).pos == e && line == line_of(old(r).bytes@, start)
                    && column == column_of(old(r).bytes@, start),
                Err(err) => reports(err, old(r).bytes@, e, mask_union(skip, expect), sc),
            }
        }),
{
    let both = TokenMask {
        eof: skip.eof || expect.eof,
        new_line: skip.new_line || expect.new_line,
        comment: skip.comment || expect.comment,
        value: skip.value || expect.value,
    };
    let ghost b = r.bytes@;
    loop
        invariant
            r.wf(),
            r.bytes == old(r).bytes,
            b == r.bytes@,
            both == mask_union(skip, expect),
            !skip.eof,
            scan_until(b, old(r).pos as int, expect, skip) == scan_until(b, r.pos as int, expect, skip),
            scan_until_start(b, old(r).pos as int, expect, skip) == scan_until_start(b, r.pos as int, expect, skip),
        decreases r.rest(),
    {
        let ghost before = r.pos as int;
        proof {
            lemma_scan(b, before, both);
        }
        let token = read_next_token(r, both);
        match token {
            Ok((t, line, column)) => {
                let want = match &t {
                    Token::Eof => expect.eof,
                    Token::NewLine => expect.new_line,
                    Token::Comment => expect.comment,
                    Token::Value(_) => expect.value,
                };
                if want {
                    return Ok((t, line, column));
                }
            },
            Err(e) => {
                return Err(e);
            },
        }
    }
}

/// Whether `token` is the end of the text.
fn is_token_eof(token: &Token) -> (r: bool)
    ensures
        r == (token matches Token::Eof),
{
    match token {
        Token::Eof => true,
        _ => false,
    }
}

/// Whether every byte of `s` is a decimal digit.
pub open spec fn all_digits(s: Seq<u8>) -> bool {
    forall|i: int| 0 <= i < s.len() ==> 48 <= #[trigger] s[i] <= 57
}

/// The number written by the decimal digits `s`.
pub open spec fn decimal_value(s: Seq<u8>) -> nat
    decreases s.len(),
{
    if s.len() == 0 {
        0
    } else {
        decimal_value(s.drop_last()) * 10 + (s.last() - 48) as nat
    }
}

/// The magnitude written by `s` after an optional sign byte `sign`.
pub open spec fn unsigned_part(s: Seq<u8>, sign: u8) -> Seq<u8> {
    if s.len() > 0 && s[0] == sign {
        s.subrange(1, s.len() as int)
    } else {
        s
    }
}

proof fn lemma_decimal_prefix(s: Seq<u8>, i: int)
    requires
        all_digits(s),
        0 <= i <= s.len(),
    ensures
        decimal_value(s.subrange(0, i)) <= decimal_value(s),
    decreases s.len(),
{
    if i < s.len() {
        let d = s.drop_last();
        assert(d.subrange(0, i) =~= s.subrange(0, i));
        lemma_decimal_prefix(d, i);
    } else {
        assert(s.subrange(0, i) =~= s);
    }
}

/// The value of the decimal digits `s`, if they are some and it is at most `limit`.
fn parse_digits(s: &[u8], limit: u64) -> (r: Option<u64>)
    ensures
        r.is_some() == (s@.len() > 0 && all_digits(s@) && decimal_value(s@) <= limit),
        r.is_some() ==> r.unwrap() == decimal_value(s@),
{
    if s.len() == 0 {
        return None;
    }
    let mut acc: u64 = 0;
    let mut i: usize = 0;
    while i < s.len()
        invariant
            i <= s@.len(),
            all_digits(s@.subrange(0, i as int)),
            acc == decimal_value(s@.subrange(0, i as int)),
            acc <= limit,
        decreases s@.len() - i,
    {
        let b = s[i];
        proof {
            assert(s@.subrange(0, i + 1).drop_last() =~= s@.subrange(0, i as int));
        }
        if b < 48 || b > 57 {
            return None;
        }
        let d = (b - 48) as u64;
        if d > limit || acc > (limit - d) / 10 {
            proof {
                assert(all_digits(s@.subrange(0, i + 1)));
                assert(decimal_value(s@.subrange(0, i + 1)) == acc * 10 + d);
                if d <= limit {
                    assert(acc * 10 + d > limit) by (nonlinear_arith)
                        requires
                            acc > (limit - d) / 10,
                            d <= limit,
                    ;
                }
                if all_digits(s@) {
                    lemma_decimal_prefix(s@, i + 1);
                }
            }
            return None;
        }
        proof {
            assert(acc * 10 + d <= limit) by (nonlinear_arith)
                requires
                    acc <= (limit - d) / 10,
                    d <= limit,
            ;
        }
        acc = acc * 10 + d;
        i = i + 1;
    }
    proof {
        assert(s@.subrange(0, s@.len() as int) =~= s@);
    }
    Some(acc)
}

/// Reads an unsigned index, with an optional leading `+`.
pub fn parse_index(s: &[u8]) -> (r: Option<usize>)
    ensures
        ({
            let d = unsigned_part(s@, 43);
            &&& r.is_some() == (d.len() > 0 && all_digits(d) && decimal_value(d) <= usize::MAX)
            &&& r.is_some() ==> r.unwrap() == decimal_value(d)
        }),
        r == index_of(s@),
{
    let digits = if s.len() > 0 && s[0] == 43 {
        slice_from(s, 1)
    } else {
        s
    };
    let limit: u64 = if usize::MAX as u64 == u64::MAX {
        u64::MAX
    } else {
        usize::MAX as u64
    };
    match parse_digits(digits, limit) {
        Some(v) => Some(v as usize),
        None => None,
    }
}

/// The value of a signed decimal, with an optional leading `+` or `-`.
pub open spec fn signed_value(s: Seq<u8>) -> int {
    if s.len() > 0 && s[0] == 45 {
        -decimal_value(s.subrange(1, s.len() as int))
    } else {
        decimal_value(unsigned_part(s, 43)) as int
    }
}

/// The digits of a signed decimal, without its sign.
pub open spec fn signed_digits(s: Seq<u8>) -> Seq<u8> {
    if s.len() > 0 && (s[0] == 45 || s[0] == 43) {
        s.subrange(1, s.len() as int)
    } else {
        s
    }
}

/// Reads a value: a decimal integer with an optional sign that fits in `i64`.
pub fn parse_value(s: &[u8]) -> (r: Option<i64>)
    ensures
        ({
            let d = signed_digits(s@);
            &&& r.is_some() == (d.len() > 0 && all_digits(d) && i64::MIN <= signed_value(s@)
                <= i64::MAX)
            &&& r.is_some() ==> r.unwrap() == signed_value(s@)
        }),
        r == value_of(s@),
{
    let negative = s.len() > 0 && s[0] == 45;
    let digits = if s.len() > 0 && (s[0] == 45 || s[0] == 43) {
        slice_from(s, 1)
    } else {
        s
    };
    if negative {
        match parse_digits(digits, 9223372036854775808u64) {
            Some(v) => {
                if v == 9223372036854775808u64 {
                    Some(i64::MIN)
                } else {
                    Some(-(v as i64))
                }
            },
            None => None,
        }
    } else {
        match parse_digits(digits, 9223372036854775807u64) {
            Some(v) => Some(v as i64),
            None => None,
        }
    }
}

/// The bytes of `s` from position `from` on.
fn slice_from(s: &[u8], from: usize) -> (r: &[u8])
    requires
        from <= s@.len(),
    ensures
        r@ == s@.subrange(from as int, s@.len() as int),
{
    let (_, tail) = s.split_at(from);
    tail
}

/// The index written by `v`, if it is one.
pub open spec fn index_of(v: Seq<u8>) -> Option<usize> {
    let d = unsigned_part(v, 43);
    if d.len() > 0 && all_digits(d) && decimal_value(d) <= usize::MAX {
        Some(decimal_value(d) as usize)
    } else {
        None
    }
}

/// The value written by `v`, if it is one.
pub open spec fn value_of(v: Seq<u8>) -> Option<i64> {
    let d = signed_digits(v);
    if d.len() > 0 && all_digits(d) && i64::MIN <= signed_value(v) <= i64::MAX {
        Some(signed_value(v) as i64)
    } else {
        None
    }
}

/// Why a text is not a tensor, as the reader reports it.
pub enum ReadFailure {
    OutOfBound { line: nat, column: nat },
    Tokenize { line: nat, column: nat, expect: TokenMask, found: Found },
    BadNumber { line: nat, column: nat, value: Seq<u8> },
    NotUtf8 { line: nat, column: nat },
}

/// The failure that `e` reports.
pub open spec fn failure_of(e: TensorReadError) -> ReadFailure {
    match e {
        TensorReadError::IndexOutOfBoundError { line, column } => ReadFailure::OutOfBound {
            line: line as nat,
            column: column as nat,
        },
        TensorReadError::TokenizeError { line, column, expect, found } => ReadFailure::Tokenize {
            line: line as nat,
            column: column as nat,
            expect,
            found,
        },
        TensorReadError::ValueError { line, column, value } => ReadFailure::BadNumber {
            line: line as nat,
            column: column as nat,
            value: value@,
        },
        TensorReadError::FromUtf8Error { line, column } => ReadFailure::NotUtf8 {
            line: line as nat,
            column: column as nat,
        },
    }
}

/// A token that is not a number of the expected kind, starting at position `p`.
pub open spec fn bad_number(b: Seq<u8>, p: int, v: Seq<u8>) -> ReadFailure {
    ReadFailure::BadNumber { line: line_of(b, p), column: column_of(b, p), value: v }
}

/// A token whose bytes are not UTF-8, starting at position `p`.
pub open spec fn not_utf8(b: Seq<u8>, p: int) -> ReadFailure {
    ReadFailure::NotUtf8 { line: line_of(b, p), column: column_of(b, p) }
}

/// Whether `v` is UTF-8.
///
/// Relies on `std::str::from_utf8`, which fails exactly when the bytes are not
/// well-formed UTF-8.
#[verifier::external_body]
fn is_utf8(v: &[u8]) -> (r: bool)
    ensures
        r == valid_utf8(v@),
{
    std::str::from_utf8(v).is_ok()
}

/// The token [`scan_until`] finds, or the failure it reports.
pub open spec fn step(b: Seq<u8>, p: int, expect: TokenMask, skip: TokenMask) -> Result<(Scan, int), ReadFailure> {
    let (sc, e) = scan_until(b, p, expect, skip);
    match sc {
        Scan::Bad(f) => Err(
            ReadFailure::Tokenize {
                line: line_of(b, e),
                column: column_of(b, e),
                expect: mask_union(skip, expect),
                found: f,
            },
        ),
        _ => Ok((sc, e)),
    }
}

/// Values, and nothing else.
pub open spec fn values_only() -> TokenMask {
    TokenMask { eof: false, new_line: false, comment: false, value: true }
}

/// What may stand before bound `dim` of a header line.
pub open spec fn bound_skip(dim: nat) -> TokenMask {
    TokenMask { eof: false, new_line: dim == 0, comment: true, value: false }
}

/// What ends a header line.
pub open spec fn line_end(ndim: nat) -> TokenMask {
    TokenMask { eof: ndim == 0, new_line: true, comment: false, value: false }
}

/// Comments, and nothing else.
pub open spec fn comments_only() -> TokenMask {
    TokenMask { eof: false, new_line: false, comment: true, value: false }
}

/// Comments and line breaks.
pub open spec fn comments_and_lines() -> TokenMask {
    TokenMask { eof: false, new_line: true, comment: true, value: false }
}

/// The bounds `dim..ndim` of a header line read from `p`, with the position after them.
pub open spec fn parse_bounds(b: Seq<u8>, p: int, ndim: nat, dim: nat) -> Result<(Seq<usize>, int), ReadFailure>
    decreases ndim - dim,
{
    if dim >= ndim {
        Ok((Seq::empty(), p))
    } else {
        match step(b, p, values_only(), bound_skip(dim)) {
            Err(f) => Err(f),
            Ok((sc, e)) => match sc {
                Scan::Value(v) => if !valid_utf8(v) {
                    Err(not_utf8(b, scan_until_start(b, p, values_only(), bound_skip(dim))))
                } else {
                    match index_of(v) {
                    None => Err(bad_number(b, scan_until_start(b, p, values_only(), bound_skip(dim)), v)),
                    Some(x) => match parse_bounds(b, e, ndim, dim + 1) {
                        Err(f) => Err(f),
                        Ok((xs, q)) => Ok((seq![x] + xs, q)),
                    },
                }
},
                _ => Err(bad_number(b, scan_until_start(b, p, values_only(), bound_skip(dim)), Seq::empty())),
            },
        }
    }
}

/// What is wanted before coordinate `dim` of a line.
pub open spec fn index_expect(dim: nat) -> TokenMask {
    TokenMask { eof: dim == 0, new_line: false, comment: false, value: true }
}

/// What may stand before coordinate `dim` of a line.
pub open spec fn index_skip(dim: nat) -> TokenMask {
    TokenMask { eof: false, new_line: dim == 0, comment: true, value: false }
}

/// The coordinates `dim..ndim` of a line read from `p`, each in `lo[i]..up[i]`, with
/// the position after them; `None` when the text ends first.
pub open spec fn parse_row(
    b: Seq<u8>,
    p: int,
    lo: Seq<usize>,
    up: Seq<usize>,
    ndim: nat,
    dim: nat,
) -> Result<Option<(Seq<usize>, int)>, ReadFailure>
    decreases ndim - dim,
{
    if dim >= ndim {
        Ok(Some((Seq::empty(), p)))
    } else {
        match step(b, p, index_expect(dim), index_skip(dim)) {
            Err(f) => Err(f),
            Ok((sc, e)) => match sc {
                Scan::Eof => Ok(None),
                Scan::Value(v) => if !valid_utf8(v) {
                    Err(not_utf8(b, scan_until_start(b, p, index_expect(dim), index_skip(dim))))
                } else {
                    match index_of(v) {
                    None => Err(bad_number(b, scan_until_start(b, p, index_expect(dim), index_skip(dim)), v)),
                    Some(x) => if lo[dim as int] <= x < up[dim as int] {
                        match parse_row(b, e, lo, up, ndim, dim + 1) {
                            Err(f) => Err(f),
                            Ok(None) => Ok(None),
                            Ok(Some((xs, q))) => Ok(Some((seq![x] + xs, q))),
                        }
                    } else {
                        Err(
                            ReadFailure::OutOfBound {
                                line: line_of(b, scan_until_start(b, p, index_expect(dim), index_skip(dim))),
                                column: column_of(b, scan_until_start(b, p, index_expect(dim), index_skip(dim))),
                            },
                        )
                    },
                }
},
                _ => Err(bad_number(b, scan_until_start(b, p, index_expect(dim), index_skip(dim)), Seq::empty())),
            },
        }
    }
}

/// One line read from `p`: its coordinates, its value and the position after it;
/// `None` when the text ends first.
pub open spec fn parse_line(b: Seq<u8>, p: int, lo: Seq<usize>, up: Seq<usize>) -> Result<
    Option<(Seq<usize>, i64, int)>,
    ReadFailure,
> {
    match parse_row(b, p, lo, up, lo.len(), 0) {
        Err(f) => Err(f),
        Ok(None) => Ok(None),
        Ok(Some((row, q))) => match step(b, q, values_only(), comments_only()) {
            Err(f) => Err(f),
            Ok((sc, e)) => match sc {
                Scan::Value(v) => if !valid_utf8(v) {
                    Err(not_utf8(b, scan_until_start(b, q, values_only(), comments_only())))
                } else {
                    match value_of(v) {
                    None => Err(bad_number(b, scan_until_start(b, q, values_only(), comments_only()), v)),
                    Some(x) => Ok(Some((row, x, e))),
                }
},
                _ => Err(bad_number(b, scan_until_start(b, q, values_only(), comments_only()), Seq::empty())),
            },
        },
    }
}

/// The lines from `p` on: the coordinates and the value of each, in order.
pub open spec fn parse_entries(b: Seq<u8>, p: int, lo: Seq<usize>, up: Seq<usize>) -> Result<
    (Seq<Seq<usize>>, Seq<i64>),
    ReadFailure,
>
    decreases b.len() - p,
{
    match parse_line(b, p, lo, up) {
        Err(f) => Err(f),
        Ok(None) => Ok((Seq::empty(), Seq::empty())),
        Ok(Some((row, x, e))) => if p < e <= b.len() {
            match parse_entries(b, e, lo, up) {
                Err(f) => Err(f),
                Ok((rs, vs)) => Ok((seq![row] + rs, seq![x] + vs)),
            }
        } else {
            Ok((seq![row], seq![x]))
        },
    }
}

/// The text `b` after its header, once the header gave `lo` and `up` and ended at `p`.
pub open spec fn parse_body(b: Seq<u8>, p: int, lo: Seq<usize>, up: Seq<usize>, ended: bool) -> Result<
    (Seq<usize>, Seq<usize>, Seq<Seq<usize>>, Seq<i64>),
    ReadFailure,
> {
    if ended {
        Ok((lo, up, Seq::empty(), Seq::empty()))
    } else {
        match parse_entries(b, p, lo, up) {
            Err(f) => Err(f),
            Ok((rs, vs)) => Ok((lo, up, rs, vs)),
        }
    }
}

/// What the text `b` holds: the lower bounds, the upper bounds, the coordinates of
/// each line and the value of each line; or the first failure in it.
pub open spec fn parse_text(b: Seq<u8>) -> Result<(Seq<usize>, Seq<usize>, Seq<Seq<usize>>, Seq<i64>), ReadFailure> {
    match step(b, 0, values_only(), comments_and_lines()) {
        Err(f) => Err(f),
        Ok((s1, p1)) => match s1 {
            Scan::Value(v) => if !valid_utf8(v) {
                    Err(not_utf8(b, scan_until_start(b, 0, values_only(), comments_and_lines())))
                } else {
                    match index_of(v) {
                None => Err(bad_number(b, scan_until_start(b, 0, values_only(), comments_and_lines()), v)),
                Some(n) => match step(b, p1, line_end(n as nat), comments_and_lines()) {
                    Err(f) => Err(f),
                    Ok((s2, p2)) => match parse_bounds(b, p2, n as nat, 0) {
                        Err(f) => Err(f),
                        Ok((lo, p3)) => match step(b, p3, line_end(n as nat), comments_only()) {
                            Err(f) => Err(f),
                            Ok((s4, p4)) => match parse_bounds(b, p4, n as nat, 0) {
                                Err(f) => Err(f),
                                Ok((up, p5)) => match step(b, p5, line_end(n as nat), comments_only()) {
                                    Err(f) => Err(f),
                                    Ok((s6, p6)) => parse_body(
                                        b,
                                        p6,
                                        lo,
                                        up,
                                        s2 == Scan::Eof || s4 == Scan::Eof || s6 == Scan::Eof,
                                    ),
                                },
                            },
                        },
                    },
                },
            }
},
            _ => Err(bad_number(b, scan_until_start(b, 0, values_only(), comments_and_lines()), Seq::empty())),
        },
    }
}

/// The mask that admits values only.
fn value_only() -> (m: TokenMask)
    ensures
        m == values_only(),
{
    TokenMask { eof: false, new_line: false, comment: false, value: true }
}

/// `xs` followed by the bounds in `res`.
pub open spec fn prepend_bounds(xs: Seq<usize>, res: Result<(Seq<usize>, int), ReadFailure>) -> Result<(Seq<usize>, int), ReadFailure> {
    match res {
        Ok((ys, q)) => Ok((xs + ys, q)),
        Err(f) => Err(f),
    }
}

/// `xs` followed by the coordinates in `res`.
pub open spec fn prepend_row(xs: Seq<usize>, res: Result<Option<(Seq<usize>, int)>, ReadFailure>) -> Result<Option<(Seq<usize>, int)>, ReadFailure> {
    match res {
        Ok(Some((ys, q))) => Ok(Some((xs + ys, q))),
        Ok(None) => Ok(None),
        Err(f) => Err(f),
    }
}

/// `rs` and `vs` followed by the lines in `res`.
pub open spec fn prepend_entries(
    rs: Seq<Seq<usize>>,
    vs: Seq<i64>,
    res: Result<(Seq<Seq<usize>>, Seq<i64>), ReadFailure>,
) -> Result<(Seq<Seq<usize>>, Seq<i64>), ReadFailure> {
    match res {
        Ok((a, c)) => Ok((rs + a, vs + c)),
        Err(f) => Err(f),
    }
}

/// Reads bounds `0..ndim` of a header line, as [`parse_bounds`] says.
fn read_bounds(r: &mut LineNumberReader, ndim: usize) -> (res: Result<Vec<usize>, TensorReadError>)
    requires
        old(r).wf(),
    ensures
        final(r).wf(),
        final(r).bytes == old(r).bytes,
        match res {
            Ok(v) => parse_bounds(old(r).bytes@, old(r).pos as int, ndim as nat, 0) == Ok::<(Seq<usize>, int), ReadFailure>((v@, final(r).pos as int))
                && old(r).pos + ndim <= final(r).pos && v@.len() == ndim,
            Err(e) => parse_bounds(old(r).bytes@, old(r).pos as int, ndim as nat, 0) == Err::<(Seq<usize>, int), ReadFailure>(failure_of(e)),
        },
{
    let ghost b = r.bytes@;
    let ghost p0 = r.pos as int;
    let mut out: Vec<usize> = Vec::new();
    let mut dim: usize = 0;
    while dim < ndim
        invariant
            r.wf(),
            r.bytes == old(r).bytes,
            b == r.bytes@,
            p0 == old(r).pos,
            out@.len() == dim,
            dim <= ndim,
            p0 + dim <= r.pos,
            parse_bounds(b, p0, ndim as nat, 0) == prepend_bounds(out@, parse_bounds(b, r.pos as int, ndim as nat, dim as nat)),
        decreases ndim - dim,
    {
        let ghost p = r.pos as int;
        let skip = TokenMask { eof: false, new_line: dim == 0, comment: true, value: false };
        proof {
            lemma_scan_until(b, p, values_only(), skip);
            assert(skip == bound_skip(dim as nat));
        }
        let (token, line, column) = match read_until_token(r, value_only(), skip) {
            Ok(x) => x,
            Err(e) => {
                return Err(e);
            },
        };
        match &token {
            Token::Value(v) => {
                if !is_utf8(v.as_slice()) {
                    return Err(TensorReadError::FromUtf8Error { line, column });
                }
            },
            _ => {},
        }
        match token {
            Token::Value(v) => match parse_index(v.as_slice()) {
                Some(x) => {
                    let ghost before = out@;
                    out.push(x);
                    proof {
                        let rest = parse_bounds(b, r.pos as int, ndim as nat, (dim + 1) as nat);
                        match rest {
                            Ok((ys, q)) => {
                                assert(before + (seq![x] + ys) =~= out@ + ys);
                            },
                            Err(f) => {},
                        }
                    }
                },
                None => {
                    return Err(TensorReadError::ValueError { line, column, value: v });
                },
            },
            _ => {
                return Err(TensorReadError::ValueError { line, column, value: Vec::new() });
            },
        }
        dim = dim + 1;
    }
    proof {
        assert(out@ + Seq::<usize>::empty() =~= out@);
    }
    Ok(out)
}

/// Reads the coordinates of a line, as [`parse_row`] says; `None` at the end of the text.
fn read_row(r: &mut LineNumberReader, lo: &Vec<usize>, up: &Vec<usize>) -> (res: Result<Option<Vec<usize>>, TensorReadError>)
    requires
        old(r).wf(),
        lo@.len() == up@.len(),
    ensures
        final(r).wf(),
        final(r).bytes == old(r).bytes,
        match res {
            Ok(None) => parse_row(old(r).bytes@, old(r).pos as int, lo@, up@, lo@.len(), 0) == Ok::<Option<(Seq<usize>, int)>, ReadFailure>(None),
            Ok(Some(v)) => parse_row(old(r).bytes@, old(r).pos as int, lo@, up@, lo@.len(), 0) == Ok::<Option<(Seq<usize>, int)>, ReadFailure>(Some((v@, final(r).pos as int)))
                && v@.len() == lo@.len()
                && old(r).pos <= final(r).pos
                && forall|c: int| 0 <= c < v@.len() ==> lo@[c] <= #[trigger] v@[c] < up@[c],
            Err(e) => parse_row(old(r).bytes@, old(r).pos as int, lo@, up@, lo@.len(), 0) == Err::<Option<(Seq<usize>, int)>, ReadFailure>(failure_of(e)),
        },
{
    let ghost b = r.bytes@;
    let ghost p0 = r.pos as int;
    let ndim = lo.len();
    let mut out: Vec<usize> = Vec::new();
    let mut dim: usize = 0;
    while dim < ndim
        invariant
            r.wf(),
            r.bytes == old(r).bytes,
            b == r.bytes@,
            p0 == old(r).pos,
            p0 <= r.pos,
            ndim == lo@.len(),
            lo@.len() == up@.len(),
            out@.len() == dim,
            dim <= ndim,
            forall|c: int| 0 <= c < out@.len() ==> lo@[c] <= #[trigger] out@[c] < up@[c],
            parse_row(b, p0, lo@, up@, ndim as nat, 0) == prepend_row(out@, parse_row(b, r.pos as int, lo@, up@, ndim as nat, dim as nat)),
        decreases ndim - dim,
    {
        let ghost p = r.pos as int;
        let expect = TokenMask { eof: dim == 0, new_line: false, comment: false, value: true };
        let skip = TokenMask { eof: false, new_line: dim == 0, comment: true, value: false };
        proof {
            lemma_scan_until(b, p, expect, skip);
            assert(expect == index_expect(dim as nat));
            assert(skip == index_skip(dim as nat));
        }
        let (token, line, column) = match read_until_token(r, expect, skip) {
            Ok(x) => x,
            Err(e) => {
                return Err(e);
            },
        };
        match &token {
            Token::Value(v) => {
                if !is_utf8(v.as_slice()) {
                    return Err(TensorReadError::FromUtf8Error { line, column });
                }
            },
            _ => {},
        }
        match token {
            Token::Value(v) => match parse_index(v.as_slice()) {
                Some(x) => {
                    if x < lo[dim] || x >= up[dim] {
                        return Err(TensorReadError::IndexOutOfBoundError { line, column });
                    }
                    let ghost before = out@;
                    out.push(x);
                    proof {
                        let rest = parse_row(b, r.pos as int, lo@, up@, ndim as nat, (dim + 1) as nat);
                        match rest {
                            Ok(Some((ys, q))) => {
                                assert(before + (seq![x] + ys) =~= out@ + ys);
                            },
                            _ => {},
                        }
                    }
                },
                None => {
                    return Err(TensorReadError::ValueError { line, column, value: v });
                },
            },
            Token::Eof => {
                return Ok(None);
            },
            _ => {
                return Err(TensorReadError::ValueError { line, column, value: Vec::new() });
            },
        }
        dim = dim + 1;
    }
    proof {
        assert(out@ + Seq::<usize>::empty() =~= out@);
    }
    Ok(Some(out))
}

/// Reads the token that ends a header line; whether it was the end of the text.
fn read_line_end(r: &mut LineNumberReader, ndim: usize, skip: TokenMask) -> (res: Result<bool, TensorReadError>)
    requires
        old(r).wf(),
        !skip.eof,
    ensures
        final(r).wf(),
        final(r).bytes == old(r).bytes,
        match res {
            Ok(end) => step(old(r).bytes@, old(r).pos as int, line_end(ndim as nat), skip) == Ok::<(Scan, int), ReadFailure>(
                (if end { Scan::Eof } else { Scan::NewLine }, final(r).pos as int),
            ),
            Err(e) => step(old(r).bytes@, old(r).pos as int, line_end(ndim as nat), skip) == Err::<(Scan, int), ReadFailure>(failure_of(e)),
        },
{
    let expect = TokenMask { eof: ndim == 0, new_line: true, comment: false, value: false };
    assert(expect == line_end(ndim as nat));
    proof {
        lemma_scan_until(r.bytes@, r.pos as int, expect, skip);
    }
    match read_until_token(r, expect, skip) {
        Ok((t, _, _)) => Ok(is_token_eof(&t)),
        Err(e) => Err(e),
    }
}

/// Reads one line, as [`parse_line`] says.
fn read_entry(r: &mut LineNumberReader, lo: &Vec<usize>, up: &Vec<usize>) -> (res: Result<Option<(Vec<usize>, i64)>, TensorReadError>)
    requires
        old(r).wf(),
        lo@.len() == up@.len(),
    ensures
        final(r).wf(),
        final(r).bytes == old(r).bytes,
        match res {
            Ok(None) => parse_line(old(r).bytes@, old(r).pos as int, lo@, up@) == Ok::<Option<(Seq<usize>, i64, int)>, ReadFailure>(None),
            Ok(Some((row, x))) => parse_line(old(r).bytes@, old(r).pos as int, lo@, up@) == Ok::<Option<(Seq<usize>, i64, int)>, ReadFailure>(Some((row@, x, final(r).pos as int)))
                && old(r).pos < final(r).pos
                && row@.len() == lo@.len()
                && forall|c: int| 0 <= c < row@.len() ==> lo@[c] <= #[trigger] row@[c] < up@[c],
            Err(e) => parse_line(old(r).bytes@, old(r).pos as int, lo@, up@) == Err::<Option<(Seq<usize>, i64, int)>, ReadFailure>(failure_of(e)),
        },
{
    let ghost b = r.bytes@;
    let index = match read_row(r, lo, up) {
        Ok(Some(x)) => x,
        Ok(None) => {
            return Ok(None);
        },
        Err(e) => {
            return Err(e);
        },
    };
    let ghost q = r.pos as int;
    let skip = TokenMask { eof: false, new_line: false, comment: true, value: false };
    proof {
        lemma_scan_until(b, q, values_only(), skip);
        assert(comments_only() == skip);
    }
    let (token, line, column) = match read_until_token(r, value_only(), skip) {
        Ok(x) => x,
        Err(e) => {
            return Err(e);
        },
    };
    match &token {
        Token::Value(v) => {
            if !is_utf8(v.as_slice()) {
                return Err(TensorReadError::FromUtf8Error { line, column });
            }
        },
        _ => {},
    }
    match token {
        Token::Value(v) => match parse_value(v.as_slice()) {
            Some(x) => Ok(Some((index, x))),
            None => Err(TensorReadError::ValueError { line, column, value: v }),
        },
        _ => Err(TensorReadError::ValueError { line, column, value: Vec::new() }),
    }
}

/// One more line in front of the lines that follow it.
proof fn lemma_entries_step(
    b: Seq<u8>,
    p: int,
    lo: Seq<usize>,
    up: Seq<usize>,
    rs: Seq<Seq<usize>>,
    vs: Seq<i64>,
    row: Seq<usize>,
    x: i64,
    e: int,
)
    requires
        parse_line(b, p, lo, up) == Ok::<Option<(Seq<usize>, i64, int)>, ReadFailure>(Some((row, x, e))),
        p < e <= b.len(),
    ensures
        prepend_entries(rs, vs, parse_entries(b, p, lo, up)) == prepend_entries(
            rs.push(row),
            vs.push(x),
            parse_entries(b, e, lo, up),
        ),
{
    match parse_entries(b, e, lo, up) {
        Ok((a, c)) => {
            assert(rs + (seq![row] + a) =~= rs.push(row) + a);
            assert(vs + (seq![x] + c) =~= vs.push(x) + c);
        },
        Err(f) => {},
    }
}

/// Reads the lines from the cursor to the end, as [`parse_entries`] says: the
/// coordinates of each, and its value as a block of one.
fn read_lines(r: &mut LineNumberReader, lo: &Vec<usize>, up: &Vec<usize>) -> (res: Result<
    (Vec<Vec<usize>>, Vec<Vec<i64>>),
    TensorReadError,
>)
    requires
        old(r).wf(),
        lo@.len() == up@.len(),
    ensures
        match (res, parse_entries(old(r).bytes@, old(r).pos as int, lo@, up@)) {
            (Ok((rows, blocks)), Ok((rs, vs))) => {
                &&& rows_view(rows@) == rs
                &&& blocks_view(blocks@) == vs.map_values(|x: i64| seq![x])
                &&& rows@.len() == blocks@.len()
                &&& forall|m: int| 0 <= m < blocks@.len() ==> (#[trigger] blocks@[m])@.len() == 1
                &&& forall|m: int|
                    0 <= m < rows@.len() ==> (#[trigger] rows@[m])@.len() == lo@.len() && forall|c: int|
                        0 <= c < lo@.len() ==> lo@[c] <= #[trigger] rows@[m]@[c] < up@[c]
            },
            (Err(e), Err(f)) => failure_of(e) == f,
            _ => false,
        },
{
    let ghost b = r.bytes@;
    let ghost p0 = r.pos as int;
    let ghost mut vs: Seq<i64> = Seq::empty();
    let mut rows: Vec<Vec<usize>> = Vec::new();
    let mut blocks: Vec<Vec<i64>> = Vec::new();
    proof {
        assert(rows_view(rows@) =~= Seq::<Seq<usize>>::empty());
        match parse_entries(b, p0, lo@, up@) {
            Ok((a, c)) => {
                assert(Seq::<Seq<usize>>::empty() + a =~= a);
                assert(Seq::<i64>::empty() + c =~= c);
            },
            Err(f) => {},
        }
    }
    loop
        invariant
            r.wf(),
            r.bytes@ == b,
            b == old(r).bytes@,
            p0 == old(r).pos,
            lo@.len() == up@.len(),
            rows@.len() == blocks@.len(),
            forall|m: int| 0 <= m < blocks@.len() ==> (#[trigger] blocks@[m])@.len() == 1,
            blocks_view(blocks@) == vs.map_values(|x: i64| seq![x]),
            forall|m: int|
                0 <= m < rows@.len() ==> (#[trigger] rows@[m])@.len() == lo@.len() && forall|c: int|
                    0 <= c < lo@.len() ==> lo@[c] <= #[trigger] rows@[m]@[c] < up@[c],
            parse_entries(b, p0, lo@, up@) == prepend_entries(rows_view(rows@), vs, parse_entries(b, r.pos as int, lo@, up@)),
        decreases r.rest(),
    {
        let ghost p = r.pos as int;
        let (index, value) = match read_entry(r, lo, up) {
            Ok(Some(x)) => x,
            Ok(None) => {
                proof {
                    assert(parse_entries(b, p, lo@, up@) == Ok::<(Seq<Seq<usize>>, Seq<i64>), ReadFailure>(
                        (Seq::<Seq<usize>>::empty(), Seq::<i64>::empty()),
                    ));
                    assert(rows_view(rows@) + Seq::<Seq<usize>>::empty() =~= rows_view(rows@));
                    assert(vs + Seq::<i64>::empty() =~= vs);
                }
                return Ok((rows, blocks));
            },
            Err(e) => {
                proof {
                    assert(parse_entries(b, p, lo@, up@) == Err::<(Seq<Seq<usize>>, Seq<i64>), ReadFailure>(failure_of(e)));
                }
                return Err(e);
            },
        };
        proof {
            lemma_entries_step(b, p, lo@, up@, rows_view(rows@), vs, index@, value, r.pos as int);
        }
        let mut block: Vec<i64> = Vec::new();
        block.push(value);
        proof {
            assert(block@ =~= seq![value]);
        }
        let ghost rv = rows_view(rows@);
        let ghost bv = blocks_view(blocks@);
        rows.push(index);
        blocks.push(block);
        proof {
            vs = vs.push(value);
            assert(rows_view(rows@) =~= rv.push(index@));
            assert(blocks_view(blocks@) =~= bv.push(seq![value]));
            assert(blocks_view(blocks@) =~= vs.map_values(|x: i64| seq![x]));
        }
    }
}

impl COOTensor {
    /// Reads a tensor from its text, as [`parse_text`] says; each of its axes gets a
    /// fresh identity from `ids`. All axes of the tensor are sparse, its ranges are the
    /// bounds of the header, and its blocks are the lines, in order.
    #[verifier::rlimit(100)]
    pub fn read_from_text(text: Vec<u8>, ids: &mut AxisIds) -> (res: Result<COOTensor, TensorReadError>)
        requires
            text@.len() < u64::MAX,
            old(ids).has_room(text@.len()),
        ensures
            final(ids).next >= old(ids).next,
            match (res, parse_text(text@)) {
                (Ok(t), Ok((lo, up, rs, vs))) => {
                    &&& t.wf()
                    &&& t.dense_axes@.len() == 0
                    &&& t.sparse_view() == t.shape_view()
                    &&& t.name.is_none()
                    &&& lowers(t.shape_view()) == lo
                    &&& uppers(t.shape_view()) == up
                    &&& t.rows() == rs
                    &&& t.blocks() == vs.map_values(|x: i64| seq![x])
                    &&& t.sparse_is_sorted == (rs.len() == 0)
                    &&& forall|i: int|
                        0 <= i < t.shape@.len() ==> (#[trigger] t.shape@[i]).id == old(ids).next + i
                            && t.shape@[i].label.is_none()
                },
                (Err(e), Err(f)) => failure_of(e) == f,
                _ => false,
            },
    {
        let ghost b = text@;
        let ghost n_text = text@.len();
        let ghost first_id = ids.next;
        let mut r = LineNumberReader::new(text);
        proof {
            lemma_scan_until(b, 0, values_only(), comments_and_lines());
        }
        let (token, line, column) = match read_until_token(
            &mut r,
            value_only(),
            TokenMask { eof: false, new_line: true, comment: true, value: false },
        ) {
            Ok(x) => x,
            Err(e) => {
                return Err(e);
            },
        };
        match &token {
            Token::Value(v) => {
                if !is_utf8(v.as_slice()) {
                    return Err(TensorReadError::FromUtf8Error { line, column });
                }
            },
            _ => {},
        }
        let ndim = match token {
            Token::Value(v) => match parse_index(v.as_slice()) {
                Some(n) => n,
                None => {
                    return Err(TensorReadError::ValueError { line, column, value: v });
                },
            },
            _ => {
                return Err(TensorReadError::ValueError { line, column, value: Vec::new() });
            },
        };
        let end1 = match read_line_end(&mut r, ndim, TokenMask { eof: false, new_line: true, comment: true, value: false }) {
            Ok(x) => x,
            Err(e) => {
                return Err(e);
            },
        };
        let lower = match read_bounds(&mut r, ndim) {
            Ok(x) => x,
            Err(e) => {
                return Err(e);
            },
        };
        let end2 = match read_line_end(&mut r, ndim, TokenMask { eof: false, new_line: false, comment: true, value: false }) {
            Ok(x) => x,
            Err(e) => {
                return Err(e);
            },
        };
        let upper = match read_bounds(&mut r, ndim) {
            Ok(x) => x,
            Err(e) => {
                return Err(e);
            },
        };
        let end3 = match read_line_end(&mut r, ndim, TokenMask { eof: false, new_line: false, comment: true, value: false }) {
            Ok(x) => x,
            Err(e) => {
                return Err(e);
            },
        };
        let ghost p6 = r.pos as int;
        let eof = end1 || end2 || end3;
        proof {
            assert(comments_and_lines() == (TokenMask { eof: false, new_line: true, comment: true, value: false }));
            assert(comments_only() == (TokenMask { eof: false, new_line: false, comment: true, value: false }));
            assert(parse_text(b) == parse_body(b, p6, lower@, upper@, eof));
        }
        // The tensor, all of whose axes are sparse.
        let mut shape: Vec<Axis> = Vec::new();
        let mut dim: usize = 0;
        while dim < ndim
            invariant
                lower@.len() == ndim,
                upper@.len() == ndim,
                dim <= ndim,
                ndim <= n_text,
                shape@.len() == dim,
                ids.next == first_id + dim,
                first_id + n_text <= u64::MAX,
                first_id == old(ids).next,
                forall|i: int|
                    0 <= i < dim ==> (#[trigger] shape@[i]).id == first_id + i && shape@[i].label.is_none()
                        && shape@[i].lower == lower@[i] && shape@[i].upper == upper@[i],
            decreases ndim - dim,
        {
            shape.push(AxisBuilder::new().range(lower[dim]..upper[dim]).build(ids));
            dim = dim + 1;
        }
        let (rows, blocks) = if eof {
            (Vec::new(), Vec::new())
        } else {
            match read_lines(&mut r, &lower, &upper) {
                Ok(x) => x,
                Err(e) => {
                    return Err(e);
                },
            }
        };
        let sorted = rows.len() == 0;
        let tensor = COOTensor {
            name: None,
            shape: copy_axes(shape.as_slice()),
            sparse_axes: copy_axes(shape.as_slice()),
            dense_axes: Vec::new(),
            indices: rows,
            values: blocks,
            sparse_is_sorted: sorted,
            sparse_sort_order: shape,
        };
        proof {
            assert(tensor.dense_view() =~= Seq::empty());
            assert(block_size_of(tensor.dense_view()) == 1);
            assert(tensor.shape_view().len() == tensor.shape@.len());
            assert(tensor.sparse_view().len() == tensor.sparse_axes@.len());
            assert forall|i: int| 0 <= i < tensor.shape@.len() implies (#[trigger] tensor.shape@[i]).id
                == first_id + i && tensor.shape@[i].label.is_none() && tensor.shape@[i].lower == lower@[i]
                && tensor.shape@[i].upper == upper@[i] by {
                assert(tensor.shape_view()[i] == tensor.shape@[i]@);
                assert(axes_view(tensor.sparse_sort_order@)[i] == tensor.sparse_sort_order@[i]@);
            }
            assert(lowers(tensor.shape_view()) =~= lower@);
            assert(uppers(tensor.shape_view()) =~= upper@);
            if eof {
                assert(tensor.rows() =~= Seq::<Seq<usize>>::empty());
                assert(tensor.blocks() =~= Seq::<i64>::empty().map_values(|x: i64| seq![x]));
            }
            assert forall|m: int| 0 <= m < tensor.indices@.len() implies row_in_range(
                #[trigger] tensor.indices@[m]@,
                tensor.sparse_view(),
            ) by {
                assert forall|c: int| 0 <= c < tensor.indices@[m]@.len() implies #[trigger] tensor.sparse_view()[c].contains(
                    tensor.indices@[m]@[c],
                ) by {
                    assert(tensor.sparse_view()[c] == tensor.shape_view()[c]);
                    assert(tensor.shape_view()[c] == tensor.shape@[c]@);
                }
            }
            assert forall|m: int| 0 <= m < tensor.values@.len() implies (#[trigger] tensor.values@[m])@.len()
                == tensor.block_len() by {
                assert(tensor.blocks()[m] == tensor.values@[m]@);
            }
        }
        Ok(tensor)
    }
}

/// The decimal digits of `n`.
pub open spec fn decimal(n: nat) -> Seq<u8>
    decreases n,
{
    if n < 10 {
        seq![(48 + n) as u8]
    } else {
        decimal(n / 10).push((48 + n % 10) as u8)
    }
}

/// The decimal text of `v`, with a leading `-` when it is negative.
pub open spec fn signed_decimal(v: int) -> Seq<u8> {
    if v < 0 {
        seq![45u8] + decimal((-v) as nat)
    } else {
        decimal(v as nat)
    }
}

/// The first `n` numbers of `nums` in decimal, separated by single tabs.
pub open spec fn tab_separated(nums: Seq<usize>, n: int) -> Seq<u8>
    decreases n,
{
    if n <= 0 {
        Seq::empty()
    } else if n == 1 {
        decimal(nums[0] as nat)
    } else {
        tab_separated(nums, n - 1) + seq![9u8] + decimal(nums[n - 1] as nat)
    }
}

/// The first `n` coordinates of `row` in decimal, each followed by a tab.
pub open spec fn tabbed(row: Seq<usize>, n: int) -> Seq<u8>
    decreases n,
{
    if n <= 0 {
        Seq::empty()
    } else {
        tabbed(row, n - 1) + decimal(row[n - 1] as nat) + seq![9u8]
    }
}

/// The line of one value: its logical index, each coordinate followed by a tab, then the value.
pub open spec fn entry_line(index: Seq<usize>, value: i64) -> Seq<u8> {
    tabbed(index, index.len() as int) + signed_decimal(value as int) + seq![10u8]
}

/// The lines of the first `n` stored values of `t`, in the order of [`COOTensor::iter`].
pub open spec fn entry_lines(t: COOTensor, n: int) -> Seq<u8>
    decreases n,
{
    if n <= 0 {
        Seq::empty()
    } else {
        let p = t.block_len() as int;
        entry_lines(t, n - 1) + entry_line(
            logical_index(t, (n - 1) / p, (n - 1) % p),
            t.blocks()[(n - 1) / p][(n - 1) % p],
        )
    }
}

/// The lower bounds of `axes`.
pub open spec fn lowers(axes: Seq<crate::axis::AxisModel>) -> Seq<usize> {
    axes.map_values(|a: crate::axis::AxisModel| a.lower)
}

/// The upper bounds of `axes`.
pub open spec fn uppers(axes: Seq<crate::axis::AxisModel>) -> Seq<usize> {
    axes.map_values(|a: crate::axis::AxisModel| a.upper)
}

/// The comment line that names the tensor, if it has a name: `# name`.
pub open spec fn name_lines(name: Option<String>) -> Seq<u8> {
    match name {
        Some(s) => seq![35u8, 32u8] + encode_utf8(s@) + seq![10u8],
        None => Seq::empty(),
    }
}

/// Whether some axis has a label.
pub open spec fn has_label(axes: Seq<crate::axis::AxisModel>) -> bool {
    exists|i: int| 0 <= i < axes.len() && (#[trigger] axes[i]).label.is_some()
}

/// The comment line of axis `i`: `# Axis i: label`, or `# Axis i has no label`.
pub open spec fn label_line(i: nat, label: Option<Seq<char>>) -> Seq<u8> {
    seq![35u8, 32u8, 65u8, 120u8, 105u8, 115u8, 32u8] + decimal(i) + match label {
        Some(l) => seq![58u8, 32u8] + encode_utf8(l) + seq![10u8],
        None => seq![32u8, 104u8, 97u8, 115u8, 32u8, 110u8, 111u8, 32u8, 108u8, 97u8, 98u8, 101u8, 108u8, 10u8],
    }
}

/// The comment lines of the first `k` axes.
pub open spec fn label_lines(axes: Seq<crate::axis::AxisModel>, k: int) -> Seq<u8>
    decreases k,
{
    if k <= 0 {
        Seq::empty()
    } else {
        label_lines(axes, k - 1) + label_line((k - 1) as nat, axes[k - 1].label)
    }
}

/// The comment lines of the axes, written when some axis has a label.
pub open spec fn axis_lines(axes: Seq<crate::axis::AxisModel>) -> Seq<u8> {
    if has_label(axes) {
        label_lines(axes, axes.len() as int)
    } else {
        Seq::empty()
    }
}

/// The text of a tensor: its name as a comment, the number of axes, the labels of
/// the axes as comments, the lower and the upper bounds, then one line for each
/// stored value.
pub open spec fn text_of(t: COOTensor) -> Seq<u8> {
    let n = t.shape@.len();
    if n == 0 {
        name_lines(t.name) + decimal(0) + seq![10u8]
    } else {
        name_lines(t.name) + decimal(n as nat) + seq![10u8] + axis_lines(t.shape_view()) + tab_separated(
            lowers(t.shape_view()),
            n as int,
        ) + seq![10u8] + tab_separated(uppers(t.shape_view()), n as int) + seq![10u8] + entry_lines(
            t,
            (t.indices@.len() * t.block_len()) as int,
        )
    }
}

/// Appends `bytes`.
fn push_all(out: &mut Vec<u8>, bytes: &[u8])
    ensures
        final(out)@ == old(out)@ + bytes@,
{
    let mut i: usize = 0;
    while i < bytes.len()
        invariant
            i <= bytes@.len(),
            out@ == old(out)@ + bytes@.subrange(0, i as int),
        decreases bytes@.len() - i,
    {
        out.push(bytes[i]);
        i = i + 1;
        assert(out@ =~= old(out)@ + bytes@.subrange(0, i as int));
    }
    assert(bytes@.subrange(0, bytes@.len() as int) =~= bytes@);
}

/// Appends the bytes of `s`.
fn push_text(out: &mut Vec<u8>, s: &String)
    ensures
        final(out)@ == old(out)@ + encode_utf8(s@),
{
    let bytes = s.as_str().as_bytes();
    push_all(out, bytes);
}

/// Appends the comment line that names the tensor, if it has a name.
fn push_name(out: &mut Vec<u8>, name: &Option<String>)
    ensures
        final(out)@ == old(out)@ + name_lines(*name),
{
    match name {
        Some(s) => {
            out.push(35);
            out.push(32);
            push_text(out, s);
            out.push(10);
            assert(out@ =~= old(out)@ + name_lines(*name));
        },
        None => {
            assert(out@ =~= old(out)@ + name_lines(*name));
        },
    }
}

/// Appends the comment line of axis `i`.
fn push_label_line(out: &mut Vec<u8>, i: usize, label: &Option<String>)
    ensures
        final(out)@ == old(out)@ + label_line(i as nat, crate::axis::label_view(*label)),
{
    let ghost start = out@;
    out.push(35);
    out.push(32);
    out.push(65);
    out.push(120);
    out.push(105);
    out.push(115);
    out.push(32);
    push_decimal(out, i as u64);
    let ghost mid = out@;
    match label {
        Some(l) => {
            out.push(58);
            out.push(32);
            push_text(out, l);
            out.push(10);
        },
        None => {
            out.push(32);
            out.push(104);
            out.push(97);
            out.push(115);
            out.push(32);
            out.push(110);
            out.push(111);
            out.push(32);
            out.push(108);
            out.push(97);
            out.push(98);
            out.push(101);
            out.push(108);
            out.push(10);
        },
    }
    assert(out@ =~= start + label_line(i as nat, crate::axis::label_view(*label)));
}

/// Appends the comment lines of the axes, when some axis has a label.
fn push_axis_lines(out: &mut Vec<u8>, axes: &Vec<crate::axis::Axis>)
    ensures
        final(out)@ == old(out)@ + axis_lines(crate::axis::axes_view(axes@)),
{
    let ghost v = crate::axis::axes_view(axes@);
    let mut any = false;
    let mut i: usize = 0;
    while i < axes.len()
        invariant
            i <= axes@.len(),
            v == crate::axis::axes_view(axes@),
            any == exists|j: int| 0 <= j < i && (#[trigger] v[j]).label.is_some(),
        decreases axes@.len() - i,
    {
        if axes[i].label.is_some() {
            any = true;
            assert(v[i as int].label.is_some());
        }
        i = i + 1;
    }
    if !any {
        assert(!has_label(v));
        assert(out@ =~= old(out)@ + axis_lines(v));
        return;
    }
    assert(has_label(v));
    let mut i: usize = 0;
    while i < axes.len()
        invariant
            i <= axes@.len(),
            v == crate::axis::axes_view(axes@),
            out@ == old(out)@ + label_lines(v, i as int),
        decreases axes@.len() - i,
    {
        push_label_line(out, i, &axes[i].label);
        proof {
            assert(v[i as int].label == crate::axis::label_view(axes@[i as int].label));
        }
        i = i + 1;
        assert(out@ =~= old(out)@ + label_lines(v, i as int));
    }
}

pub proof fn lemma_decimal_digits(n: nat)
    ensures
        decimal(n).len() > 0,
        all_digits(decimal(n)),
        decimal_value(decimal(n)) == n,
        48 <= decimal(n)[0] <= 57,
    decreases n,
{
    if n >= 10 {
        lemma_decimal_digits(n / 10);
        let d = decimal(n / 10);
        let s = decimal(n);
        assert(s == d.push((48 + n % 10) as u8));
        assert(s.drop_last() =~= d);
        assert(s[0] == d[0]);
        assert(s.last() == (48 + n % 10) as u8);
        assert((s.last() - 48) as nat == n % 10);
        assert(decimal_value(s) == decimal_value(d) * 10 + n % 10);
        assert(n == (n / 10) * 10 + n % 10) by (nonlinear_arith);
    } else {
        let s = decimal(n);
        assert(s == seq![(48 + n) as u8]);
        assert(s.drop_last() =~= Seq::<u8>::empty());
        assert(decimal_value(s.drop_last()) == 0);
        assert(s.last() == (48 + n) as u8);
        assert((s.last() - 48) as nat == n);
        assert(decimal_value(s) == decimal_value(s.drop_last()) * 10 + (s.last() - 48) as nat);
    }
}

/// Every index and every value the writer prints reads back as itself: the digits
/// of `n`, with no sign, are read as `n`, and the signed digits of `v` as `v`.
pub proof fn lemma_number_round_trip(n: usize, v: i64)
    ensures
        ({
            let d = unsigned_part(decimal(n as nat), 43);
            &&& d.len() > 0 && all_digits(d) && decimal_value(d) == n
        }),
        ({
            let t = signed_decimal(v as int);
            &&& signed_digits(t).len() > 0
            &&& all_digits(signed_digits(t))
            &&& signed_value(t) == v
        }),
{
    lemma_decimal_digits(n as nat);
    if v < 0 {
        let m = (-v) as nat;
        lemma_decimal_digits(m);
        let t = signed_decimal(v as int);
        assert(t == seq![45u8] + decimal(m));
        assert(t.subrange(1, t.len() as int) =~= decimal(m));
    } else {
        lemma_decimal_digits(v as nat);
    }
}

/// Appends the decimal digits of `n`.
pub fn push_decimal(out: &mut Vec<u8>, n: u64)
    ensures
        final(out)@ == old(out)@ + decimal(n as nat),
    decreases n,
{
    if n >= 10 {
        push_decimal(out, n / 10);
    }
    out.push((48 + n % 10) as u8);
    proof {
        assert(final(out)@ =~= old(out)@ + decimal(n as nat));
    }
}

/// Appends the decimal text of `v`.
pub fn push_signed(out: &mut Vec<u8>, v: i64)
    ensures
        final(out)@ == old(out)@ + signed_decimal(v as int),
{
    if v < 0 {
        out.push(45);
        let magnitude: u64 = if v == i64::MIN {
            9223372036854775808u64
        } else {
            (-v) as u64
        };
        push_decimal(out, magnitude);
        assert(final(out)@ =~= old(out)@ + signed_decimal(v as int));
    } else {
        push_decimal(out, v as u64);
    }
}

/// Appends the bounds `nums` in decimal, separated by tabs, and a line feed.
fn push_bounds(out: &mut Vec<u8>, nums: &Vec<usize>)
    ensures
        final(out)@ == old(out)@ + tab_separated(nums@, nums@.len() as int) + seq![10u8],
{
    let mut i: usize = 0;
    while i < nums.len()
        invariant
            i <= nums@.len(),
            out@ == old(out)@ + tab_separated(nums@, i as int),
        decreases nums@.len() - i,
    {
        if i > 0 {
            out.push(9);
        }
        push_decimal(out, nums[i] as u64);
        i = i + 1;
        assert(out@ =~= old(out)@ + tab_separated(nums@, i as int));
    }
    out.push(10);
}

impl COOTensor {
    /// Writes the tensor as text, one line for each stored value.
    pub fn write_to_text(&self) -> (r: Vec<u8>)
        requires
            self.wf(),
            axes_in_shape(*self),
            self.indices@.len() * self.block_len() <= usize::MAX,
        ensures
            r@ == text_of(*self),
    {
        let t = self;
        let mut out: Vec<u8> = Vec::new();
        let n = t.shape.len();
        push_name(&mut out, &t.name);
        push_decimal(&mut out, n as u64);
        out.push(10);
        if n == 0 {
            return out;
        }
        push_axis_lines(&mut out, &t.shape);
        let mut lo: Vec<usize> = Vec::new();
        let mut up: Vec<usize> = Vec::new();
        let mut i: usize = 0;
        while i < n
            invariant
                n == t.shape@.len(),
                i <= n,
                lo@ == lowers(t.shape_view()).subrange(0, i as int),
                up@ == uppers(t.shape_view()).subrange(0, i as int),
            decreases n - i,
        {
            lo.push(t.shape[i].lower);
            up.push(t.shape[i].upper);
            i = i + 1;
            assert(lo@ =~= lowers(t.shape_view()).subrange(0, i as int));
            assert(up@ =~= uppers(t.shape_view()).subrange(0, i as int));
        }
        assert(lo@ =~= lowers(t.shape_view()));
        assert(up@ =~= uppers(t.shape_view()));
        push_bounds(&mut out, &lo);
        push_bounds(&mut out, &up);
        let ghost head = out@;
        let entries = t.iter();
        let mut e: usize = 0;
        while e < entries.len()
            invariant
                t.wf(),
                e <= entries@.len(),
                entries@.len() == t.indices@.len() * t.block_len(),
                forall|x: int|
                    0 <= x < entries@.len() ==> {
                        let m = x / t.block_len() as int;
                        let q = x % t.block_len() as int;
                        &&& (#[trigger] entries@[x]).0@ == logical_index(*t, m, q)
                        &&& entries@[x].1 == t.blocks()[m][q]
                    },
                out@ == head + entry_lines(*t, e as int),
            decreases entries@.len() - e,
        {
            let index = &entries[e].0;
            let ghost line_start = out@;
            let mut c: usize = 0;
            while c < index.len()
                invariant
                    c <= index@.len(),
                    out@ == line_start + tabbed(index@, c as int),
                decreases index@.len() - c,
            {
                push_decimal(&mut out, index[c] as u64);
                out.push(9);
                c = c + 1;
                assert(out@ =~= line_start + tabbed(index@, c as int));
            }
            push_signed(&mut out, entries[e].1);
            out.push(10);
            e = e + 1;
            proof {
                assert(out@ =~= head + entry_lines(*t, e as int));
            }
        }
        out
    }
}

} // verus!
