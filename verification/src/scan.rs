//! The executable extractor: a single-lookahead byte cursor and one function
//! per grammar production.
//!
//! Every consumed byte of a value, structural punctuation, whitespace
//! between tokens inside the value, and string contents alike, is appended
//! verbatim to the caller's output buffer: the extractor recognizes
//! boundaries, it never re-serializes.  On failure the buffer is left
//! partially filled and must be discarded by the caller.

use vstd::prelude::*;

use crate::errors::ParseError;
use crate::grammar::{
    is_token_byte, is_ws, members_end, items_end, object_end, array_end, str_body_end, tok_end,
    value_end, ws_end, lemma_str_body_end, lemma_tok_end, lemma_ws_end,
    BACKSLASH, COLON, COMMA, LEFT_BRACE, LEFT_BRACKET, QUOTE, RIGHT_BRACE, RIGHT_BRACKET,
};

verus! {

/// A reader over a byte buffer with one byte of lookahead.  `peek` is only
/// valid while a byte is known to be available; asking for more is a
/// programming error, which the contracts rule out.
pub struct ByteCursor {
    bytes: Vec<u8>,
    pos: usize,
}

impl ByteCursor {
    /// The whole underlying input.
    pub closed spec fn input(&self) -> Seq<u8> {
        self.bytes@
    }

    /// How many bytes have been consumed.
    pub closed spec fn position(&self) -> int {
        self.pos as int
    }

    pub open spec fn wf(&self) -> bool {
        0 <= self.position() <= self.input().len()
    }

    pub fn new(bytes: Vec<u8>) -> (c: ByteCursor)
        ensures
            c.input() == bytes@,
            c.position() == 0,
            c.wf(),
    {
        ByteCursor { bytes, pos: 0 }
    }

    /// Whether a byte is still available.
    pub fn has_next(&self) -> (r: bool)
        requires
            self.wf(),
        ensures
            r == (self.position() < self.input().len()),
    {
        self.pos < self.bytes.len()
    }

    /// The next unconsumed byte, without advancing.
    pub fn peek(&self) -> (b: u8)
        requires
            self.wf(),
            self.position() < self.input().len(),
        ensures
            b == self.input()[self.position()],
    {
        self.bytes[self.pos]
    }

    /// Returns and consumes the current lookahead byte.
    pub fn advance(&mut self) -> (b: u8)
        requires
            old(self).wf(),
            old(self).position() < old(self).input().len(),
        ensures
            final(self).input() == old(self).input(),
            final(self).position() == old(self).position() + 1,
            final(self).wf(),
            b == old(self).input()[old(self).position()],
    {
        let b = self.bytes[self.pos];
        // the length bounds the position, so the step cannot overflow
        let _n = self.bytes.len();
        self.pos = self.pos + 1;
        b
    }
}

/// Exec mirror of [`is_ws`].
fn ws_byte(b: u8) -> (r: bool)
    ensures
        r == is_ws(b),
{
    b == 0x20 || b == 0x09 || b == 0x0a || b == 0x0d
}

/// Exec mirror of [`is_token_byte`].
fn token_byte(b: u8) -> (r: bool)
    ensures
        r == is_token_byte(b),
{
    (0x30 <= b && b <= 0x39) || (0x61 <= b && b <= 0x7a) || (0x41 <= b && b <= 0x46) || b == 0x4e
        || b == 0x49 || b == 0x2e || b == 0x2d || b == 0x2b
}

proof fn lemma_concat_subrange(prefix: Seq<u8>, s: Seq<u8>, a: int, b: int, c: int)
    requires
        0 <= a <= b <= c <= s.len(),
    ensures
        (prefix + s.subrange(a, b)) + s.subrange(b, c) == prefix + s.subrange(a, c),
{
    assert((prefix + s.subrange(a, b)) + s.subrange(b, c) =~= prefix + s.subrange(a, c));
}

proof fn lemma_push_subrange(prefix: Seq<u8>, s: Seq<u8>, a: int, b: int)
    requires
        0 <= a <= b < s.len(),
    ensures
        (prefix + s.subrange(a, b)).push(s[b]) == prefix + s.subrange(a, b + 1),
{
    assert((prefix + s.subrange(a, b)).push(s[b]) =~= prefix + s.subrange(a, b + 1));
}

proof fn lemma_empty_subrange(prefix: Seq<u8>, s: Seq<u8>, a: int)
    requires
        0 <= a <= s.len(),
    ensures
        prefix + s.subrange(a, a) == prefix,
{
    assert(prefix + s.subrange(a, a) =~= prefix);
}

/// Consume whitespace and throw it away.  Used between documents, where the
/// whitespace belongs to no document.
pub fn drop_whitespace(cur: &mut ByteCursor)
    requires
        old(cur).wf(),
    ensures
        final(cur).input() == old(cur).input(),
        final(cur).position() == ws_end(old(cur).input(), old(cur).position()),
        final(cur).wf(),
{
    let ghost s = cur.input();
    let ghost p0 = cur.position();
    loop
        invariant
            cur.wf(),
            cur.input() == s,
            0 <= p0 <= cur.position(),
            ws_end(s, cur.position()) == ws_end(s, p0),
        ensures
            cur.wf(),
            cur.input() == s,
            cur.position() == ws_end(s, p0),
        decreases s.len() - cur.position(),
    {
        if !cur.has_next() {
            break;
        }
        if !ws_byte(cur.peek()) {
            break;
        }
        cur.advance();
    }
}

/// Consume whitespace and append it to the buffer.  Used inside a value,
/// whose internal whitespace is part of the document.
pub fn copy_whitespace(cur: &mut ByteCursor, buf: &mut Vec<u8>)
    requires
        old(cur).wf(),
    ensures
        final(cur).input() == old(cur).input(),
        final(cur).position() == ws_end(old(cur).input(), old(cur).position()),
        final(cur).wf(),
        final(buf)@ == old(buf)@ + old(cur).input().subrange(
            old(cur).position(),
            final(cur).position(),
        ),
{
    let ghost s = cur.input();
    let ghost p0 = cur.position();
    let ghost b0 = buf@;
    proof {
        lemma_empty_subrange(b0, s, p0);
    }
    loop
        invariant
            cur.wf(),
            cur.input() == s,
            0 <= p0 <= cur.position(),
            ws_end(s, cur.position()) == ws_end(s, p0),
            buf@ == b0 + s.subrange(p0, cur.position()),
        ensures
            cur.wf(),
            cur.input() == s,
            cur.position() == ws_end(s, p0),
            buf@ == b0 + s.subrange(p0, cur.position()),
        decreases s.len() - cur.position(),
    {
        if !cur.has_next() {
            break;
        }
        if !ws_byte(cur.peek()) {
            break;
        }
        let ghost p = cur.position();
        let b = cur.advance();
        buf.push(b);
        proof {
            lemma_push_subrange(b0, s, p0, p);
        }
    }
}

/// Consume one string, opening quote through closing quote, appending its
/// exact bytes.  A backslash always takes the next raw byte with it; an
/// unescaped byte below 0x20 is rejected.
#[verifier::loop_isolation(false)]
pub fn read_string(cur: &mut ByteCursor, buf: &mut Vec<u8>) -> (r: Result<(), ParseError>)
    requires
        old(cur).wf(),
        old(cur).position() < old(cur).input().len(),
        old(cur).input()[old(cur).position()] == QUOTE,
    ensures
        final(cur).input() == old(cur).input(),
        final(cur).wf(),
        old(cur).position() <= final(cur).position(),
        ({
            let s = old(cur).input();
            let p0 = old(cur).position();
            match r {
                Ok(_) => str_body_end(s, p0 + 1) == Ok::<int, ParseError>(final(cur).position())
                    && p0 < final(cur).position()
                    && final(buf)@ == old(buf)@ + s.subrange(p0, final(cur).position()),
                Err(e) => str_body_end(s, p0 + 1) == Err::<int, ParseError>(e),
            }
        }),
{
    let ghost s = cur.input();
    let ghost p0 = cur.position();
    let ghost b0 = buf@;
    proof {
        lemma_empty_subrange(b0, s, p0);
    }
    let q = cur.advance();
    buf.push(q);
    proof {
        lemma_push_subrange(b0, s, p0, p0);
    }
    loop
        invariant
            cur.wf(),
            cur.input() == s,
            p0 < cur.position() <= s.len(),
            str_body_end(s, cur.position()) == str_body_end(s, p0 + 1),
            buf@ == b0 + s.subrange(p0, cur.position()),
        decreases s.len() - cur.position(),
    {
        if !cur.has_next() {
            return Err(ParseError::UnexpectedEndOfInput);
        }
        let ghost p = cur.position();
        let b = cur.advance();
        buf.push(b);
        proof {
            lemma_push_subrange(b0, s, p0, p);
        }
        if b == BACKSLASH {
            if !cur.has_next() {
                return Err(ParseError::UnexpectedEndOfInput);
            }
            let ghost p2 = cur.position();
            let c = cur.advance();
            buf.push(c);
            proof {
                lemma_push_subrange(b0, s, p0, p2);
            }
        } else if b == QUOTE {
            return Ok(());
        } else if b < 0x20 {
            return Err(ParseError::ControlCharacterInString);
        }
    }
}

/// Consume the maximal run of token bytes, appending it.  Zero matching
/// bytes is an error; the cursor and the buffer are then unchanged.
pub fn read_num(cur: &mut ByteCursor, buf: &mut Vec<u8>) -> (r: Result<(), ParseError>)
    requires
        old(cur).wf(),
    ensures
        final(cur).input() == old(cur).input(),
        final(cur).wf(),
        old(cur).position() <= final(cur).position(),
        ({
            let s = old(cur).input();
            let p0 = old(cur).position();
            match r {
                Ok(_) => tok_end(s, p0) > p0 && final(cur).position() == tok_end(s, p0)
                    && final(buf)@ == old(buf)@ + s.subrange(p0, final(cur).position()),
                Err(e) => e == ParseError::EmptyToken && tok_end(s, p0) == p0
                    && final(cur).position() == p0 && final(buf)@ == old(buf)@,
            }
        }),
{
    let ghost s = cur.input();
    let ghost p0 = cur.position();
    let ghost b0 = buf@;
    proof {
        lemma_empty_subrange(b0, s, p0);
    }
    let mut matched = false;
    loop
        invariant
            cur.wf(),
            cur.input() == s,
            0 <= p0 <= cur.position(),
            matched == (cur.position() > p0),
            tok_end(s, cur.position()) == tok_end(s, p0),
            buf@ == b0 + s.subrange(p0, cur.position()),
        ensures
            cur.wf(),
            cur.input() == s,
            matched == (cur.position() > p0),
            cur.position() == tok_end(s, p0),
            buf@ == b0 + s.subrange(p0, cur.position()),
        decreases s.len() - cur.position(),
    {
        if !cur.has_next() {
            break;
        }
        if !token_byte(cur.peek()) {
            break;
        }
        let ghost p = cur.position();
        let b = cur.advance();
        buf.push(b);
        matched = true;
        proof {
            lemma_push_subrange(b0, s, p0, p);
        }
    }
    if matched {
        Ok(())
    } else {
        Err(ParseError::EmptyToken)
    }
}

/// Consume one object, `{` through its matching `}`, appending its exact
/// bytes.  One round of the member loop is key string, `:`, value; `,`
/// continues, `}` closes.
#[verifier::loop_isolation(false)]
pub fn read_doc(cur: &mut ByteCursor, buf: &mut Vec<u8>) -> (r: Result<(), ParseError>)
    requires
        old(cur).wf(),
        old(cur).position() < old(cur).input().len(),
        old(cur).input()[old(cur).position()] == LEFT_BRACE,
    ensures
        final(cur).input() == old(cur).input(),
        final(cur).wf(),
        old(cur).position() <= final(cur).position(),
        ({
            let s = old(cur).input();
            let p0 = old(cur).position();
            match r {
                Ok(_) => object_end(s, p0 + 1) == Ok::<int, ParseError>(final(cur).position())
                    && p0 < final(cur).position()
                    && final(buf)@ == old(buf)@ + s.subrange(p0, final(cur).position()),
                Err(e) => object_end(s, p0 + 1) == Err::<int, ParseError>(e),
            }
        }),
    decreases cur.input().len() - cur.position(), 0int,
{
    let ghost s = cur.input();
    let ghost p0 = cur.position();
    let ghost b0 = buf@;
    proof {
        lemma_empty_subrange(b0, s, p0);
    }
    let br = cur.advance();
    buf.push(br);
    proof {
        lemma_push_subrange(b0, s, p0, p0);
        lemma_ws_end(s, p0 + 1);
    }
    copy_whitespace(cur, buf);
    proof {
        lemma_concat_subrange(b0, s, p0, p0 + 1, cur.position());
    }
    if !cur.has_next() {
        return Err(ParseError::UnexpectedEndOfInput);
    }
    if cur.peek() == RIGHT_BRACE {
        let ghost pk = cur.position();
        let cb = cur.advance();
        buf.push(cb);
        proof {
            lemma_push_subrange(b0, s, p0, pk);
        }
        return Ok(());
    }
    let ghost target = object_end(s, p0 + 1);
    proof {
        assert(target == members_end(s, cur.position()));
    }
    loop
        invariant
            cur.wf(),
            cur.input() == s,
            p0 < cur.position() <= s.len(),
            members_end(s, cur.position()) == target,
            buf@ == b0 + s.subrange(p0, cur.position()),
        decreases s.len() - cur.position(),
    {
        let ghost pk = cur.position();
        if !cur.has_next() {
            return Err(ParseError::UnexpectedEndOfInput);
        }
        if cur.peek() != QUOTE {
            return Err(ParseError::InvalidTokenStart);
        }
        match read_string(cur, buf) {
            Err(e) => {
                return Err(e);
            },
            Ok(_) => {},
        }
        let ghost ke = cur.position();
        proof {
            lemma_str_body_end(s, pk + 1);
            lemma_concat_subrange(b0, s, p0, pk, ke);
            lemma_ws_end(s, ke);
        }
        copy_whitespace(cur, buf);
        let ghost pc = cur.position();
        proof {
            lemma_concat_subrange(b0, s, p0, ke, pc);
        }
        if !cur.has_next() {
            return Err(ParseError::UnexpectedEndOfInput);
        }
        let cb = cur.advance();
        buf.push(cb);
        proof {
            lemma_push_subrange(b0, s, p0, pc);
        }
        if cb != COLON {
            return Err(ParseError::InvalidKeyValueSeparator);
        }
        proof {
            lemma_ws_end(s, pc + 1);
        }
        match parse_token(cur, buf) {
            Err(e) => {
                return Err(e);
            },
            Ok(_) => {},
        }
        let ghost ve = cur.position();
        proof {
            lemma_concat_subrange(b0, s, p0, pc + 1, ve);
            lemma_ws_end(s, ve);
        }
        copy_whitespace(cur, buf);
        let ghost pt = cur.position();
        proof {
            lemma_concat_subrange(b0, s, p0, ve, pt);
        }
        if !cur.has_next() {
            return Err(ParseError::UnexpectedEndOfInput);
        }
        let tb = cur.advance();
        buf.push(tb);
        proof {
            lemma_push_subrange(b0, s, p0, pt);
        }
        if tb == COMMA {
            proof {
                lemma_ws_end(s, pt + 1);
            }
            copy_whitespace(cur, buf);
            proof {
                lemma_concat_subrange(b0, s, p0, pt + 1, cur.position());
            }
        } else if tb == RIGHT_BRACE {
            return Ok(());
        } else {
            return Err(ParseError::UnexpectedDocumentTerminator);
        }
    }
}

/// Consume one array, `[` through its matching `]`, appending its exact
/// bytes.  A `,` continues with the next element, a `]` closes.
#[verifier::loop_isolation(false)]
pub fn read_array(cur: &mut ByteCursor, buf: &mut Vec<u8>) -> (r: Result<(), ParseError>)
    requires
        old(cur).wf(),
        old(cur).position() < old(cur).input().len(),
        old(cur).input()[old(cur).position()] == LEFT_BRACKET,
    ensures
        final(cur).input() == old(cur).input(),
        final(cur).wf(),
        old(cur).position() <= final(cur).position(),
        ({
            let s = old(cur).input();
            let p0 = old(cur).position();
            match r {
                Ok(_) => array_end(s, p0 + 1) == Ok::<int, ParseError>(final(cur).position())
                    && p0 < final(cur).position()
                    && final(buf)@ == old(buf)@ + s.subrange(p0, final(cur).position()),
                Err(e) => array_end(s, p0 + 1) == Err::<int, ParseError>(e),
            }
        }),
    decreases cur.input().len() - cur.position(), 0int,
{
    let ghost s = cur.input();
    let ghost p0 = cur.position();
    let ghost b0 = buf@;
    proof {
        lemma_empty_subrange(b0, s, p0);
    }
    let br = cur.advance();
    buf.push(br);
    proof {
        lemma_push_subrange(b0, s, p0, p0);
        lemma_ws_end(s, p0 + 1);
    }
    copy_whitespace(cur, buf);
    proof {
        lemma_concat_subrange(b0, s, p0, p0 + 1, cur.position());
    }
    if !cur.has_next() {
        return Err(ParseError::UnexpectedEndOfInput);
    }
    if cur.peek() == RIGHT_BRACKET {
        let ghost pk = cur.position();
        let cb = cur.advance();
        buf.push(cb);
        proof {
            lemma_push_subrange(b0, s, p0, pk);
        }
        return Ok(());
    }
    let ghost target = array_end(s, p0 + 1);
    proof {
        assert(target == items_end(s, cur.position()));
    }
    loop
        invariant
            cur.wf(),
            cur.input() == s,
            p0 < cur.position() <= s.len(),
            ws_end(s, cur.position()) == cur.position(),
            items_end(s, cur.position()) == target,
            buf@ == b0 + s.subrange(p0, cur.position()),
        decreases s.len() - cur.position(),
    {
        let ghost pi = cur.position();
        match parse_token(cur, buf) {
            Err(e) => {
                return Err(e);
            },
            Ok(_) => {},
        }
        let ghost ve = cur.position();
        proof {
            lemma_concat_subrange(b0, s, p0, pi, ve);
            lemma_ws_end(s, ve);
        }
        copy_whitespace(cur, buf);
        let ghost pt = cur.position();
        proof {
            lemma_concat_subrange(b0, s, p0, ve, pt);
        }
        if !cur.has_next() {
            return Err(ParseError::UnexpectedEndOfInput);
        }
        let tb = cur.advance();
        buf.push(tb);
        proof {
            lemma_push_subrange(b0, s, p0, pt);
        }
        if tb == COMMA {
            proof {
                lemma_ws_end(s, pt + 1);
            }
            copy_whitespace(cur, buf);
            proof {
                lemma_concat_subrange(b0, s, p0, pt + 1, cur.position());
                lemma_ws_end(s, pt + 1);
            }
        } else if tb == RIGHT_BRACKET {
            return Ok(());
        } else {
            return Err(ParseError::InvalidArrayTerminator);
        }
    }
}

/// Consume one value of any type, the leading whitespace included, and
/// append every consumed byte.  The first non-whitespace byte picks the
/// production: `{`, `[`, `"`, a token byte, or a failure.
#[verifier::loop_isolation(false)]
pub fn parse_token(cur: &mut ByteCursor, buf: &mut Vec<u8>) -> (r: Result<(), ParseError>)
    requires
        old(cur).wf(),
    ensures
        final(cur).input() == old(cur).input(),
        final(cur).wf(),
        old(cur).position() <= final(cur).position(),
        ({
            let s = old(cur).input();
            let p0 = old(cur).position();
            let k = ws_end(s, p0);
            match r {
                Ok(_) => value_end(s, k) == Ok::<int, ParseError>(final(cur).position()) && k
                    < final(cur).position() && final(buf)@ == old(buf)@ + s.subrange(
                    p0,
                    final(cur).position(),
                ),
                Err(e) => value_end(s, k) == Err::<int, ParseError>(e),
            }
        }),
    decreases cur.input().len() - cur.position(), 1int,
{
    let ghost s = cur.input();
    let ghost p0 = cur.position();
    let ghost b0 = buf@;
    proof {
        lemma_ws_end(s, p0);
    }
    copy_whitespace(cur, buf);
    let ghost k = cur.position();
    if !cur.has_next() {
        return Err(ParseError::UnexpectedEndOfInput);
    }
    let b = cur.peek();
    if b == LEFT_BRACE {
        match read_doc(cur, buf) {
            Ok(_) => {
                proof {
                    lemma_concat_subrange(b0, s, p0, k, cur.position());
                }
                Ok(())
            },
            Err(e) => Err(e),
        }
    } else if b == LEFT_BRACKET {
        match read_array(cur, buf) {
            Ok(_) => {
                proof {
                    lemma_concat_subrange(b0, s, p0, k, cur.position());
                }
                Ok(())
            },
            Err(e) => Err(e),
        }
    } else if b == QUOTE {
        match read_string(cur, buf) {
            Ok(_) => {
                proof {
                    lemma_str_body_end(s, k + 1);
                    lemma_concat_subrange(b0, s, p0, k, cur.position());
                }
                Ok(())
            },
            Err(e) => Err(e),
        }
    } else if !token_byte(b) {
        Err(ParseError::InvalidTokenStart)
    } else {
        proof {
            lemma_tok_end(s, k);
        }
        match read_num(cur, buf) {
            Ok(_) => {
                proof {
                    lemma_concat_subrange(b0, s, p0, k, cur.position());
                }
                Ok(())
            },
            Err(e) => {
                // unreachable: the dispatch byte is a token byte, so the
                // maximal run is not empty
                proof {
                    assert(false);
                }
                Err(e)
            },
        }
    }
}

} // verus!
