//! The mathematical model of the boundary grammar.
//!
//! Each function here maps an input byte sequence and a start position to the
//! end position of one grammar production, or to the error that stops the
//! scan.  The executable extractor in `scan` is proved to follow this model
//! byte for byte, and the stream models `wrapped_run` / `bare_run` /
//! `stream_run` say which document spans a whole input yields, in order, and
//! how the run ends.
//!
//! The recursive definitions only step forward through the input.  Where a
//! step position comes out of another function of the model, a range test
//! guards the recursive call so that every definition is well-founded on its
//! own; the bounds lemmas below show that the guarded branches are never
//! taken for positions inside the input.

use vstd::prelude::*;

use crate::errors::ParseError;

verus! {

pub const LEFT_BRACE: u8 = 0x7b;

pub const RIGHT_BRACE: u8 = 0x7d;

pub const LEFT_BRACKET: u8 = 0x5b;

pub const RIGHT_BRACKET: u8 = 0x5d;

pub const QUOTE: u8 = 0x22;

pub const BACKSLASH: u8 = 0x5c;

pub const COLON: u8 = 0x3a;

pub const COMMA: u8 = 0x2c;

/// ASCII space, tab, line feed, carriage return.
pub open spec fn is_ws(b: u8) -> bool {
    b == 0x20 || b == 0x09 || b == 0x0a || b == 0x0d
}

/// The deliberately permissive token class: digits, lower-case letters,
/// upper-case hex digits, the leading letters of `NaN` and `Infinity`, the
/// decimal point and the signs.  It accepts standard JSON numbers as well as
/// non-standard literals without telling them apart.
pub open spec fn is_token_byte(b: u8) -> bool {
    (0x30 <= b && b <= 0x39)  // 0-9
    || (0x61 <= b && b <= 0x7a)  // a-z
    || (0x41 <= b && b <= 0x46)  // A-F
    || b == 0x4e  // N
    || b == 0x49  // I
    || b == 0x2e || b == 0x2d || b == 0x2b  // . - +
}


/// The error classes that boundary scanning itself can raise.  The UTF-8
/// hand-off failure and the pipeline abort never come from the scanner.
pub open spec fn is_structural_error(e: ParseError) -> bool {
    e != ParseError::InvalidUtf8Document && e != ParseError::PipelineAborted
}

/// First position at or after `i` holding a non-whitespace byte, or the end
/// of the input.
pub open spec fn ws_end(s: Seq<u8>, i: int) -> int
    decreases s.len() - i,
    when 0 <= i <= s.len()
{
    if i < s.len() && is_ws(s[i]) {
        ws_end(s, i + 1)
    } else {
        i
    }
}

/// End of the maximal run of token bytes starting at `i`.
pub open spec fn tok_end(s: Seq<u8>, i: int) -> int
    decreases s.len() - i,
    when 0 <= i <= s.len()
{
    if i < s.len() && is_token_byte(s[i]) {
        tok_end(s, i + 1)
    } else {
        i
    }
}

/// End of a string body scanned from `i`, the position right after the
/// opening quote.  A backslash always takes exactly one following raw byte
/// with it; an unescaped quote ends the string; an unescaped byte below 0x20
/// is rejected.
pub open spec fn str_body_end(s: Seq<u8>, i: int) -> Result<int, ParseError>
    decreases s.len() - i,
    when 0 <= i <= s.len()
{
    if i >= s.len() {
        Err(ParseError::UnexpectedEndOfInput)
    } else if s[i] == BACKSLASH {
        if i + 1 >= s.len() {
            Err(ParseError::UnexpectedEndOfInput)
        } else {
            str_body_end(s, i + 2)
        }
    } else if s[i] == QUOTE {
        Ok(i + 1)
    } else if s[i] < 0x20 {
        Err(ParseError::ControlCharacterInString)
    } else {
        str_body_end(s, i + 1)
    }
}

/// End of one value whose first byte stands exactly at `i`: an object, an
/// array, a string, or a bare token.  No leading whitespace is skipped here.
pub open spec fn value_end(s: Seq<u8>, i: int) -> Result<int, ParseError>
    decreases s.len() - i, 0int,
    when 0 <= i <= s.len()
{
    if i >= s.len() {
        Err(ParseError::UnexpectedEndOfInput)
    } else if s[i] == LEFT_BRACE {
        object_end(s, i + 1)
    } else if s[i] == LEFT_BRACKET {
        array_end(s, i + 1)
    } else if s[i] == QUOTE {
        str_body_end(s, i + 1)
    } else if is_token_byte(s[i]) {
        Ok(tok_end(s, i))
    } else {
        Err(ParseError::InvalidTokenStart)
    }
}

/// End of an object whose opening brace was consumed; `i` is the position
/// right after `{`.
pub open spec fn object_end(s: Seq<u8>, i: int) -> Result<int, ParseError>
    decreases s.len() - i, 2int,
    when 0 <= i <= s.len()
{
    let k = ws_end(s, i);
    if !(i <= k <= s.len()) {
        Err(ParseError::UnexpectedEndOfInput)  // never taken: ws_end stays in range
    } else if k >= s.len() {
        Err(ParseError::UnexpectedEndOfInput)
    } else if s[k] == RIGHT_BRACE {
        Ok(k + 1)
    } else {
        members_end(s, k)
    }
}

/// End of the member list of an object, read from the first byte of a key.
/// One round is key string, `:`, value; a `,` continues with the next key, a
/// `}` closes the object.
pub open spec fn members_end(s: Seq<u8>, i: int) -> Result<int, ParseError>
    decreases s.len() - i, 1int,
    when 0 <= i <= s.len()
{
    if i >= s.len() {
        Err(ParseError::UnexpectedEndOfInput)
    } else if s[i] != QUOTE {
        Err(ParseError::InvalidTokenStart)
    } else {
        match str_body_end(s, i + 1) {
            Err(e) => Err(e),
            Ok(key_end) => {
                let c = ws_end(s, key_end);
                if !(i < c <= s.len()) {
                    Err(ParseError::UnexpectedEndOfInput)  // never taken
                } else if c >= s.len() {
                    Err(ParseError::UnexpectedEndOfInput)
                } else if s[c] != COLON {
                    Err(ParseError::InvalidKeyValueSeparator)
                } else {
                    let v = ws_end(s, c + 1);
                    if !(i < v <= s.len()) {
                        Err(ParseError::UnexpectedEndOfInput)  // never taken
                    } else {
                        match value_end(s, v) {
                            Err(e) => Err(e),
                            Ok(val_end) => {
                                let t = ws_end(s, val_end);
                                if !(i < t <= s.len()) {
                                    Err(ParseError::UnexpectedEndOfInput)  // never taken
                                } else if t >= s.len() {
                                    Err(ParseError::UnexpectedEndOfInput)
                                } else if s[t] == COMMA {
                                    let n = ws_end(s, t + 1);
                                    if i < n <= s.len() {
                                        members_end(s, n)
                                    } else {
                                        Err(ParseError::UnexpectedEndOfInput)  // never taken
                                    }
                                } else if s[t] == RIGHT_BRACE {
                                    Ok(t + 1)
                                } else {
                                    Err(ParseError::UnexpectedDocumentTerminator)
                                }
                            },
                        }
                    }
                }
            },
        }
    }
}

/// End of an array whose opening bracket was consumed; `i` is the position
/// right after `[`.
pub open spec fn array_end(s: Seq<u8>, i: int) -> Result<int, ParseError>
    decreases s.len() - i, 2int,
    when 0 <= i <= s.len()
{
    let k = ws_end(s, i);
    if !(i <= k <= s.len()) {
        Err(ParseError::UnexpectedEndOfInput)  // never taken
    } else if k >= s.len() {
        Err(ParseError::UnexpectedEndOfInput)
    } else if s[k] == RIGHT_BRACKET {
        Ok(k + 1)
    } else {
        items_end(s, k)
    }
}

/// End of the element list of an array, read from the first byte of an
/// element.  A `,` continues with the next element, a `]` closes the array.
pub open spec fn items_end(s: Seq<u8>, i: int) -> Result<int, ParseError>
    decreases s.len() - i, 1int,
    when 0 <= i <= s.len()
{
    match value_end(s, i) {
        Err(e) => Err(e),
        Ok(e) => {
            if !(i < e <= s.len()) {
                Err(ParseError::UnexpectedEndOfInput)  // never taken
            } else {
                let t = ws_end(s, e);
                if !(i < t <= s.len()) {
                    Err(ParseError::UnexpectedEndOfInput)  // never taken
                } else if t >= s.len() {
                    Err(ParseError::UnexpectedEndOfInput)
                } else if s[t] == COMMA {
                    let n = ws_end(s, t + 1);
                    if i < n <= s.len() {
                        items_end(s, n)
                    } else {
                        Err(ParseError::UnexpectedEndOfInput)  // never taken
                    }
                } else if s[t] == RIGHT_BRACKET {
                    Ok(t + 1)
                } else {
                    Err(ParseError::InvalidArrayTerminator)
                }
            }
        },
    }
}

/// Documents yielded in bare-sequence mode from position `i` on, paired with
/// the terminal outcome: `None` for a clean end of input, `Some(e)` for the
/// error that stopped the run.  Whitespace between values separates them and
/// belongs to no document.
pub open spec fn bare_run(s: Seq<u8>, i: int) -> (Seq<Seq<u8>>, Option<ParseError>)
    decreases s.len() - i,
    when 0 <= i <= s.len()
{
    let k = ws_end(s, i);
    if !(i <= k <= s.len()) {
        (seq![], Some(ParseError::UnexpectedEndOfInput))  // never taken
    } else if k >= s.len() {
        (seq![], None)
    } else {
        match value_end(s, k) {
            Err(e) => (seq![], Some(e)),
            Ok(e) => {
                if k < e <= s.len() {
                    let rest = bare_run(s, e);
                    (seq![s.subrange(k, e)] + rest.0, rest.1)
                } else {
                    (seq![], Some(ParseError::UnexpectedEndOfInput))  // never taken
                }
            },
        }
    }
}

/// Documents yielded in wrapped-array mode from position `i` on, where `i`
/// stands right after the opening `[` or right after a `,`.  A value is
/// yielded before its terminator is examined, so a value followed by a bad
/// terminator still appears in the yielded sequence, ahead of the error.
pub open spec fn wrapped_run(s: Seq<u8>, i: int) -> (Seq<Seq<u8>>, Option<ParseError>)
    decreases s.len() - i,
    when 0 <= i <= s.len()
{
    let k = ws_end(s, i);
    if !(i <= k <= s.len()) {
        (seq![], Some(ParseError::UnexpectedEndOfInput))  // never taken
    } else {
        match value_end(s, k) {
            Err(e) => (seq![], Some(e)),
            Ok(e) => {
                if !(k < e <= s.len()) {
                    (seq![], Some(ParseError::UnexpectedEndOfInput))  // never taken
                } else {
                    let doc = s.subrange(k, e);
                    let t = ws_end(s, e);
                    if !(e <= t <= s.len()) {
                        (seq![doc], Some(ParseError::UnexpectedEndOfInput))  // never taken
                    } else if t >= s.len() {
                        (seq![doc], Some(ParseError::UnexpectedEndOfInput))
                    } else if s[t] == COMMA {
                        let rest = wrapped_run(s, t + 1);
                        (seq![doc] + rest.0, rest.1)
                    } else if s[t] == RIGHT_BRACKET {
                        (seq![doc], None)
                    } else {
                        (seq![doc], Some(ParseError::InvalidArrayTerminator))
                    }
                }
            },
        }
    }
}

/// Documents yielded by a whole input, and the terminal outcome, in the mode
/// picked by `array`.  In wrapped mode the first non-whitespace byte must be
/// `[`; an empty array yields zero documents and succeeds, and whatever
/// follows the closing `]` is not examined.  In bare mode an input of
/// whitespace alone yields zero documents and succeeds.
pub open spec fn stream_run(s: Seq<u8>, array: bool) -> (Seq<Seq<u8>>, Option<ParseError>) {
    if array {
        let k = ws_end(s, 0);
        if !(0 <= k <= s.len()) {
            (seq![], Some(ParseError::UnexpectedEndOfInput))  // never taken
        } else if k >= s.len() {
            (seq![], Some(ParseError::UnexpectedEndOfInput))
        } else if s[k] != LEFT_BRACKET {
            (seq![], Some(ParseError::ExpectedArrayStart))
        } else {
            let j = ws_end(s, k + 1);
            if !(k + 1 <= j <= s.len()) {
                (seq![], Some(ParseError::UnexpectedEndOfInput))  // never taken
            } else if j >= s.len() {
                (seq![], Some(ParseError::UnexpectedEndOfInput))
            } else if s[j] == RIGHT_BRACKET {
                (seq![], None)
            } else {
                wrapped_run(s, j)
            }
        }
    } else {
        bare_run(s, 0)
    }
}

// ---------------------------------------------------------------------------
// Bounds lemmas: every production that succeeds ends after its start and
// inside the input, and whitespace runs behave as described.
// ---------------------------------------------------------------------------

pub proof fn lemma_ws_end(s: Seq<u8>, i: int)
    requires
        0 <= i <= s.len(),
    ensures
        i <= ws_end(s, i) <= s.len(),
        forall|j: int| i <= j < ws_end(s, i) ==> is_ws(s[j]),
        ws_end(s, i) < s.len() ==> !is_ws(s[ws_end(s, i)]),
    decreases s.len() - i,
{
    if i < s.len() && is_ws(s[i]) {
        lemma_ws_end(s, i + 1);
        assert forall|j: int| i <= j < ws_end(s, i) implies is_ws(s[j]) by {
            if j > i {
                assert(is_ws(s[j]));
            }
        }
    }
}

pub proof fn lemma_tok_end(s: Seq<u8>, i: int)
    requires
        0 <= i <= s.len(),
    ensures
        i <= tok_end(s, i) <= s.len(),
        forall|j: int| i <= j < tok_end(s, i) ==> is_token_byte(s[j]),
        tok_end(s, i) < s.len() ==> !is_token_byte(s[tok_end(s, i)]),
        i < s.len() && is_token_byte(s[i]) ==> tok_end(s, i) > i,
    decreases s.len() - i,
{
    if i < s.len() && is_token_byte(s[i]) {
        lemma_tok_end(s, i + 1);
        assert forall|j: int| i <= j < tok_end(s, i) implies is_token_byte(s[j]) by {
            if j > i {
                assert(is_token_byte(s[j]));
            }
        }
    }
}

pub proof fn lemma_str_body_end(s: Seq<u8>, i: int)
    requires
        0 <= i <= s.len(),
    ensures
        str_body_end(s, i) matches Ok(e) ==> i < e <= s.len(),
        str_body_end(s, i) matches Err(e) ==> is_structural_error(e),
    decreases s.len() - i,
{
    if i < s.len() {
        if s[i] == BACKSLASH {
            if i + 1 < s.len() {
                lemma_str_body_end(s, i + 2);
            }
        } else if s[i] == QUOTE {
        } else if s[i] < 0x20 {
        } else {
            lemma_str_body_end(s, i + 1);
        }
    }
}

pub proof fn lemma_value_end(s: Seq<u8>, i: int)
    requires
        0 <= i <= s.len(),
    ensures
        value_end(s, i) matches Ok(e) ==> i < e <= s.len(),
        value_end(s, i) matches Err(e) ==> is_structural_error(e),
    decreases s.len() - i, 0int,
{
    if i < s.len() {
        if s[i] == LEFT_BRACE {
            lemma_object_end(s, i + 1);
        } else if s[i] == LEFT_BRACKET {
            lemma_array_end(s, i + 1);
        } else if s[i] == QUOTE {
            lemma_str_body_end(s, i + 1);
        } else if is_token_byte(s[i]) {
            lemma_tok_end(s, i);
        }
    }
}

pub proof fn lemma_object_end(s: Seq<u8>, i: int)
    requires
        0 <= i <= s.len(),
    ensures
        object_end(s, i) matches Ok(e) ==> i < e <= s.len(),
        object_end(s, i) matches Err(e) ==> is_structural_error(e),
    decreases s.len() - i, 2int,
{
    lemma_ws_end(s, i);
    let k = ws_end(s, i);
    if k < s.len() && s[k] != RIGHT_BRACE {
        lemma_members_end(s, k);
    }
}

pub proof fn lemma_members_end(s: Seq<u8>, i: int)
    requires
        0 <= i <= s.len(),
    ensures
        members_end(s, i) matches Ok(e) ==> i < e <= s.len(),
        members_end(s, i) matches Err(e) ==> is_structural_error(e),
    decreases s.len() - i, 1int,
{
    if i < s.len() && s[i] == QUOTE {
        lemma_str_body_end(s, i + 1);
        if let Ok(key_end) = str_body_end(s, i + 1) {
            lemma_ws_end(s, key_end);
            let c = ws_end(s, key_end);
            if c < s.len() && s[c] == COLON {
                lemma_ws_end(s, c + 1);
                let v = ws_end(s, c + 1);
                lemma_value_end(s, v);
                if let Ok(val_end) = value_end(s, v) {
                    lemma_ws_end(s, val_end);
                    let t = ws_end(s, val_end);
                    if t < s.len() && s[t] == COMMA {
                        lemma_ws_end(s, t + 1);
                        lemma_members_end(s, ws_end(s, t + 1));
                    }
                }
            }
        }
    }
}

pub proof fn lemma_array_end(s: Seq<u8>, i: int)
    requires
        0 <= i <= s.len(),
    ensures
        array_end(s, i) matches Ok(e) ==> i < e <= s.len(),
        array_end(s, i) matches Err(e) ==> is_structural_error(e),
    decreases s.len() - i, 2int,
{
    lemma_ws_end(s, i);
    let k = ws_end(s, i);
    if k < s.len() && s[k] != RIGHT_BRACKET {
        lemma_items_end(s, k);
    }
}

pub proof fn lemma_items_end(s: Seq<u8>, i: int)
    requires
        0 <= i <= s.len(),
    ensures
        items_end(s, i) matches Ok(e) ==> i < e <= s.len(),
        items_end(s, i) matches Err(e) ==> is_structural_error(e),
    decreases s.len() - i, 1int,
{
    lemma_value_end(s, i);
    if let Ok(e) = value_end(s, i) {
        lemma_ws_end(s, e);
        let t = ws_end(s, e);
        if t < s.len() && s[t] == COMMA {
            lemma_ws_end(s, t + 1);
            lemma_items_end(s, ws_end(s, t + 1));
        }
    }
}

/// Empty inputs succeed with zero documents: a bare input of whitespace
/// alone, and a wrapped input whose first two non-whitespace bytes are `[`
/// and `]`, both yield no documents and no error.
pub proof fn lemma_empty_input_yields_nothing(s: Seq<u8>)
    ensures
        (forall|j: int| 0 <= j < s.len() ==> is_ws(s[j])) ==> stream_run(s, false).0.len() == 0
            && stream_run(s, false).1 is None,
        ({
            let k = ws_end(s, 0);
            let j = ws_end(s, k + 1);
            k < s.len() && s[k] == LEFT_BRACKET && j < s.len() && s[j] == RIGHT_BRACKET
        }) ==> stream_run(s, true).0.len() == 0 && stream_run(s, true).1 is None,
{
    lemma_ws_end(s, 0);
    let k = ws_end(s, 0);
    if forall|j: int| 0 <= j < s.len() ==> is_ws(s[j]) {
        assert(k == s.len());
    }
    if k < s.len() && s[k] == LEFT_BRACKET {
        lemma_ws_end(s, k + 1);
    }
}


/// The start and end positions of the documents that `bare_run` yields, in
/// yield order.
pub open spec fn bare_spans(s: Seq<u8>, i: int) -> Seq<(int, int)>
    decreases s.len() - i,
    when 0 <= i <= s.len()
{
    let k = ws_end(s, i);
    if !(i <= k <= s.len()) {
        seq![]  // never taken
    } else if k >= s.len() {
        seq![]
    } else {
        match value_end(s, k) {
            Err(_) => seq![],
            Ok(e) => {
                if k < e <= s.len() {
                    seq![(k, e)] + bare_spans(s, e)
                } else {
                    seq![]  // never taken
                }
            },
        }
    }
}

/// The start and end positions of the documents that `wrapped_run` yields,
/// in yield order.
pub open spec fn wrapped_spans(s: Seq<u8>, i: int) -> Seq<(int, int)>
    decreases s.len() - i,
    when 0 <= i <= s.len()
{
    let k = ws_end(s, i);
    if !(i <= k <= s.len()) {
        seq![]  // never taken
    } else {
        match value_end(s, k) {
            Err(_) => seq![],
            Ok(e) => {
                if !(k < e <= s.len()) {
                    seq![]  // never taken
                } else {
                    let t = ws_end(s, e);
                    if !(e <= t <= s.len()) {
                        seq![(k, e)]  // never taken
                    } else if t >= s.len() {
                        seq![(k, e)]
                    } else if s[t] == COMMA {
                        seq![(k, e)] + wrapped_spans(s, t + 1)
                    } else {
                        seq![(k, e)]
                    }
                }
            },
        }
    }
}

/// The start and end positions of the documents of a whole run.
pub open spec fn stream_spans(s: Seq<u8>, array: bool) -> Seq<(int, int)> {
    if array {
        let k = ws_end(s, 0);
        if !(0 <= k <= s.len()) {
            seq![]  // never taken
        } else if k >= s.len() {
            seq![]
        } else if s[k] != LEFT_BRACKET {
            seq![]
        } else {
            let j = ws_end(s, k + 1);
            if !(k + 1 <= j <= s.len()) {
                seq![]  // never taken
            } else if j >= s.len() {
                seq![]
            } else if s[j] == RIGHT_BRACKET {
                seq![]
            } else {
                wrapped_spans(s, j)
            }
        }
    } else {
        bare_spans(s, 0)
    }
}

/// What it means for `spans` to lay the documents `docs` out over the input
/// `s`, in original left-to-right order, from position `i` on: each
/// document is byte-for-byte the contiguous span of the input at its
/// position, and the spans never overlap and never move backwards.
pub open spec fn spans_lay_out(s: Seq<u8>, i: int, docs: Seq<Seq<u8>>, spans: Seq<(int, int)>) -> bool {
    &&& docs.len() == spans.len()
    &&& forall|j: int| 0 <= j < docs.len() ==> i <= (#[trigger] spans[j]).0 < spans[j].1 <= s.len()
    &&& forall|j: int| 0 <= j < docs.len() ==> #[trigger] docs[j] == s.subrange(spans[j].0, spans[j].1)
    &&& forall|j: int| 0 <= j < docs.len() - 1 ==> (#[trigger] spans[j]).1 <= spans[j + 1].0
}

pub proof fn lemma_bare_run_ordered_spans(s: Seq<u8>, i: int)
    requires
        0 <= i <= s.len(),
    ensures
        spans_lay_out(s, i, bare_run(s, i).0, bare_spans(s, i)),
    decreases s.len() - i,
{
    lemma_ws_end(s, i);
    let k = ws_end(s, i);
    if k < s.len() {
        if let Ok(e) = value_end(s, k) {
            lemma_value_end(s, k);
            lemma_bare_run_ordered_spans(s, e);
            let docs = bare_run(s, i).0;
            let spans = bare_spans(s, i);
            let docs_r = bare_run(s, e).0;
            let spans_r = bare_spans(s, e);
            assert(docs == seq![s.subrange(k, e)] + docs_r);
            assert(spans == seq![(k, e)] + spans_r);
            assert forall|j: int| 0 <= j < docs.len() implies i <= (#[trigger] spans[j]).0
                < spans[j].1 <= s.len() && docs[j] == s.subrange(spans[j].0, spans[j].1) by {
                if j > 0 {
                    assert(spans[j] == spans_r[j - 1]);
                    assert(docs[j] == docs_r[j - 1]);
                }
            }
            assert forall|j: int| 0 <= j < docs.len() - 1 implies (#[trigger] spans[j]).1
                <= spans[j + 1].0 by {
                if j == 0 {
                    assert(spans[1] == spans_r[0]);
                } else {
                    assert(spans[j] == spans_r[j - 1]);
                    assert(spans[j + 1] == spans_r[j]);
                }
            }
        }
    }
}

pub proof fn lemma_wrapped_run_ordered_spans(s: Seq<u8>, i: int)
    requires
        0 <= i <= s.len(),
    ensures
        spans_lay_out(s, i, wrapped_run(s, i).0, wrapped_spans(s, i)),
    decreases s.len() - i,
{
    lemma_ws_end(s, i);
    let k = ws_end(s, i);
    if let Ok(e) = value_end(s, k) {
        lemma_value_end(s, k);
        lemma_ws_end(s, e);
        let t = ws_end(s, e);
        let docs = wrapped_run(s, i).0;
        let spans = wrapped_spans(s, i);
        if t < s.len() && s[t] == COMMA {
            lemma_wrapped_run_ordered_spans(s, t + 1);
            let docs_r = wrapped_run(s, t + 1).0;
            let spans_r = wrapped_spans(s, t + 1);
            assert(docs == seq![s.subrange(k, e)] + docs_r);
            assert(spans == seq![(k, e)] + spans_r);
            assert forall|j: int| 0 <= j < docs.len() implies i <= (#[trigger] spans[j]).0
                < spans[j].1 <= s.len() && docs[j] == s.subrange(spans[j].0, spans[j].1) by {
                if j > 0 {
                    assert(spans[j] == spans_r[j - 1]);
                    assert(docs[j] == docs_r[j - 1]);
                }
            }
            assert forall|j: int| 0 <= j < docs.len() - 1 implies (#[trigger] spans[j]).1
                <= spans[j + 1].0 by {
                if j == 0 {
                    assert(spans[1] == spans_r[0]);
                } else {
                    assert(spans[j] == spans_r[j - 1]);
                    assert(spans[j + 1] == spans_r[j]);
                }
            }
        }
    }
}

/// The order law of a whole run: every document a run yields is
/// byte-for-byte a contiguous span of the input, and the documents appear
/// in original left-to-right order — their spans are ordered and
/// non-overlapping.
pub proof fn lemma_stream_run_ordered_spans(s: Seq<u8>, array: bool)
    ensures
        spans_lay_out(s, 0, stream_run(s, array).0, stream_spans(s, array)),
{
    if array {
        lemma_ws_end(s, 0);
        let k = ws_end(s, 0);
        if k < s.len() && s[k] == LEFT_BRACKET {
            lemma_ws_end(s, k + 1);
            let j = ws_end(s, k + 1);
            if j < s.len() && s[j] != RIGHT_BRACKET {
                lemma_wrapped_run_ordered_spans(s, j);
            }
        }
    } else {
        lemma_bare_run_ordered_spans(s, 0);
    }
}


proof fn lemma_bare_run_errors(s: Seq<u8>, i: int)
    requires
        0 <= i <= s.len(),
    ensures
        bare_run(s, i).1 matches Some(e) ==> is_structural_error(e),
    decreases s.len() - i,
{
    lemma_ws_end(s, i);
    let k = ws_end(s, i);
    if k < s.len() {
        lemma_value_end(s, k);
        if let Ok(e) = value_end(s, k) {
            lemma_bare_run_errors(s, e);
        }
    }
}

proof fn lemma_wrapped_run_errors(s: Seq<u8>, i: int)
    requires
        0 <= i <= s.len(),
    ensures
        wrapped_run(s, i).1 matches Some(e) ==> is_structural_error(e),
    decreases s.len() - i,
{
    lemma_ws_end(s, i);
    let k = ws_end(s, i);
    lemma_value_end(s, k);
    if let Ok(e) = value_end(s, k) {
        lemma_ws_end(s, e);
        let t = ws_end(s, e);
        if t < s.len() && s[t] == COMMA {
            lemma_wrapped_run_errors(s, t + 1);
        }
    }
}

/// The terminal outcome of a run is always one of the structural error
/// classes: an `InvalidUtf8Document` or `PipelineAborted` outcome never
/// comes from boundary scanning itself.
pub proof fn lemma_stream_run_errors_structural(s: Seq<u8>, array: bool)
    ensures
        stream_run(s, array).1 matches Some(e) ==> is_structural_error(e),
{
    if array {
        lemma_ws_end(s, 0);
        let k = ws_end(s, 0);
        if k < s.len() && s[k] == LEFT_BRACKET {
            lemma_ws_end(s, k + 1);
            let j = ws_end(s, k + 1);
            if j < s.len() && s[j] != RIGHT_BRACKET {
                lemma_wrapped_run_errors(s, j);
            }
        }
    } else {
        lemma_bare_run_errors(s, 0);
    }
}

} // verus!
