//! The stream driver: a lazy, single-pass source of documents.
//!
//! One call to [`StreamDriver::next_document`] extracts one document and
//! leaves the cursor behind it, so the caller decides when the next one is
//! produced; pushing each document into a bounded queue between calls is
//! what gives the pipeline its backpressure.  [`parse_array_from_iter`]
//! drives a whole input to the end and collects everything.

use vstd::prelude::*;
use vstd::utf8::{encode_utf8, valid_utf8};

use crate::errors::ParseError;
use crate::grammar::{
    bare_run, lemma_stream_run_errors_structural, lemma_ws_end, stream_run, wrapped_run, COMMA,
    LEFT_BRACKET, RIGHT_BRACKET,
};
use crate::scan::{drop_whitespace, parse_token, ByteCursor};

verus! {

/// Where the driver stands between two calls.
#[derive(Clone, Copy)]
enum DriverPhase {
    /// Nothing consumed yet; in wrapped mode the opening `[` is still ahead.
    Start,
    /// Inside the stream: the cursor stands where the next value (or its
    /// leading whitespace, or the end of the stream) begins.
    Streaming,
    /// A document was already handed out, but its terminator was bad; the
    /// error is owed to the caller on the next call.
    Failing(ParseError),
    /// The stream is over; every further call yields nothing.
    Finished,
}

/// A lazy, finite, single-pass sequence of raw document texts over one
/// in-memory input.  Created once per run; not restartable.
pub struct StreamDriver {
    cur: ByteCursor,
    array: bool,
    phase: DriverPhase,
}

impl StreamDriver {
    /// The whole input the driver was built over.
    pub closed spec fn input(&self) -> Seq<u8> {
        self.cur.input()
    }

    /// True in wrapped-array mode, false in bare-sequence mode.
    pub closed spec fn in_array_mode(&self) -> bool {
        self.array
    }

    /// The documents still to be yielded, as byte spans of the input, and
    /// the outcome that follows them: `None` for a clean end, `Some(e)` for
    /// the error that will stop the stream.
    pub closed spec fn rest(&self) -> (Seq<Seq<u8>>, Option<ParseError>) {
        match self.phase {
            DriverPhase::Start => stream_run(self.cur.input(), self.array),
            DriverPhase::Streaming => if self.array {
                wrapped_run(self.cur.input(), self.cur.position())
            } else {
                bare_run(self.cur.input(), self.cur.position())
            },
            DriverPhase::Failing(e) => (seq![], Some(e)),
            DriverPhase::Finished => (seq![], None),
        }
    }

    pub closed spec fn wf(&self) -> bool {
        &&& self.cur.wf()
        &&& (self.phase is Start ==> self.cur.position() == 0)
    }

    spec fn phase_streaming(&self) -> bool {
        self.phase is Streaming
    }

    pub fn new(input: Vec<u8>, array: bool) -> (d: StreamDriver)
        ensures
            d.wf(),
            d.input() == input@,
            d.in_array_mode() == array,
            d.rest() == stream_run(input@, array),
    {
        StreamDriver { cur: ByteCursor::new(input), array, phase: DriverPhase::Start }
    }

    /// Consume the stream prologue.  In wrapped mode that is the opening `[`
    /// (and, for an empty array, the closing `]`); in bare mode there is
    /// none.  `Ok(true)` means the stream is already complete and empty.
    fn begin(&mut self) -> (r: Result<bool, ParseError>)
        requires
            old(self).wf(),
            old(self).phase is Start,
        ensures
            final(self).wf(),
            match r {
                Ok(true) => old(self).rest().0.len() == 0 && old(self).rest().1 is None
                    && final(self).rest() == (Seq::<Seq<u8>>::empty(), None::<ParseError>),
                Ok(false) => final(self).phase_streaming()
                    && final(self).rest() == old(self).rest(),
                Err(e) => old(self).rest().0.len() == 0 && old(self).rest().1 == Some(e)
                    && final(self).rest() == (Seq::<Seq<u8>>::empty(), None::<ParseError>),
            },
    {
        let ghost s = self.cur.input();
        if !self.array {
            self.phase = DriverPhase::Streaming;
            return Ok(false);
        }
        proof {
            lemma_ws_end(s, 0);
        }
        drop_whitespace(&mut self.cur);
        if !self.cur.has_next() {
            self.phase = DriverPhase::Finished;
            return Err(ParseError::UnexpectedEndOfInput);
        }
        let b = self.cur.advance();
        if b != LEFT_BRACKET {
            self.phase = DriverPhase::Finished;
            return Err(ParseError::ExpectedArrayStart);
        }
        let ghost after = self.cur.position();
        proof {
            lemma_ws_end(s, after);
        }
        drop_whitespace(&mut self.cur);
        if !self.cur.has_next() {
            self.phase = DriverPhase::Finished;
            return Err(ParseError::UnexpectedEndOfInput);
        }
        if self.cur.peek() == RIGHT_BRACKET {
            self.phase = DriverPhase::Finished;
            return Ok(true);
        }
        self.phase = DriverPhase::Streaming;
        Ok(false)
    }

    /// Extract one document from inside the stream.
    fn extract_next(&mut self) -> (r: Result<Option<String>, ParseError>)
        requires
            old(self).wf(),
            old(self).phase_streaming(),
        ensures
            final(self).wf(),
            ({
                let docs = old(self).rest().0;
                let term = old(self).rest().1;
                match r {
                    Ok(Some(d)) => docs.len() > 0 && valid_utf8(docs[0]) && encode_utf8(d@)
                        == docs[0] && final(self).rest() == (docs.drop_first(), term),
                    Ok(None) => docs.len() == 0 && term is None && final(self).rest() == (
                        Seq::<Seq<u8>>::empty(),
                        None::<ParseError>,
                    ),
                    Err(e) => (if docs.len() > 0 {
                        !valid_utf8(docs[0]) && e == ParseError::InvalidUtf8Document
                    } else {
                        term == Some(e)
                    }) && final(self).rest() == (Seq::<Seq<u8>>::empty(), None::<ParseError>),
                }
            }),
    {
        let ghost s = self.cur.input();
        let ghost i0 = self.cur.position();
        proof {
            lemma_ws_end(s, i0);
        }
        drop_whitespace(&mut self.cur);
        let ghost k = self.cur.position();
        if !self.array && !self.cur.has_next() {
            self.phase = DriverPhase::Finished;
            return Ok(None);
        }
        let mut buf: Vec<u8> = Vec::new();
        match parse_token(&mut self.cur, &mut buf) {
            Err(e) => {
                self.phase = DriverPhase::Finished;
                return Err(e);
            },
            Ok(_) => {},
        }
        let ghost e_pos = self.cur.position();
        let ghost doc = s.subrange(k, e_pos);
        proof {
            assert(buf@ == Seq::<u8>::empty() + doc);
            assert(buf@ == doc);
        }
        let ghost bufv = buf@;
        let text_opt = bytes_to_string(buf);
        if !self.array {
            // bare mode: the next value, or the end, follows after whitespace
            proof {
                assert(bare_run(s, i0).0 == seq![doc] + bare_run(s, e_pos).0);
                assert(bare_run(s, i0).1 == bare_run(s, e_pos).1);
                assert((seq![doc] + bare_run(s, e_pos).0).drop_first() =~= bare_run(s, e_pos).0);
            }
            match text_opt {
                None => {
                    self.phase = DriverPhase::Finished;
                    Err(ParseError::InvalidUtf8Document)
                },
                Some(text) => Ok(Some(text)),
            }
        } else {
            match text_opt {
                None => {
                    self.phase = DriverPhase::Finished;
                    proof {
                        assert(wrapped_run(s, i0).0[0] == doc);
                    }
                    Err(ParseError::InvalidUtf8Document)
                },
                Some(text) => {
                    proof {
                        lemma_ws_end(s, e_pos);
                    }
                    drop_whitespace(&mut self.cur);
                    let ghost t = self.cur.position();
                    proof {
                        assert(wrapped_run(s, i0).0[0] == doc);
                    }
                    if !self.cur.has_next() {
                        self.phase = DriverPhase::Failing(ParseError::UnexpectedEndOfInput);
                        proof {
                            assert(wrapped_run(s, i0).0.drop_first() =~= Seq::<Seq<u8>>::empty());
                        }
                        return Ok(Some(text));
                    }
                    let tb = self.cur.advance();
                    if tb == COMMA {
                        proof {
                            assert(wrapped_run(s, i0).0 == seq![doc] + wrapped_run(s, t + 1).0);
                            assert(wrapped_run(s, i0).1 == wrapped_run(s, t + 1).1);
                            assert((seq![doc] + wrapped_run(s, t + 1).0).drop_first() =~= wrapped_run(
                                s,
                                t + 1,
                            ).0);
                        }
                        Ok(Some(text))
                    } else if tb == RIGHT_BRACKET {
                        self.phase = DriverPhase::Finished;
                        proof {
                            assert(wrapped_run(s, i0).0.drop_first() =~= Seq::<Seq<u8>>::empty());
                        }
                        Ok(Some(text))
                    } else {
                        self.phase = DriverPhase::Failing(ParseError::InvalidArrayTerminator);
                        proof {
                            assert(wrapped_run(s, i0).0.drop_first() =~= Seq::<Seq<u8>>::empty());
                        }
                        Ok(Some(text))
                    }
                },
            }
        }
    }

    /// Yield the next document of the stream, or `Ok(None)` once the stream
    /// has ended cleanly, or the error that stops it.  A document is yielded
    /// before its terminator is examined, so a bad terminator surfaces on
    /// the call after the document it follows.
    pub fn next_document(&mut self) -> (r: Result<Option<String>, ParseError>)
        requires
            old(self).wf(),
        ensures
            final(self).wf(),
            ({
                let docs = old(self).rest().0;
                let term = old(self).rest().1;
                match r {
                    Ok(Some(d)) => docs.len() > 0 && valid_utf8(docs[0]) && encode_utf8(d@)
                        == docs[0] && final(self).rest() == (docs.drop_first(), term),
                    Ok(None) => docs.len() == 0 && term is None && final(self).rest() == (
                        Seq::<Seq<u8>>::empty(),
                        None::<ParseError>,
                    ),
                    Err(e) => (if docs.len() > 0 {
                        !valid_utf8(docs[0]) && e == ParseError::InvalidUtf8Document
                    } else {
                        term == Some(e)
                    }) && final(self).rest() == (Seq::<Seq<u8>>::empty(), None::<ParseError>),
                }
            }),
    {
        let start = match self.phase {
            DriverPhase::Finished => {
                return Ok(None);
            },
            DriverPhase::Failing(e) => {
                self.phase = DriverPhase::Finished;
                return Err(e);
            },
            DriverPhase::Start => true,
            DriverPhase::Streaming => false,
        };
        if start {
            match self.begin() {
                Err(e) => {
                    return Err(e);
                },
                Ok(true) => {
                    return Ok(None);
                },
                Ok(false) => {},
            }
        }
        self.extract_next()
    }
}

/// What a whole run produced: every document that was handed out, in
/// extraction order, and the error that stopped the run, if any.
#[derive(Debug)]
pub struct ExtractOutcome {
    pub documents: Vec<String>,
    pub error: Option<ParseError>,
}

/// The UTF-8 encodings of a sequence of strings.
pub open spec fn encoded_all(v: Seq<String>) -> Seq<Seq<u8>> {
    Seq::new(v.len(), |i: int| encode_utf8(v[i]@))
}

/// Drive a whole input to its end and collect every document it yields.
/// The documents come out byte-for-byte equal to their spans of the input,
/// in original left-to-right order (`lemma_stream_run_ordered_spans` in
/// `grammar` states that order law of the model); `error` reports how the
/// run ended.
#[verifier::loop_isolation(false)]
pub fn parse_array_from_iter(input: Vec<u8>, array: bool) -> (r: ExtractOutcome)
    ensures
        ({
            let docs = stream_run(input@, array).0;
            let term = stream_run(input@, array).1;
            &&& r.documents@.len() <= docs.len()
            &&& encoded_all(r.documents@) == docs.take(r.documents@.len() as int)
            &&& forall|i: int| 0 <= i < r.documents@.len() ==> valid_utf8(#[trigger] docs[i])
            &&& match r.error {
                None => r.documents@.len() == docs.len() && term is None,
                Some(e) => if e == ParseError::InvalidUtf8Document {
                    r.documents@.len() < docs.len() && !valid_utf8(
                        docs[r.documents@.len() as int],
                    )
                } else {
                    r.documents@.len() == docs.len() && term == Some(e)
                },
            }
        }),
{
    let ghost s = input@;
    let ghost docs = stream_run(s, array).0;
    let ghost term = stream_run(s, array).1;
    proof {
        lemma_stream_run_errors_structural(s, array);
    }
    let mut driver = StreamDriver::new(input, array);
    let mut documents: Vec<String> = Vec::new();
    proof {
        assert(encoded_all(documents@) =~= docs.take(0));
        assert(driver.rest().0 =~= docs.skip(0));
    }
    loop
        invariant
            driver.wf(),
            documents@.len() <= docs.len(),
            encoded_all(documents@) == docs.take(documents@.len() as int),
            forall|i: int| 0 <= i < documents@.len() ==> valid_utf8(#[trigger] docs[i]),
            driver.rest().0 == docs.skip(documents@.len() as int),
            driver.rest().1 == term,
        decreases driver.rest().0.len(),
    {
        let ghost rest0 = driver.rest().0;
        let ghost n = documents@.len() as int;
        match driver.next_document() {
            Ok(Some(d)) => {
                proof {
                    assert(rest0[0] == docs[n]);
                    assert(rest0.drop_first() =~= docs.skip(n + 1));
                    assert(encoded_all(documents@.push(d)) =~= docs.take(n + 1));
                }
                documents.push(d);
            },
            Ok(None) => {
                proof {
                    assert(docs.skip(n).len() == 0);
                    assert(n == docs.len());
                }
                return ExtractOutcome { documents, error: None };
            },
            Err(e) => {
                proof {
                    if rest0.len() > 0 {
                        assert(rest0[0] == docs[n]);
                    } else {
                        assert(n == docs.len());
                    }
                }
                return ExtractOutcome { documents, error: Some(e) };
            },
        }
    }
}

/// Relies on `alloc::string::String::from_utf8`: it returns `Ok` exactly
/// when the bytes are valid UTF-8, and the string it returns is carried by
/// exactly those bytes.
#[verifier::external_body]
fn bytes_to_string(bytes: Vec<u8>) -> (r: Option<String>)
    ensures
        r is Some <==> valid_utf8(bytes@),
        r matches Some(t) ==> encode_utf8(t@) == bytes@,
{
    match String::from_utf8(bytes) {
        Ok(t) => Some(t),
        Err(_) => None,
    }
}

} // verus!
