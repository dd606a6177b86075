//! Carving a connection's byte stream into request line, header lines
//! and the header terminator, one byte at a time.
//!
//! The scanner owns a CRLF matcher and accumulates every consumed byte
//! (the echo needs them verbatim).  The first completed line must
//! split on spaces into exactly three tokens — method, target,
//! protocol — or the frame is malformed.  Every further line up to the
//! first empty one is a header line: it is split at its first colon,
//! and when the name trims and lowercases to `content-length` the
//! value is kept if it parses as a non-negative integer, and dropped —
//! never left stale — if it does not.  An end of stream before the
//! terminator closes the current line: a partial request line is still
//! parsed (so a stream with no terminator at all is judged by its
//! tokens), while a partial header line is discarded.

use vstd::prelude::*;
use vstd::slice::{slice_subrange, slice_to_vec};

use crate::ascii::{
    all_digits, append_bytes, bytes_eq, dec_value, find_first, first_index, lower, parse_dec,
    to_lower, to_upper, tokenize, tokens, trim, trim_bytes, upper,
};
use crate::matcher::{init_state, sb_found, sb_step, MatchState, SearchBytes};

verus! {

/// The line terminator pattern.
pub open spec fn crlf() -> Seq<u8> {
    seq![13u8, 10u8]
}

/// The lowercase header name whose value is the body length.
pub open spec fn cl_name() -> Seq<u8> {
    seq![99u8, 111u8, 110u8, 116u8, 101u8, 110u8, 116u8, 45u8, 108u8, 101u8, 110u8, 103u8, 116u8, 104u8]
}

/// Where the scanner stands in the frame.
pub enum Phase {
    RequestLine,
    Headers,
    Done,
    Failed,
}

/// What one fed byte (or the end of the stream) amounted to.
pub enum ScanEvent {
    Progress,
    GotRequestLine,
    BadRequestLine,
    HeadersDone,
}

/// Mathematical state of the scanner.
#[verifier::ext_equal]
pub struct ScanModel {
    pub phase: Phase,
    pub mst: MatchState,
    pub raw: Seq<u8>,
    pub line_start: int,
    pub method: Seq<u8>,
    pub protocol: Seq<u8>,
    pub content_length: Option<int>,
}

/// The request line is well-formed: exactly three space-separated
/// tokens (empty tokens from repeated spaces do not count).
pub open spec fn good_request_line(line: Seq<u8>) -> bool {
    tokens(line, 32).len() == 3
}

/// The method named by a well-formed request line, uppercased.
pub open spec fn line_method(line: Seq<u8>) -> Seq<u8> {
    upper(tokens(line, 32)[0])
}

/// The protocol token of a well-formed request line, verbatim.
pub open spec fn line_protocol(line: Seq<u8>) -> Seq<u8> {
    tokens(line, 32)[2]
}

/// What one header line does to the remembered body length: a line
/// without a colon is skipped; a `content-length` name takes the
/// parsed value, or clears the length when the value does not parse;
/// any other name leaves it alone.
pub open spec fn header_cl(cl_old: Option<int>, line: Seq<u8>) -> Option<int> {
    let i = first_index(line, 58);
    if i == line.len() {
        cl_old
    } else {
        let name = lower(trim(line.take(i)));
        if name == cl_name() {
            let value = trim(line.skip(i + 1));
            if value.len() > 0 && all_digits(value) && dec_value(value) <= usize::MAX {
                Some(dec_value(value) as int)
            } else {
                None
            }
        } else {
            cl_old
        }
    }
}

/// One step of the scanner on byte `b`: the byte joins the raw record
/// and drives the CRLF matcher; a completed line is judged as request
/// line, header line, or terminator.
pub open spec fn scan_step(m: ScanModel, b: u8) -> ScanModel {
    let raw2 = m.raw.push(b);
    let mst2 = sb_step(crlf(), m.mst, b);
    if sb_found(crlf(), mst2) is Some {
        let line = raw2.subrange(m.line_start, raw2.len() - 2);
        if m.phase is RequestLine {
            if good_request_line(line) {
                ScanModel {
                    phase: Phase::Headers,
                    mst: init_state(),
                    raw: raw2,
                    line_start: raw2.len() as int,
                    method: line_method(line),
                    protocol: line_protocol(line),
                    content_length: m.content_length,
                }
            } else {
                ScanModel { phase: Phase::Failed, mst: mst2, raw: raw2, ..m }
            }
        } else {
            if line.len() == 0 {
                ScanModel { phase: Phase::Done, mst: mst2, raw: raw2, ..m }
            } else {
                ScanModel {
                    phase: Phase::Headers,
                    mst: init_state(),
                    raw: raw2,
                    line_start: raw2.len() as int,
                    method: m.method,
                    protocol: m.protocol,
                    content_length: header_cl(m.content_length, line),
                }
            }
        }
    } else {
        ScanModel { mst: mst2, raw: raw2, ..m }
    }
}

/// What the end of the stream does: a partial request line is parsed
/// as it stands, a partial header line is discarded; either way the
/// scanner is finished.
pub open spec fn scan_finish(m: ScanModel) -> ScanModel {
    if m.phase is RequestLine {
        let line = m.raw.skip(m.line_start);
        if good_request_line(line) {
            ScanModel {
                phase: Phase::Done,
                method: line_method(line),
                protocol: line_protocol(line),
                ..m
            }
        } else {
            ScanModel { phase: Phase::Failed, ..m }
        }
    } else {
        ScanModel { phase: Phase::Done, ..m }
    }
}

/// The event a transition announces, read off the two phases.
pub open spec fn event_of(pre: ScanModel, post: ScanModel) -> ScanEvent {
    if post.phase is Failed && !(pre.phase is Failed) {
        ScanEvent::BadRequestLine
    } else if pre.phase is RequestLine && (post.phase is Headers || post.phase is Done) {
        ScanEvent::GotRequestLine
    } else if pre.phase is Headers && post.phase is Done {
        ScanEvent::HeadersDone
    } else {
        ScanEvent::Progress
    }
}

/// The scanner state before any byte has arrived.
pub open spec fn init_scan() -> ScanModel {
    ScanModel {
        phase: Phase::RequestLine,
        mst: init_state(),
        raw: Seq::empty(),
        line_start: 0,
        method: Seq::empty(),
        protocol: Seq::empty(),
        content_length: None,
    }
}

/// Incremental scanner for one request frame.
pub struct FrameScanner {
    phase: Phase,
    line_sb: SearchBytes,
    raw: Vec<u8>,
    line_start: usize,
    method: Vec<u8>,
    protocol: Vec<u8>,
    content_length: Option<usize>,
}

impl FrameScanner {
    /// The abstract state of the scanner.
    pub closed spec fn model(&self) -> ScanModel {
        ScanModel {
            phase: self.phase,
            mst: self.line_sb.st(),
            raw: self.raw@,
            line_start: self.line_start as int,
            method: self.method@,
            protocol: self.protocol@,
            content_length: match self.content_length {
                Some(n) => Some(n as int),
                None => None,
            },
        }
    }

    /// Internal consistency: the matcher scans CRLF, counts exactly
    /// the bytes of the current line, and is never left latched while
    /// scanning goes on.
    pub closed spec fn wf(&self) -> bool {
        &&& self.line_sb.wf()
        &&& self.line_sb.pattern() == crlf()
        &&& self.line_start <= self.raw@.len()
        &&& self.line_sb.st().count == self.raw@.len() - self.line_start
        &&& (self.phase is RequestLine || self.phase is Headers) ==> !self.line_sb.latched()
    }

    /// A fresh scanner, ready for the request line.
    pub fn new() -> (r: Self)
        ensures
            r.wf(),
            r.model() == init_scan(),
    {
        let mut pat: Vec<u8> = Vec::new();
        pat.push(13);
        pat.push(10);
        proof {
            assert(pat@ =~= crlf());
        }
        let line_sb = SearchBytes::new(pat).unwrap();
        let r = FrameScanner {
            phase: Phase::RequestLine,
            line_sb,
            raw: Vec::new(),
            line_start: 0,
            method: Vec::new(),
            protocol: Vec::new(),
            content_length: None,
        };
        proof {
            assert(r.model() =~~= init_scan());
        }
        r
    }

    /// Feeds one byte of the stream.
    pub fn push(&mut self, b: u8) -> (ev: ScanEvent)
        requires
            old(self).wf(),
            old(self).model().phase is RequestLine || old(self).model().phase is Headers,
            old(self).model().raw.len() < usize::MAX,
        ensures
            final(self).wf(),
            final(self).model() == scan_step(old(self).model(), b),
            ev == event_of(old(self).model(), final(self).model()),
    {
        self.raw.push(b);
        let found = self.line_sb.search(&b);
        if found.is_none() {
            return ScanEvent::Progress;
        }
        let line_end = self.raw.len() - 2;
        let line = slice_subrange(self.raw.as_slice(), self.line_start, line_end);
        match self.phase {
            Phase::RequestLine => {
                let toks = tokenize(line, 32);
                if toks.len() == 3 {
                    proof {
                        assert(toks.deep_view()[0] =~= toks@[0]@);
                        assert(toks.deep_view()[2] =~= toks@[2]@);
                    }
                    self.method = to_upper(toks[0].as_slice());
                    self.protocol = slice_to_vec(toks[2].as_slice());
                    self.phase = Phase::Headers;
                    self.line_sb.reset();
                    self.line_start = self.raw.len();
                    ScanEvent::GotRequestLine
                } else {
                    self.phase = Phase::Failed;
                    ScanEvent::BadRequestLine
                }
            }
            Phase::Headers => {
                if line_end == self.line_start {
                    self.phase = Phase::Done;
                    ScanEvent::HeadersDone
                } else {
                    match find_first(line, 58) {
                        None => {}
                        Some(ci) => {
                            let rawname = slice_subrange(line, 0, ci);
                            let name = to_lower(trim_bytes(rawname).as_slice());
                            let mut cl_header: Vec<u8> = Vec::new();
                            append_bytes(
                                &mut cl_header,
                                &[99, 111, 110, 116, 101, 110, 116, 45, 108, 101, 110, 103, 116, 104],
                            );
                            proof {
                                assert(cl_header@ =~= cl_name());
                            }
                            if bytes_eq(name.as_slice(), cl_header.as_slice()) {
                                let rawval = slice_subrange(line, ci + 1, line.len());
                                let value = trim_bytes(rawval);
                                self.content_length = parse_dec(value.as_slice());
                            }
                        }
                    }
                    self.line_sb.reset();
                    self.line_start = self.raw.len();
                    ScanEvent::Progress
                }
            }
            Phase::Done => {
                proof {
                    assert(false);
                }
                ScanEvent::Progress
            }
            Phase::Failed => {
                proof {
                    assert(false);
                }
                ScanEvent::Progress
            }
        }
    }

    /// Reports the end of the stream.
    pub fn finish(&mut self) -> (ev: ScanEvent)
        requires
            old(self).wf(),
            old(self).model().phase is RequestLine || old(self).model().phase is Headers,
        ensures
            final(self).wf(),
            final(self).model() == scan_finish(old(self).model()),
            ev == event_of(old(self).model(), final(self).model()),
    {
        match self.phase {
            Phase::RequestLine => {
                let line = slice_subrange(self.raw.as_slice(), self.line_start, self.raw.len());
                let toks = tokenize(line, 32);
                if toks.len() == 3 {
                    proof {
                        assert(toks.deep_view()[0] =~= toks@[0]@);
                        assert(toks.deep_view()[2] =~= toks@[2]@);
                    }
                    self.method = to_upper(toks[0].as_slice());
                    self.protocol = slice_to_vec(toks[2].as_slice());
                    self.phase = Phase::Done;
                    ScanEvent::GotRequestLine
                } else {
                    self.phase = Phase::Failed;
                    ScanEvent::BadRequestLine
                }
            }
            _ => {
                self.phase = Phase::Done;
                ScanEvent::HeadersDone
            }
        }
    }

    /// The uppercased method token of the request line.
    pub fn method(&self) -> (r: &Vec<u8>)
        ensures
            r@ == self.model().method,
    {
        &self.method
    }

    /// The protocol token of the request line, verbatim.
    pub fn protocol(&self) -> (r: &Vec<u8>)
        ensures
            r@ == self.model().protocol,
    {
        &self.protocol
    }

    /// Every byte consumed so far, request line through terminator.
    pub fn raw(&self) -> (r: &Vec<u8>)
        ensures
            r@ == self.model().raw,
    {
        &self.raw
    }

    /// The remembered body length, if a header gave one.
    pub fn content_length(&self) -> (r: Option<usize>)
        ensures
            match r {
                Some(n) => self.model().content_length == Some(n as int),
                None => self.model().content_length is None,
            },
    {
        self.content_length
    }
}

} // verus!
