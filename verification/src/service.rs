//! One connection's state machine: frame scanning, method admission,
//! and the response protocol.
//!
//! Bytes read from the client are pushed in one at a time; every push
//! may append response bytes to an output buffer.  The status line
//! goes out as soon as the request line is judged: code 200 with a
//! `Content-Type` header when the method is admitted, 405 when the
//! policy rejects it (echoing the client's protocol token either
//! way), 500 under a fixed protocol literal when the request line is
//! malformed.  After the header terminator a `HEAD` request gets the
//! bare end of the header block and nothing else; any other admitted
//! request gets a `Content-Length` of banner plus captured head plus
//! body length, the banner, the captured request line and headers
//! verbatim, and then exactly the announced body bytes echoed back,
//! stopping early only at end of stream.  Rejected and malformed
//! requests read no body at all.

use vstd::prelude::*;

use crate::ascii::{append_bytes, bytes_eq, dec_digits, format_dec};
use crate::frame::{
    crlf, event_of, init_scan, scan_finish, scan_step, FrameScanner, ScanEvent, ScanModel,
};
use crate::policy::MethodPolicy;

verus! {

/// The fixed protocol literal used when no client token is available.
pub open spec fn http10() -> Seq<u8> {
    seq![72u8, 84u8, 84u8, 80u8, 47u8, 49u8, 46u8, 48u8]
}

/// The banner that opens every echoed body.
pub open spec fn banner() -> Seq<u8> {
    seq![72u8, 101u8, 108u8, 108u8, 111u8, 32u8, 72u8, 84u8, 84u8, 80u8, 10u8, 10u8]
}

/// The method whose responses carry no body.
pub open spec fn head_method() -> Seq<u8> {
    seq![72u8, 69u8, 65u8, 68u8]
}

/// The fixed `Content-Type` header line sent with every 200.
pub open spec fn content_type_line() -> Seq<u8> {
    seq![67u8, 111u8, 110u8, 116u8, 101u8, 110u8, 116u8, 45u8, 84u8, 121u8, 112u8, 101u8, 58u8,
        32u8, 116u8, 101u8, 120u8, 116u8, 47u8, 112u8, 108u8, 97u8, 105u8, 110u8, 59u8, 32u8,
        99u8, 104u8, 97u8, 114u8, 115u8, 101u8, 116u8, 61u8, 117u8, 116u8, 102u8, 45u8, 56u8,
        13u8, 10u8]
}

/// The name-and-separator prefix of the `Content-Length` header line.
pub open spec fn cl_prefix() -> Seq<u8> {
    seq![67u8, 111u8, 110u8, 116u8, 101u8, 110u8, 116u8, 45u8, 76u8, 101u8, 110u8, 103u8, 116u8,
        104u8, 58u8, 32u8]
}

/// The reason phrase of a status code.
pub open spec fn reason(code: int) -> Seq<u8> {
    if code == 200 {
        seq![79u8, 75u8]
    } else if code == 405 {
        seq![77u8, 101u8, 116u8, 104u8, 111u8, 100u8, 32u8, 78u8, 111u8, 116u8, 32u8, 65u8,
            108u8, 108u8, 111u8, 119u8, 101u8, 100u8]
    } else if code == 500 {
        seq![73u8, 110u8, 116u8, 101u8, 114u8, 110u8, 97u8, 108u8, 32u8, 83u8, 101u8, 114u8,
            118u8, 101u8, 114u8, 32u8, 69u8, 114u8, 114u8, 111u8, 114u8]
    } else {
        seq![85u8, 110u8, 107u8, 110u8, 111u8, 119u8, 110u8, 32u8, 83u8, 116u8, 97u8, 116u8,
            117u8, 115u8]
    }
}

/// A status line: protocol token, code, reason phrase; a non-200 code
/// closes the header block at once with a second CRLF.
pub open spec fn resp_line(proto: Seq<u8>, code: int) -> Seq<u8>
    recommends
        code >= 0,
{
    proto + seq![32u8] + dec_digits(code as nat) + seq![32u8] + reason(code) + crlf() + (if code
        != 200 {
        crlf()
    } else {
        Seq::<u8>::empty()
    })
}

/// The `Content-Length` header line announcing `n` body bytes.
pub open spec fn cl_line(n: int) -> Seq<u8>
    recommends
        n >= 0,
{
    cl_prefix() + dec_digits(n as nat) + crlf()
}

/// Whether the connection still reads, echoes, or is finished.
pub enum CState {
    Scanning,
    Echo,
    Closed,
}

/// Mathematical state of one connection.
#[verifier::ext_equal]
pub struct ConnModel {
    pub scan: ScanModel,
    pub st: CState,
    pub echo_remaining: int,
}

/// A transition's outcome: the next state and the bytes it wrote.
#[verifier::ext_equal]
pub struct StepOut {
    pub m: ConnModel,
    pub out: Seq<u8>,
}

/// The connection state before any byte has arrived.
pub open spec fn init_conn() -> ConnModel {
    ConnModel { scan: init_scan(), st: CState::Scanning, echo_remaining: 0 }
}

/// The body length the frame announced, with absent collapsing to
/// zero.
pub open spec fn cl_of(scan: ScanModel) -> int {
    match scan.content_length {
        Some(n) => n,
        None => 0,
    }
}

/// How many body bytes are echoed: none for `HEAD`, else the
/// announced length.
pub open spec fn echo_len(scan: ScanModel) -> int {
    if scan.method == head_method() {
        0
    } else {
        cl_of(scan)
    }
}

/// What goes out when the headers complete: for `HEAD` only the blank
/// line that ends the header block; otherwise the computed
/// `Content-Length`, the blank line, the banner, and the captured
/// request line and headers verbatim.
pub open spec fn tail_out(scan: ScanModel) -> Seq<u8> {
    if scan.method == head_method() {
        crlf()
    } else {
        cl_line(12 + scan.raw.len() + cl_of(scan)) + crlf() + banner() + scan.raw
    }
}

/// What goes out when the request line completes: the status line,
/// and for an admitted method the `Content-Type` header.
pub open spec fn request_line_out(policy: MethodPolicy, scan: ScanModel) -> Seq<u8> {
    if policy.allows(scan.method) {
        resp_line(scan.protocol, 200) + content_type_line()
    } else {
        resp_line(scan.protocol, 405)
    }
}

/// The connection once its frame is complete: it either starts
/// echoing the announced body bytes or is finished.
pub open spec fn complete_frame(scan: ScanModel) -> StepOut {
    if echo_len(scan) > 0 {
        StepOut {
            m: ConnModel { scan, st: CState::Echo, echo_remaining: echo_len(scan) },
            out: tail_out(scan),
        }
    } else {
        StepOut { m: ConnModel { scan, st: CState::Closed, echo_remaining: 0 }, out: tail_out(scan) }
    }
}

/// One step of the connection on byte `b`.
pub open spec fn conn_step(policy: MethodPolicy, m: ConnModel, b: u8) -> StepOut
    recommends
        m.st is Scanning || m.st is Echo,
{
    match m.st {
        CState::Closed => StepOut { m, out: Seq::empty() },
        CState::Echo => {
            let rem = m.echo_remaining - 1;
            if rem <= 0 {
                StepOut {
                    m: ConnModel { scan: m.scan, st: CState::Closed, echo_remaining: 0 },
                    out: seq![b],
                }
            } else {
                StepOut {
                    m: ConnModel { scan: m.scan, st: CState::Echo, echo_remaining: rem },
                    out: seq![b],
                }
            }
        }
        CState::Scanning => {
            let sc2 = scan_step(m.scan, b);
            match event_of(m.scan, sc2) {
                ScanEvent::Progress => StepOut {
                    m: ConnModel { scan: sc2, st: CState::Scanning, echo_remaining: 0 },
                    out: Seq::empty(),
                },
                ScanEvent::BadRequestLine => StepOut {
                    m: ConnModel { scan: sc2, st: CState::Closed, echo_remaining: 0 },
                    out: resp_line(http10(), 500),
                },
                ScanEvent::GotRequestLine => {
                    if policy.allows(sc2.method) {
                        StepOut {
                            m: ConnModel { scan: sc2, st: CState::Scanning, echo_remaining: 0 },
                            out: request_line_out(policy, sc2),
                        }
                    } else {
                        StepOut {
                            m: ConnModel { scan: sc2, st: CState::Closed, echo_remaining: 0 },
                            out: request_line_out(policy, sc2),
                        }
                    }
                }
                ScanEvent::HeadersDone => complete_frame(sc2),
            }
        }
    }
}

/// What the end of the stream does to the connection: an unfinished
/// frame is judged as it stands, and nothing is echoed.
pub open spec fn conn_finish(policy: MethodPolicy, m: ConnModel) -> StepOut {
    match m.st {
        CState::Closed => StepOut { m, out: Seq::empty() },
        CState::Echo => StepOut {
            m: ConnModel { scan: m.scan, st: CState::Closed, echo_remaining: 0 },
            out: Seq::empty(),
        },
        CState::Scanning => {
            let sc2 = scan_finish(m.scan);
            let closed = ConnModel { scan: sc2, st: CState::Closed, echo_remaining: 0 };
            match event_of(m.scan, sc2) {
                ScanEvent::BadRequestLine => StepOut { m: closed, out: resp_line(http10(), 500) },
                ScanEvent::GotRequestLine => {
                    if policy.allows(sc2.method) {
                        StepOut {
                            m: closed,
                            out: request_line_out(policy, sc2) + tail_out(sc2),
                        }
                    } else {
                        StepOut { m: closed, out: request_line_out(policy, sc2) }
                    }
                }
                ScanEvent::HeadersDone => StepOut { m: closed, out: tail_out(sc2) },
                ScanEvent::Progress => StepOut { m: closed, out: Seq::empty() },
            }
        }
    }
}

/// All response bytes a connection writes for the remaining input
/// `s`, starting from state `m`; the stream ends after `s`.
pub open spec fn conn_run_from(policy: MethodPolicy, m: ConnModel, s: Seq<u8>) -> Seq<u8>
    decreases s.len(),
{
    if m.st is Closed {
        Seq::empty()
    } else if s.len() == 0 {
        conn_finish(policy, m).out
    } else {
        conn_step(policy, m, s[0]).out + conn_run_from(policy, conn_step(policy, m, s[0]).m, s.skip(1))
    }
}

/// The full response a fresh connection writes for the input `s`.
pub open spec fn conn_run(policy: MethodPolicy, s: Seq<u8>) -> Seq<u8> {
    conn_run_from(policy, init_conn(), s)
}

/// Appends a status line: the protocol token, the code in decimal,
/// the reason phrase, and for a non-200 code the blank line that ends
/// the header block.
fn emit_resp_line(out: &mut Vec<u8>, proto: &[u8], code: u16)
    ensures
        final(out)@ == old(out)@ + resp_line(proto@, code as int),
{
    append_bytes(out, proto);
    append_bytes(out, &[32]);
    let digits = format_dec(code as u128);
    append_bytes(out, digits.as_slice());
    append_bytes(out, &[32]);
    if code == 200 {
        append_bytes(out, &[79, 75]);
    } else if code == 405 {
        append_bytes(
            out,
            &[77, 101, 116, 104, 111, 100, 32, 78, 111, 116, 32, 65, 108, 108, 111, 119, 101, 100],
        );
    } else if code == 500 {
        append_bytes(
            out,
            &[73, 110, 116, 101, 114, 110, 97, 108, 32, 83, 101, 114, 118, 101, 114, 32, 69, 114,
                114, 111, 114],
        );
    } else {
        append_bytes(out, &[85, 110, 107, 110, 111, 119, 110, 32, 83, 116, 97, 116, 117, 115]);
    }
    append_bytes(out, &[13, 10]);
    if code != 200 {
        append_bytes(out, &[13, 10]);
    }
    proof {
        assert(final(out)@ =~= old(out)@ + resp_line(proto@, code as int));
    }
}

/// Appends the `Content-Length` line for banner plus captured head
/// plus body, the blank line, the banner, and the captured head.
fn emit_body_start(out: &mut Vec<u8>, raw: &[u8], cl: usize)
    ensures
        final(out)@ == old(out)@ + cl_line(12 + raw@.len() + cl as int) + crlf() + banner()
            + raw@,
{
    append_bytes(
        out,
        &[67, 111, 110, 116, 101, 110, 116, 45, 76, 101, 110, 103, 116, 104, 58, 32],
    );
    let total: u128 = 12u128 + raw.len() as u128 + cl as u128;
    let digits = format_dec(total);
    append_bytes(out, digits.as_slice());
    append_bytes(out, &[13, 10]);
    append_bytes(out, &[13, 10]);
    append_bytes(out, &[72, 101, 108, 108, 111, 32, 72, 84, 84, 80, 10, 10]);
    append_bytes(out, raw);
    proof {
        assert(final(out)@ =~= old(out)@ + cl_line(12 + raw@.len() + cl as int) + crlf()
            + banner() + raw@);
    }
}

/// One live connection: the scanner, the admission policy it consults,
/// and where it stands in the response protocol.
pub struct Connection<'a> {
    policy: &'a MethodPolicy,
    scanner: FrameScanner,
    st: CState,
    echo_remaining: usize,
}

impl<'a> Connection<'a> {
    /// The abstract state of the connection.
    pub closed spec fn model(&self) -> ConnModel {
        ConnModel {
            scan: self.scanner.model(),
            st: self.st,
            echo_remaining: self.echo_remaining as int,
        }
    }

    /// The admission policy this connection consults.
    pub closed spec fn policy_spec(&self) -> MethodPolicy {
        *self.policy
    }

    /// Internal consistency.
    pub closed spec fn wf(&self) -> bool {
        &&& self.scanner.wf()
        &&& (self.st is Scanning ==> (self.scanner.model().phase is RequestLine
            || self.scanner.model().phase is Headers))
        &&& (self.st is Scanning ==> self.echo_remaining == 0)
        &&& (self.st is Echo ==> self.echo_remaining > 0)
    }

    /// A fresh connection under the given policy.
    pub fn new(policy: &'a MethodPolicy) -> (r: Self)
        ensures
            r.wf(),
            r.model() == init_conn(),
            r.policy_spec() == *policy,
    {
        let r = Connection {
            policy,
            scanner: FrameScanner::new(),
            st: CState::Scanning,
            echo_remaining: 0,
        };
        proof {
            assert(r.model() =~~= init_conn());
        }
        r
    }

    /// Whether another byte may be fed.
    pub fn can_push(&self) -> (r: bool)
        requires
            self.wf(),
        ensures
            r == ((self.model().st is Scanning && self.model().scan.raw.len() < usize::MAX)
                || self.model().st is Echo),
    {
        match self.st {
            CState::Scanning => self.scanner.raw().len() < usize::MAX,
            CState::Echo => true,
            CState::Closed => false,
        }
    }

    /// Feeds one byte read from the client; response bytes, if any,
    /// are appended to `out`.  Returns whether the connection still
    /// wants input.
    pub fn push_byte(&mut self, b: u8, out: &mut Vec<u8>) -> (open: bool)
        requires
            old(self).wf(),
            old(self).model().st is Scanning || old(self).model().st is Echo,
            old(self).model().st is Scanning ==> old(self).model().scan.raw.len() < usize::MAX,
        ensures
            final(self).wf(),
            final(self).policy_spec() == old(self).policy_spec(),
            final(self).model() == conn_step(old(self).policy_spec(), old(self).model(), b).m,
            final(out)@ == old(out)@ + conn_step(old(self).policy_spec(), old(self).model(), b).out,
            open == !(final(self).model().st is Closed),
    {
        match self.st {
            CState::Closed => {
                proof {
                    assert(false);
                }
                false
            }
            CState::Echo => {
                out.push(b);
                proof {
                    assert(old(out)@.push(b) =~= old(out)@ + seq![b]);
                }
                self.echo_remaining = self.echo_remaining - 1;
                if self.echo_remaining == 0 {
                    self.st = CState::Closed;
                    false
                } else {
                    true
                }
            }
            CState::Scanning => {
                let ev = self.scanner.push(b);
                match ev {
                    ScanEvent::Progress => {
                        proof {
                            assert(old(out)@ + Seq::<u8>::empty() =~= old(out)@);
                        }
                        true
                    }
                    ScanEvent::BadRequestLine => {
                        emit_resp_line(out, &[72, 84, 84, 80, 47, 49, 46, 48], 500);
                        self.st = CState::Closed;
                        proof {
                            assert(resp_line(http10(), 500) =~= resp_line(
                                seq![72u8, 84u8, 84u8, 80u8, 47u8, 49u8, 46u8, 48u8],
                                500,
                            ));
                        }
                        false
                    }
                    ScanEvent::GotRequestLine => {
                        let allowed = self.policy.is_allowed(self.scanner.method().as_slice());
                        if allowed {
                            emit_resp_line(out, self.scanner.protocol().as_slice(), 200);
                            append_bytes(
                                out,
                                &[67, 111, 110, 116, 101, 110, 116, 45, 84, 121, 112, 101, 58, 32,
                                    116, 101, 120, 116, 47, 112, 108, 97, 105, 110, 59, 32, 99,
                                    104, 97, 114, 115, 101, 116, 61, 117, 116, 102, 45, 56, 13,
                                    10],
                            );
                            proof {
                                assert(final(out)@ =~= old(out)@ + request_line_out(
                                    old(self).policy_spec(),
                                    self.scanner.model(),
                                ));
                            }
                            true
                        } else {
                            emit_resp_line(out, self.scanner.protocol().as_slice(), 405);
                            self.st = CState::Closed;
                            false
                        }
                    }
                    ScanEvent::HeadersDone => {
                        let mut hm: Vec<u8> = Vec::new();
                        append_bytes(&mut hm, &[72, 69, 65, 68]);
                        proof {
                            assert(hm@ =~= head_method());
                        }
                        let is_head = bytes_eq(self.scanner.method().as_slice(), hm.as_slice());
                        if is_head {
                            append_bytes(out, &[13, 10]);
                            self.st = CState::Closed;
                            proof {
                                assert(final(out)@ =~= old(out)@ + tail_out(
                                    self.scanner.model(),
                                ));
                            }
                            false
                        } else {
                            let cl = match self.scanner.content_length() {
                                Some(n) => n,
                                None => 0,
                            };
                            emit_body_start(out, self.scanner.raw().as_slice(), cl);
                            proof {
                                assert(final(out)@ =~= old(out)@ + tail_out(
                                    self.scanner.model(),
                                ));
                            }
                            if cl > 0 {
                                self.st = CState::Echo;
                                self.echo_remaining = cl;
                                true
                            } else {
                                self.st = CState::Closed;
                                false
                            }
                        }
                    }
                }
            }
        }
    }

    /// Reports the end of the client's stream; whatever the frame
    /// still owes (judging a partial request line, the header-block
    /// tail) is appended to `out`, and the connection is finished.
    pub fn finish(&mut self, out: &mut Vec<u8>)
        requires
            old(self).wf(),
            old(self).model().st is Scanning || old(self).model().st is Echo,
        ensures
            final(self).model() == conn_finish(old(self).policy_spec(), old(self).model()).m,
            final(out)@ == old(out)@ + conn_finish(old(self).policy_spec(), old(self).model()).out,
    {
        match self.st {
            CState::Closed => {
                proof {
                    assert(false);
                }
            }
            CState::Echo => {
                self.st = CState::Closed;
                self.echo_remaining = 0;
                proof {
                    assert(old(out)@ + Seq::<u8>::empty() =~= old(out)@);
                }
            }
            CState::Scanning => {
                let ev = self.scanner.finish();
                self.st = CState::Closed;
                self.echo_remaining = 0;
                match ev {
                    ScanEvent::Progress => {
                        proof {
                            assert(old(out)@ + Seq::<u8>::empty() =~= old(out)@);
                        }
                    }
                    ScanEvent::BadRequestLine => {
                        emit_resp_line(out, &[72, 84, 84, 80, 47, 49, 46, 48], 500);
                        proof {
                            assert(resp_line(http10(), 500) =~= resp_line(
                                seq![72u8, 84u8, 84u8, 80u8, 47u8, 49u8, 46u8, 48u8],
                                500,
                            ));
                        }
                    }
                    ScanEvent::GotRequestLine => {
                        let allowed = self.policy.is_allowed(self.scanner.method().as_slice());
                        if allowed {
                            emit_resp_line(out, self.scanner.protocol().as_slice(), 200);
                            append_bytes(
                                out,
                                &[67, 111, 110, 116, 101, 110, 116, 45, 84, 121, 112, 101, 58, 32,
                                    116, 101, 120, 116, 47, 112, 108, 97, 105, 110, 59, 32, 99,
                                    104, 97, 114, 115, 101, 116, 61, 117, 116, 102, 45, 56, 13,
                                    10],
                            );
                            let mut hm: Vec<u8> = Vec::new();
                            append_bytes(&mut hm, &[72, 69, 65, 68]);
                            proof {
                                assert(hm@ =~= head_method());
                            }
                            let is_head = bytes_eq(
                                self.scanner.method().as_slice(),
                                hm.as_slice(),
                            );
                            if is_head {
                                append_bytes(out, &[13, 10]);
                            } else {
                                let cl = match self.scanner.content_length() {
                                    Some(n) => n,
                                    None => 0,
                                };
                                emit_body_start(out, self.scanner.raw().as_slice(), cl);
                            }
                            proof {
                                assert(final(out)@ =~= old(out)@ + (request_line_out(
                                    old(self).policy_spec(),
                                    self.scanner.model(),
                                ) + tail_out(self.scanner.model())));
                            }
                        } else {
                            emit_resp_line(out, self.scanner.protocol().as_slice(), 405);
                        }
                    }
                    ScanEvent::HeadersDone => {
                        let mut hm: Vec<u8> = Vec::new();
                        append_bytes(&mut hm, &[72, 69, 65, 68]);
                        proof {
                            assert(hm@ =~= head_method());
                        }
                        let is_head = bytes_eq(self.scanner.method().as_slice(), hm.as_slice());
                        if is_head {
                            append_bytes(out, &[13, 10]);
                        } else {
                            let cl = match self.scanner.content_length() {
                                Some(n) => n,
                                None => 0,
                            };
                            emit_body_start(out, self.scanner.raw().as_slice(), cl);
                        }
                        proof {
                            assert(final(out)@ =~= old(out)@ + tail_out(self.scanner.model()));
                        }
                    }
                }
            }
        }
    }
}

/// Serves one whole request already in memory: feeds every byte
/// through a fresh connection and returns everything the connection
/// wrote back, exactly as the incremental protocol would send it.
pub fn handle_request(input: &[u8], policy: &MethodPolicy) -> (out: Vec<u8>)
    ensures
        out@ == conn_run(*policy, input@),
{
    let mut conn = Connection::new(policy);
    let mut out: Vec<u8> = Vec::new();
    let mut i: usize = 0;
    let mut open: bool = true;
    proof {
        assert(input@.skip(0) =~= input@);
        assert(out@ + conn_run_from(*policy, conn.model(), input@) =~= conn_run_from(
            *policy,
            conn.model(),
            input@,
        ));
    }
    while open && i < input.len()
        invariant
            conn.wf(),
            conn.policy_spec() == *policy,
            0 <= i <= input.len(),
            open == !(conn.model().st is Closed),
            conn.model().st is Scanning ==> conn.model().scan.raw.len() <= i,
            conn_run(*policy, input@) == out@ + conn_run_from(
                *policy,
                conn.model(),
                input@.skip(i as int),
            ),
        decreases input.len() - i,
    {
        let b = input[i];
        proof {
            assert(input@.skip(i as int)[0] == input@[i as int]);
            assert(input@.skip(i as int).skip(1) =~= input@.skip(i as int + 1));
        }
        let ghost pre = conn.model();
        let ghost pre_out = out@;
        open = conn.push_byte(b, &mut out);
        proof {
            let step = conn_step(*policy, pre, b);
            assert(conn_run_from(*policy, pre, input@.skip(i as int)) == step.out
                + conn_run_from(*policy, step.m, input@.skip(i as int + 1)));
            assert(pre_out + (step.out + conn_run_from(*policy, step.m, input@.skip(i as int + 1)))
                =~= (pre_out + step.out) + conn_run_from(*policy, step.m, input@.skip(i as int + 1)));
        }
        i = i + 1;
    }
    if open {
        proof {
            assert(input@.skip(i as int) =~= Seq::<u8>::empty());
        }
        let ghost pre = conn.model();
        let ghost pre_out = out@;
        conn.finish(&mut out);
        proof {
            assert(conn_run_from(*policy, pre, Seq::<u8>::empty()) == conn_finish(
                *policy,
                pre,
            ).out);
        }
    } else {
        proof {
            assert(out@ + Seq::<u8>::empty() =~= out@);
        }
    }
    out
}

} // verus!
