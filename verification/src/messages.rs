//! The request and response messages and their binary wire format.
//!
//! A message is a tagged union carried as one framed field: a tag byte
//! naming the variant, the body length as a varint, then the body. A body
//! is itself a short sequence of tagged fields — varint-coded 32-bit
//! integers for the arithmetic request and response, a length-prefixed
//! byte string for the echo content. A message whose union is unset
//! encodes to the empty byte string. Every well-formed message has exactly
//! one encoding, and `decode_client` / `decode_server` accept exactly
//! those encodings.

use vstd::prelude::*;
use crate::wire::{
    spec_varint, varint_at, encode_varint, parse_varint, lemma_varint_len32,
    lemma_varint_at_unique,
};

verus! {

// ---------------------------------------------------------------------
// Message types and their mathematical views
// ---------------------------------------------------------------------

/// An addition request: two 32-bit operands.
pub struct AddRequest {
    pub a: i32,
    pub b: i32,
}

/// An echo request or response: a byte string carried verbatim.
pub struct EchoMessage {
    pub content: Vec<u8>,
}

/// An addition response: the 32-bit wrapping sum.
pub struct AddResponse {
    pub result: i32,
}

pub enum ClientPayload {
    AddRequest(AddRequest),
    EchoMessage(EchoMessage),
}

/// A request message. `message` is `None` for a recognized message in
/// which no variant is set; such a message is valid but carries nothing.
pub struct ClientMessage {
    pub message: Option<ClientPayload>,
}

pub enum ServerPayload {
    AddResponse(AddResponse),
    EchoMessage(EchoMessage),
}

/// A response message, mirroring the request variants one to one.
pub struct ServerMessage {
    pub message: Option<ServerPayload>,
}

/// What a request says, with the heap data abstracted to a sequence.
pub enum ClientMsgV {
    Empty,
    Add { a: i32, b: i32 },
    Echo { content: Seq<u8> },
}

/// What a response says.
pub enum ServerMsgV {
    Empty,
    AddResult { result: i32 },
    Echo { content: Seq<u8> },
}

impl View for ClientMessage {
    type V = ClientMsgV;

    open spec fn view(&self) -> ClientMsgV {
        match self.message {
            None => ClientMsgV::Empty,
            Some(ClientPayload::AddRequest(r)) => ClientMsgV::Add { a: r.a, b: r.b },
            Some(ClientPayload::EchoMessage(e)) => ClientMsgV::Echo { content: e.content@ },
        }
    }
}

impl View for ServerMessage {
    type V = ServerMsgV;

    open spec fn view(&self) -> ServerMsgV {
        match self.message {
            None => ServerMsgV::Empty,
            Some(ServerPayload::AddResponse(r)) => ServerMsgV::AddResult { result: r.result },
            Some(ServerPayload::EchoMessage(e)) => ServerMsgV::Echo { content: e.content@ },
        }
    }
}

/// Echo content carries its length in a 32-bit field, so a well-formed
/// message bounds it.
pub open spec fn client_wf(v: ClientMsgV) -> bool {
    match v {
        ClientMsgV::Echo { content } => content.len() < 0x1_0000_0000,
        _ => true,
    }
}

pub open spec fn server_wf(v: ServerMsgV) -> bool {
    match v {
        ServerMsgV::Echo { content } => content.len() < 0x1_0000_0000,
        _ => true,
    }
}

/// The error a malformed byte string decodes to.
#[derive(Clone, Copy, Debug, PartialEq, Eq, Structural)]
pub struct DecodeError;

// ---------------------------------------------------------------------
// 32-bit values on the wire: two's complement, zero-extended to u64
// ---------------------------------------------------------------------

/// The wire image of a 32-bit integer: its two's-complement bit pattern
/// as a value below 2^32.
pub open spec fn enc32(x: i32) -> u64 {
    if x >= 0 {
        x as u64
    } else {
        (x + 0x1_0000_0000) as u64
    }
}

/// The integer a wire image below 2^32 stands for.
pub open spec fn dec32(v: u64) -> i32
    recommends
        v < 0x1_0000_0000,
{
    if v < 0x8000_0000 {
        v as i32
    } else {
        (v - 0x1_0000_0000) as i32
    }
}

pub proof fn lemma_enc32_dec32(x: i32, v: u64)
    ensures
        enc32(x) < 0x1_0000_0000,
        dec32(enc32(x)) == x,
        v < 0x1_0000_0000 ==> enc32(dec32(v)) == v,
{
}

fn i32_to_wire(x: i32) -> (r: u64)
    ensures
        r == enc32(x),
{
    if x >= 0 {
        x as u64
    } else {
        ((x as i64) + 0x1_0000_0000) as u64
    }
}

fn wire_to_i32(v: u64) -> (r: i32)
    requires
        v < 0x1_0000_0000,
    ensures
        r == dec32(v),
{
    if v < 0x8000_0000 {
        v as i32
    } else {
        ((v as i64) - 0x1_0000_0000) as i32
    }
}

// ---------------------------------------------------------------------
// The encodings
// ---------------------------------------------------------------------

pub const TAG_FIRST: u8 = 0x0A;

pub const TAG_SECOND: u8 = 0x12;

pub const FIELD_A: u8 = 0x08;

pub const FIELD_B: u8 = 0x10;

pub const FIELD_BYTES: u8 = 0x0A;

/// One framed field: tag byte, body length as a varint, body.
pub open spec fn spec_framed(tag: u8, body: Seq<u8>) -> Seq<u8> {
    seq![tag] + spec_varint(body.len() as u64) + body
}

pub open spec fn spec_add_req_body(a: i32, b: i32) -> Seq<u8> {
    seq![FIELD_A] + spec_varint(enc32(a)) + seq![FIELD_B] + spec_varint(enc32(b))
}

pub open spec fn spec_add_resp_body(result: i32) -> Seq<u8> {
    seq![FIELD_A] + spec_varint(enc32(result))
}

pub open spec fn spec_echo_body(content: Seq<u8>) -> Seq<u8> {
    seq![FIELD_BYTES] + spec_varint(content.len() as u64) + content
}

pub open spec fn spec_encode_client(v: ClientMsgV) -> Seq<u8> {
    match v {
        ClientMsgV::Empty => Seq::empty(),
        ClientMsgV::Add { a, b } => spec_framed(TAG_FIRST, spec_add_req_body(a, b)),
        ClientMsgV::Echo { content } => spec_framed(TAG_SECOND, spec_echo_body(content)),
    }
}

pub open spec fn spec_encode_server(v: ServerMsgV) -> Seq<u8> {
    match v {
        ServerMsgV::Empty => Seq::empty(),
        ServerMsgV::AddResult { result } => spec_framed(TAG_FIRST, spec_add_resp_body(result)),
        ServerMsgV::Echo { content } => spec_framed(TAG_SECOND, spec_echo_body(content)),
    }
}

// ---------------------------------------------------------------------
// Where the pieces of an encoding lie
// ---------------------------------------------------------------------

/// A varint embedded between two byte strings starts right after the
/// first one.
proof fn lemma_varint_embed(pre: Seq<u8>, v: u64, suf: Seq<u8>)
    ensures
        varint_at(pre + spec_varint(v) + suf, pre.len() as int, v),
{
    let s = pre + spec_varint(v) + suf;
    let k = spec_varint(v).len() as int;
    assert(s.subrange(pre.len() as int, pre.len() + k) =~= spec_varint(v)) by {
        assert forall|i: int| 0 <= i < k implies s.subrange(pre.len() as int, pre.len() + k)[i]
            == spec_varint(v)[i] by {
            assert(s[pre.len() + i] == (pre + spec_varint(v))[pre.len() + i]);
        }
    }
}

/// A varint lying inside an identified subrange lies in the whole.
proof fn lemma_varint_at_lift(s: Seq<u8>, off: int, t: Seq<u8>, p: int, v: u64)
    requires
        0 <= off,
        off + t.len() <= s.len(),
        s.subrange(off, off + t.len()) == t,
        varint_at(t, p, v),
    ensures
        varint_at(s, off + p, v),
{
    let k = spec_varint(v).len() as int;
    assert(s.subrange(off + p, off + p + k) =~= spec_varint(v)) by {
        assert forall|i: int| 0 <= i < k implies s.subrange(off + p, off + p + k)[i]
            == spec_varint(v)[i] by {
            assert(t[p + i] == s.subrange(off, off + t.len())[p + i]);
            assert(t.subrange(p, p + k)[i] == t[p + i]);
        }
    }
}

/// The parts of a framed field: the tag, the length varint, the body.
proof fn lemma_framed_facts(tag: u8, body: Seq<u8>)
    requires
        body.len() <= u64::MAX,
    ensures
        ({
            let s = spec_framed(tag, body);
            let lv = spec_varint(body.len() as u64);
            &&& s.len() == 1 + lv.len() + body.len()
            &&& s[0] == tag
            &&& varint_at(s, 1, body.len() as u64)
            &&& s.subrange(1 + lv.len() as int, s.len() as int) == body
        }),
{
    let s = spec_framed(tag, body);
    let lv = spec_varint(body.len() as u64);
    lemma_varint_embed(seq![tag], body.len() as u64, body);
    assert(s.subrange(1 + lv.len() as int, s.len() as int) =~= body) by {
        assert forall|i: int| 0 <= i < body.len() implies s.subrange(
            1 + lv.len() as int,
            s.len() as int,
        )[i] == body[i] by {
            assert(s[1 + lv.len() + i] == body[i]);
        }
    }
}

/// A byte string whose length varint and tail positions line up is the
/// framed field of its own tail.
proof fn lemma_framed_assemble(s: Seq<u8>, start: int)
    requires
        1 <= start <= s.len(),
        s.len() <= u64::MAX,
        varint_at(s, 1, (s.len() - start) as u64),
        start == 1 + spec_varint((s.len() - start) as u64).len(),
    ensures
        s == spec_framed(s[0], s.subrange(start, s.len() as int)),
{
    let body = s.subrange(start, s.len() as int);
    let lv = spec_varint((s.len() - start) as u64);
    let t = spec_framed(s[0], body);
    assert(s =~= t) by {
        assert forall|i: int| 0 <= i < s.len() implies s[i] == t[i] by {
            if 1 <= i < start {
                assert(s.subrange(1, 1 + lv.len() as int)[i - 1] == s[i]);
                assert(t[i] == lv[i - 1]);
            } else if start <= i {
                assert(t[i] == body[i - start]);
                assert(body[i - start] == s[i]);
            }
        }
    }
}

/// Where everything lies in the encoding of an addition request.
proof fn lemma_client_add_facts(a: i32, b: i32)
    ensures
        ({
            let s = spec_encode_client(ClientMsgV::Add { a, b });
            let body = spec_add_req_body(a, b);
            let p0 = 1 + spec_varint(body.len() as u64).len() as int;
            let pa = p0 + 1;
            let p1 = pa + spec_varint(enc32(a)).len() as int;
            let pb = p1 + 1;
            &&& body.len() == 2 + spec_varint(enc32(a)).len() + spec_varint(enc32(b)).len()
            &&& body.len() <= 12
            &&& s.len() == pb + spec_varint(enc32(b)).len()
            &&& s.len() >= 2
            &&& s[0] == TAG_FIRST
            &&& varint_at(s, 1, body.len() as u64)
            &&& s[p0] == FIELD_A
            &&& varint_at(s, pa, enc32(a))
            &&& s[p1] == FIELD_B
            &&& varint_at(s, pb, enc32(b))
        }),
{
    let s = spec_encode_client(ClientMsgV::Add { a, b });
    let body = spec_add_req_body(a, b);
    let va = spec_varint(enc32(a));
    let vb = spec_varint(enc32(b));
    lemma_enc32_dec32(a, 0);
    lemma_enc32_dec32(b, 0);
    lemma_varint_len32(enc32(a));
    lemma_varint_len32(enc32(b));
    lemma_framed_facts(TAG_FIRST, body);
    let p0 = 1 + spec_varint(body.len() as u64).len() as int;
    // facts inside the body, then lifted to s
    lemma_varint_embed(seq![FIELD_A], enc32(a), seq![FIELD_B] + vb);
    assert(seq![FIELD_A] + va + (seq![FIELD_B] + vb) =~= body);
    assert(varint_at(body, 1, enc32(a)));
    lemma_varint_embed(seq![FIELD_A] + va + seq![FIELD_B], enc32(b), Seq::empty());
    assert(seq![FIELD_A] + va + seq![FIELD_B] + vb + Seq::<u8>::empty() =~= body);
    assert(varint_at(body, 2 + va.len() as int, enc32(b)));
    lemma_varint_at_lift(s, p0, body, 1, enc32(a));
    lemma_varint_at_lift(s, p0, body, 2 + va.len() as int, enc32(b));
    assert(s[p0] == s.subrange(p0, s.len() as int)[0]);
    assert(s[p0 + 1 + va.len()] == s.subrange(p0, s.len() as int)[1 + va.len() as int]);
}

/// Where everything lies in the encoding of an echo request or response.
proof fn lemma_echo_facts(tag: u8, content: Seq<u8>)
    requires
        content.len() < 0x1_0000_0000,
    ensures
        ({
            let s = spec_framed(tag, spec_echo_body(content));
            let body = spec_echo_body(content);
            let p0 = 1 + spec_varint(body.len() as u64).len() as int;
            let pc = p0 + 1 + spec_varint(content.len() as u64).len() as int;
            &&& body.len() == 1 + spec_varint(content.len() as u64).len() + content.len()
            &&& s.len() == pc + content.len()
            &&& s.len() >= 2
            &&& s[0] == tag
            &&& varint_at(s, 1, body.len() as u64)
            &&& s[p0] == FIELD_BYTES
            &&& varint_at(s, p0 + 1, content.len() as u64)
            &&& s.subrange(pc, s.len() as int) == content
        }),
{
    let s = spec_framed(tag, spec_echo_body(content));
    let body = spec_echo_body(content);
    let cl = content.len() as u64;
    let vc = spec_varint(cl);
    lemma_varint_len32(cl);
    lemma_framed_facts(tag, body);
    let p0 = 1 + spec_varint(body.len() as u64).len() as int;
    let pc = p0 + 1 + vc.len() as int;
    lemma_varint_embed(seq![FIELD_BYTES], cl, content);
    assert(varint_at(body, 1, cl));
    lemma_varint_at_lift(s, p0, body, 1, cl);
    assert(s[p0] == s.subrange(p0, s.len() as int)[0]);
    assert(s.subrange(pc, s.len() as int) =~= content) by {
        assert forall|i: int| 0 <= i < content.len() implies s.subrange(pc, s.len() as int)[i]
            == content[i] by {
            assert(s.subrange(p0, s.len() as int)[1 + vc.len() + i] == s[pc + i]);
            assert(body[1 + vc.len() + i] == content[i]);
        }
    }
}

/// Where everything lies in the encoding of an addition response.
proof fn lemma_server_add_facts(result: i32)
    ensures
        ({
            let s = spec_encode_server(ServerMsgV::AddResult { result });
            let body = spec_add_resp_body(result);
            let p0 = 1 + spec_varint(body.len() as u64).len() as int;
            let pr = p0 + 1;
            &&& body.len() == 1 + spec_varint(enc32(result)).len()
            &&& body.len() <= 6
            &&& s.len() == pr + spec_varint(enc32(result)).len()
            &&& s.len() >= 2
            &&& s[0] == TAG_FIRST
            &&& varint_at(s, 1, body.len() as u64)
            &&& s[p0] == FIELD_A
            &&& varint_at(s, pr, enc32(result))
        }),
{
    let s = spec_encode_server(ServerMsgV::AddResult { result });
    let body = spec_add_resp_body(result);
    let vr = spec_varint(enc32(result));
    lemma_enc32_dec32(result, 0);
    lemma_varint_len32(enc32(result));
    lemma_framed_facts(TAG_FIRST, body);
    let p0 = 1 + spec_varint(body.len() as u64).len() as int;
    lemma_varint_embed(seq![FIELD_A], enc32(result), Seq::empty());
    assert(seq![FIELD_A] + vr + Seq::<u8>::empty() =~= body);
    assert(varint_at(body, 1, enc32(result)));
    lemma_varint_at_lift(s, p0, body, 1, enc32(result));
    assert(s[p0] == s.subrange(p0, s.len() as int)[0]);
}

// ---------------------------------------------------------------------
// Encoding
// ---------------------------------------------------------------------

fn append_slice(out: &mut Vec<u8>, data: &[u8])
    ensures
        final(out)@ == old(out)@ + data@,
{
    let mut i: usize = 0;
    while i < data.len()
        invariant
            i <= data@.len(),
            out@ == old(out)@ + data@.subrange(0, i as int),
        decreases data@.len() - i,
    {
        out.push(data[i]);
        proof {
            assert(old(out)@ + data@.subrange(0, i as int) + seq![data@[i as int]] =~= old(out)@
                + data@.subrange(0, i + 1));
        }
        i = i + 1;
    }
    proof {
        assert(data@.subrange(0, data@.len() as int) =~= data@);
    }
}

fn frame(tag: u8, body: &Vec<u8>) -> (r: Vec<u8>)
    ensures
        r@ == spec_framed(tag, body@),
{
    let mut out: Vec<u8> = Vec::new();
    out.push(tag);
    proof {
        assert(out@ =~= seq![tag]);
    }
    encode_varint(body.len() as u64, &mut out);
    append_slice(&mut out, body.as_slice());
    proof {
        assert(out@ =~= seq![tag] + spec_varint(body@.len() as u64) + body@);
    }
    out
}

/// Encodes a request. The encoding is the unique byte string that
/// `spec_encode_client` gives its view.
pub fn encode_client(m: &ClientMessage) -> (r: Vec<u8>)
    requires
        client_wf(m@),
    ensures
        r@ == spec_encode_client(m@),
{
    match &m.message {
        None => {
            let r: Vec<u8> = Vec::new();
            proof {
                assert(r@ =~= Seq::<u8>::empty());
            }
            r
        },
        Some(ClientPayload::AddRequest(req)) => {
            let mut body: Vec<u8> = Vec::new();
            body.push(FIELD_A);
            encode_varint(i32_to_wire(req.a), &mut body);
            body.push(FIELD_B);
            encode_varint(i32_to_wire(req.b), &mut body);
            proof {
                assert(body@ =~= spec_add_req_body(req.a, req.b));
            }
            frame(TAG_FIRST, &body)
        },
        Some(ClientPayload::EchoMessage(e)) => {
            let mut body: Vec<u8> = Vec::new();
            body.push(FIELD_BYTES);
            encode_varint(e.content.len() as u64, &mut body);
            append_slice(&mut body, e.content.as_slice());
            proof {
                assert(body@ =~= spec_echo_body(e.content@));
            }
            frame(TAG_SECOND, &body)
        },
    }
}

/// Encodes a response; the mirror of `encode_client`.
pub fn encode_server(m: &ServerMessage) -> (r: Vec<u8>)
    requires
        server_wf(m@),
    ensures
        r@ == spec_encode_server(m@),
{
    match &m.message {
        None => {
            let r: Vec<u8> = Vec::new();
            proof {
                assert(r@ =~= Seq::<u8>::empty());
            }
            r
        },
        Some(ServerPayload::AddResponse(resp)) => {
            let mut body: Vec<u8> = Vec::new();
            body.push(FIELD_A);
            encode_varint(i32_to_wire(resp.result), &mut body);
            proof {
                assert(body@ =~= spec_add_resp_body(resp.result));
            }
            frame(TAG_FIRST, &body)
        },
        Some(ServerPayload::EchoMessage(e)) => {
            let mut body: Vec<u8> = Vec::new();
            body.push(FIELD_BYTES);
            encode_varint(e.content.len() as u64, &mut body);
            append_slice(&mut body, e.content.as_slice());
            proof {
                assert(body@ =~= spec_echo_body(e.content@));
            }
            frame(TAG_SECOND, &body)
        },
    }
}

// ---------------------------------------------------------------------
// Identification: parsed pieces of an encoding are the encoded pieces
// ---------------------------------------------------------------------

/// In the encoding of an addition request, the frame varint parsed at 1
/// is the body length, and the first field follows it.
proof fn lemma_add_identified(s: Seq<u8>, a: i32, b: i32, flen: u64, start: int)
    requires
        s == spec_encode_client(ClientMsgV::Add { a, b }),
        varint_at(s, 1, flen),
        start == 1 + spec_varint(flen).len(),
    ensures
        flen == spec_add_req_body(a, b).len() as u64,
        s.len() - start == flen,
        start < s.len(),
        s[start] == FIELD_A,
        varint_at(s, start + 1, enc32(a)),
        enc32(a) < 0x1_0000_0000,
{
    lemma_client_add_facts(a, b);
    lemma_enc32_dec32(a, 0);
    let body = spec_add_req_body(a, b);
    lemma_varint_at_unique(s, 1, flen, body.len() as u64);
}

/// Continuing: the second field of an addition request.
proof fn lemma_add_identified2(s: Seq<u8>, a: i32, b: i32, start: int, ua: u64, q: int)
    requires
        s == spec_encode_client(ClientMsgV::Add { a, b }),
        varint_at(s, 1, spec_add_req_body(a, b).len() as u64),
        start == 1 + spec_varint(spec_add_req_body(a, b).len() as u64).len(),
        varint_at(s, start + 1, ua),
        q == start + 1 + spec_varint(ua).len(),
    ensures
        ua == enc32(a),
        q < s.len(),
        s[q] == FIELD_B,
        varint_at(s, q + 1, enc32(b)),
        enc32(b) < 0x1_0000_0000,
        s.len() == q + 1 + spec_varint(enc32(b)).len(),
{
    lemma_client_add_facts(a, b);
    lemma_enc32_dec32(a, 0);
    lemma_enc32_dec32(b, 0);
    lemma_varint_at_unique(s, start + 1, ua, enc32(a));
}

/// In the encoding of an echo message, the parsed pieces are the body
/// length, the content length, and the content.
proof fn lemma_echo_identified(s: Seq<u8>, tag: u8, content: Seq<u8>, flen: u64, start: int)
    requires
        s == spec_framed(tag, spec_echo_body(content)),
        content.len() < 0x1_0000_0000,
        varint_at(s, 1, flen),
        start == 1 + spec_varint(flen).len(),
    ensures
        flen == spec_echo_body(content).len() as u64,
        s.len() - start == flen,
        start < s.len(),
        s[start] == FIELD_BYTES,
        varint_at(s, start + 1, content.len() as u64),
{
    lemma_echo_facts(tag, content);
    lemma_varint_len32(content.len() as u64);
    lemma_varint_at_unique(s, 1, flen, spec_echo_body(content).len() as u64);
}

/// Continuing: the content occupies the rest of the frame.
proof fn lemma_echo_identified2(s: Seq<u8>, tag: u8, content: Seq<u8>, start: int, clen: u64, q: int)
    requires
        s == spec_framed(tag, spec_echo_body(content)),
        content.len() < 0x1_0000_0000,
        varint_at(s, 1, spec_echo_body(content).len() as u64),
        start == 1 + spec_varint(spec_echo_body(content).len() as u64).len(),
        varint_at(s, start + 1, clen),
        q == start + 1 + spec_varint(clen).len(),
    ensures
        clen == content.len() as u64,
        s.len() - q == clen,
        s.subrange(q, s.len() as int) == content,
{
    lemma_echo_facts(tag, content);
    lemma_varint_len32(content.len() as u64);
    lemma_varint_at_unique(s, start + 1, clen, content.len() as u64);
}

// ---------------------------------------------------------------------
// Acceptance: parsed pieces assemble back into an encoding
// ---------------------------------------------------------------------

/// A byte string that parses as an addition request frame is the
/// encoding of that request.
proof fn lemma_client_add_accept(s: Seq<u8>, a: i32, b: i32, start: int, q: int)
    requires
        s.len() <= u64::MAX,
        1 <= start < s.len(),
        s[0] == TAG_FIRST,
        varint_at(s, 1, (s.len() - start) as u64),
        start == 1 + spec_varint((s.len() - start) as u64).len(),
        s[start] == FIELD_A,
        varint_at(s, start + 1, enc32(a)),
        q == start + 1 + spec_varint(enc32(a)).len(),
        q < s.len(),
        s[q] == FIELD_B,
        varint_at(s, q + 1, enc32(b)),
        s.len() == q + 1 + spec_varint(enc32(b)).len(),
    ensures
        s == spec_encode_client(ClientMsgV::Add { a, b }),
{
    let va = spec_varint(enc32(a));
    let vb = spec_varint(enc32(b));
    let ka = va.len() as int;
    let kb = vb.len() as int;
    let body = spec_add_req_body(a, b);
    assert(s.subrange(start, s.len() as int) =~= body) by {
        assert forall|i: int| 0 <= i < s.len() - start implies s.subrange(
            start,
            s.len() as int,
        )[i] == body[i] by {
            assert(s.subrange(start, s.len() as int)[i] == s[start + i]);
            if i == 0 {
            } else if i < 1 + ka {
                assert(s.subrange(start + 1, start + 1 + ka)[i - 1] == s[start + i]);
                assert(body[i] == va[i - 1]);
            } else if i == 1 + ka {
                assert(body[i] == FIELD_B);
            } else {
                assert(s.subrange(q + 1, q + 1 + kb)[i - 2 - ka] == s[start + i]);
                assert(body[i] == vb[i - 2 - ka]);
            }
        }
    }
    lemma_framed_assemble(s, start);
}

/// A byte string that parses as an echo frame is the encoding of that
/// echo message.
proof fn lemma_echo_accept(s: Seq<u8>, tag: u8, content: Seq<u8>, start: int, q: int)
    requires
        s.len() <= u64::MAX,
        1 <= start < s.len(),
        s[0] == tag,
        varint_at(s, 1, (s.len() - start) as u64),
        start == 1 + spec_varint((s.len() - start) as u64).len(),
        s[start] == FIELD_BYTES,
        varint_at(s, start + 1, (s.len() - q) as u64),
        q == start + 1 + spec_varint((s.len() - q) as u64).len(),
        q <= s.len(),
        content == s.subrange(q, s.len() as int),
    ensures
        s == spec_framed(tag, spec_echo_body(content)),
{
    let cl = (s.len() - q) as u64;
    let vc = spec_varint(cl);
    let kc = vc.len() as int;
    let body = spec_echo_body(content);
    assert(content.len() == cl);
    assert(s.subrange(start, s.len() as int) =~= body) by {
        assert forall|i: int| 0 <= i < s.len() - start implies s.subrange(
            start,
            s.len() as int,
        )[i] == body[i] by {
            assert(s.subrange(start, s.len() as int)[i] == s[start + i]);
            if i == 0 {
            } else if i < 1 + kc {
                assert(s.subrange(start + 1, start + 1 + kc)[i - 1] == s[start + i]);
                assert(body[i] == vc[i - 1]);
            } else {
                assert(body[i] == content[i - 1 - kc]);
                assert(content[i - 1 - kc] == s[q + (i - 1 - kc)]);
            }
        }
    }
    lemma_framed_assemble(s, start);
}

// ---------------------------------------------------------------------
// Decoding
// ---------------------------------------------------------------------

fn copy_range(bytes: &[u8], from: usize, to: usize) -> (r: Vec<u8>)
    requires
        from <= to <= bytes@.len(),
    ensures
        r@ == bytes@.subrange(from as int, to as int),
{
    let mut out: Vec<u8> = Vec::new();
    let mut i: usize = from;
    while i < to
        invariant
            from <= i <= to <= bytes@.len(),
            out@ == bytes@.subrange(from as int, i as int),
        decreases to - i,
    {
        out.push(bytes[i]);
        proof {
            assert(bytes@.subrange(from as int, i as int) + seq![bytes@[i as int]]
                =~= bytes@.subrange(from as int, i + 1));
        }
        i = i + 1;
    }
    out
}

/// Decodes a request: accepts exactly the encodings of well-formed
/// requests (the empty string among them) and rejects every other byte
/// string.
pub fn decode_client(bytes: &[u8]) -> (r: Result<ClientMessage, DecodeError>)
    ensures
        match r {
            Ok(m) => client_wf(m@) && bytes@ == spec_encode_client(m@),
            Err(_) => forall|v: ClientMsgV| client_wf(v) ==> bytes@ != spec_encode_client(v),
        },
{
    let n = bytes.len();
    if n == 0 {
        let m = ClientMessage { message: None };
        proof {
            assert(bytes@ =~= Seq::<u8>::empty());
        }
        return Ok(m);
    }
    let tag = bytes[0];
    match parse_varint(bytes, 1) {
        None => {
            proof {
                assert forall|v: ClientMsgV| client_wf(v) implies bytes@ != spec_encode_client(v) by {
                    if bytes@ == spec_encode_client(v) {
                        match v {
                            ClientMsgV::Empty => {},
                            ClientMsgV::Add { a, b } => {
                                lemma_client_add_facts(a, b);
                                
                            },
                            ClientMsgV::Echo { content } => {
                                lemma_echo_facts(TAG_SECOND, content);
                                
                            },
                        }
                    }
                }
            }
            Err(DecodeError)
        },
        Some((flen, start)) => {
            if ((n - start) as u64) != flen {
                proof {
                    assert forall|v: ClientMsgV| client_wf(v) implies bytes@ != spec_encode_client(v) by {
                    if bytes@ == spec_encode_client(v) {
                        match v {
                            ClientMsgV::Empty => {},
                            ClientMsgV::Add { a, b } => {
                                lemma_client_add_facts(a, b);
                                lemma_add_identified(bytes@, a, b, flen, start as int);
                            },
                            ClientMsgV::Echo { content } => {
                                lemma_echo_facts(TAG_SECOND, content);
                                lemma_echo_identified(bytes@, TAG_SECOND, content, flen, start as int);
                            },
                        }
                    }
                }
                }
                return Err(DecodeError);
            }
            if tag == TAG_FIRST {
                // an addition request: FIELD_A, a, FIELD_B, b
                if start >= n || bytes[start] != FIELD_A {
                    proof {
                        assert forall|v: ClientMsgV| client_wf(v) implies bytes@ != spec_encode_client(v) by {
                    if bytes@ == spec_encode_client(v) {
                        match v {
                            ClientMsgV::Empty => {},
                            ClientMsgV::Add { a, b } => {
                                lemma_client_add_facts(a, b);
                                lemma_add_identified(bytes@, a, b, flen, start as int);
                            },
                            ClientMsgV::Echo { content } => {
                                lemma_echo_facts(TAG_SECOND, content);
                                
                            },
                        }
                    }
                }
                    }
                    return Err(DecodeError);
                }
                match parse_varint(bytes, start + 1) {
                    None => {
                        proof {
                            assert forall|v: ClientMsgV| client_wf(v) implies bytes@ != spec_encode_client(v) by {
                    if bytes@ == spec_encode_client(v) {
                        match v {
                            ClientMsgV::Empty => {},
                            ClientMsgV::Add { a, b } => {
                                lemma_client_add_facts(a, b);
                                lemma_add_identified(bytes@, a, b, flen, start as int);
                            },
                            ClientMsgV::Echo { content } => {
                                lemma_echo_facts(TAG_SECOND, content);
                                
                            },
                        }
                    }
                }
                        }
                        Err(DecodeError)
                    },
                    Some((ua, q)) => {
                        if ua >= 0x1_0000_0000 || q >= n || bytes[q] != FIELD_B {
                            proof {
                                assert forall|v: ClientMsgV| client_wf(v) implies bytes@ != spec_encode_client(v) by {
                    if bytes@ == spec_encode_client(v) {
                        match v {
                            ClientMsgV::Empty => {},
                            ClientMsgV::Add { a, b } => {
                                lemma_client_add_facts(a, b);
                                lemma_add_identified(bytes@, a, b, flen, start as int);
                            lemma_add_identified2(bytes@, a, b, start as int, ua, q as int);
                            },
                            ClientMsgV::Echo { content } => {
                                lemma_echo_facts(TAG_SECOND, content);
                                
                            },
                        }
                    }
                }
                            }
                            return Err(DecodeError);
                        }
                        match parse_varint(bytes, q + 1) {
                            None => {
                                proof {
                                    assert forall|v: ClientMsgV| client_wf(v) implies bytes@ != spec_encode_client(v) by {
                    if bytes@ == spec_encode_client(v) {
                        match v {
                            ClientMsgV::Empty => {},
                            ClientMsgV::Add { a, b } => {
                                lemma_client_add_facts(a, b);
                                lemma_add_identified(bytes@, a, b, flen, start as int);
                            lemma_add_identified2(bytes@, a, b, start as int, ua, q as int);
                            },
                            ClientMsgV::Echo { content } => {
                                lemma_echo_facts(TAG_SECOND, content);
                                
                            },
                        }
                    }
                }
                                }
                                Err(DecodeError)
                            },
                            Some((ub, end)) => {
                                if ub >= 0x1_0000_0000 || end != n {
                                    proof {
                                        assert forall|v: ClientMsgV| client_wf(v) implies bytes@ != spec_encode_client(v) by {
                    if bytes@ == spec_encode_client(v) {
                        match v {
                            ClientMsgV::Empty => {},
                            ClientMsgV::Add { a, b } => {
                                lemma_client_add_facts(a, b);
                                lemma_add_identified(bytes@, a, b, flen, start as int);
                            lemma_add_identified2(bytes@, a, b, start as int, ua, q as int);
                            lemma_varint_at_unique(bytes@, q + 1, ub, enc32(b));
                            },
                            ClientMsgV::Echo { content } => {
                                lemma_echo_facts(TAG_SECOND, content);
                                
                            },
                        }
                    }
                }
                                    }
                                    return Err(DecodeError);
                                }
                                let a = wire_to_i32(ua);
                                let b = wire_to_i32(ub);
                                proof {
                                    lemma_enc32_dec32(a, ua);
                                    lemma_enc32_dec32(b, ub);
                                    lemma_client_add_accept(bytes@, a, b, start as int, q as int);
                                }
                                Ok(
                                    ClientMessage {
                                        message: Some(
                                            ClientPayload::AddRequest(AddRequest { a, b }),
                                        ),
                                    },
                                )
                            },
                        }
                    },
                }
            } else if tag == TAG_SECOND {
                // an echo: FIELD_BYTES, the content length, the content
                if start >= n || bytes[start] != FIELD_BYTES {
                    proof {
                        assert forall|v: ClientMsgV| client_wf(v) implies bytes@ != spec_encode_client(v) by {
                    if bytes@ == spec_encode_client(v) {
                        match v {
                            ClientMsgV::Empty => {},
                            ClientMsgV::Add { a, b } => {
                                lemma_client_add_facts(a, b);
                                
                            },
                            ClientMsgV::Echo { content } => {
                                lemma_echo_facts(TAG_SECOND, content);
                                lemma_echo_identified(bytes@, TAG_SECOND, content, flen, start as int);
                            },
                        }
                    }
                }
                    }
                    return Err(DecodeError);
                }
                match parse_varint(bytes, start + 1) {
                    None => {
                        proof {
                            assert forall|v: ClientMsgV| client_wf(v) implies bytes@ != spec_encode_client(v) by {
                    if bytes@ == spec_encode_client(v) {
                        match v {
                            ClientMsgV::Empty => {},
                            ClientMsgV::Add { a, b } => {
                                lemma_client_add_facts(a, b);
                                
                            },
                            ClientMsgV::Echo { content } => {
                                lemma_echo_facts(TAG_SECOND, content);
                                lemma_echo_identified(bytes@, TAG_SECOND, content, flen, start as int);
                            },
                        }
                    }
                }
                        }
                        Err(DecodeError)
                    },
                    Some((clen, q)) => {
                        if clen >= 0x1_0000_0000 || ((n - q) as u64) != clen {
                            proof {
                                assert forall|v: ClientMsgV| client_wf(v) implies bytes@ != spec_encode_client(v) by {
                    if bytes@ == spec_encode_client(v) {
                        match v {
                            ClientMsgV::Empty => {},
                            ClientMsgV::Add { a, b } => {
                                lemma_client_add_facts(a, b);
                                
                            },
                            ClientMsgV::Echo { content } => {
                                lemma_echo_facts(TAG_SECOND, content);
                                lemma_echo_identified(bytes@, TAG_SECOND, content, flen, start as int);
                            lemma_echo_identified2(bytes@, TAG_SECOND, content, start as int, clen, q as int);
                            },
                        }
                    }
                }
                            }
                            return Err(DecodeError);
                        }
                        let content = copy_range(bytes, q, n);
                        proof {
                            lemma_echo_accept(bytes@, TAG_SECOND, content@, start as int, q as int);
                        }
                        Ok(
                            ClientMessage {
                                message: Some(ClientPayload::EchoMessage(EchoMessage { content })),
                            },
                        )
                    },
                }
            } else {
                proof {
                    assert forall|v: ClientMsgV| client_wf(v) implies bytes@ != spec_encode_client(v) by {
                    if bytes@ == spec_encode_client(v) {
                        match v {
                            ClientMsgV::Empty => {},
                            ClientMsgV::Add { a, b } => {
                                lemma_client_add_facts(a, b);
                                
                            },
                            ClientMsgV::Echo { content } => {
                                lemma_echo_facts(TAG_SECOND, content);
                                
                            },
                        }
                    }
                }
                }
                Err(DecodeError)
            }
        },
    }
}

/// The mirror of `lemma_add_identified` for an addition response,
/// whose body holds a single field.
proof fn lemma_sadd_identified(s: Seq<u8>, result: i32, flen: u64, start: int)
    requires
        s == spec_encode_server(ServerMsgV::AddResult { result }),
        varint_at(s, 1, flen),
        start == 1 + spec_varint(flen).len(),
    ensures
        flen == spec_add_resp_body(result).len() as u64,
        s.len() - start == flen,
        start < s.len(),
        s[start] == FIELD_A,
        varint_at(s, start + 1, enc32(result)),
        enc32(result) < 0x1_0000_0000,
        s.len() == start + 1 + spec_varint(enc32(result)).len(),
{
    lemma_server_add_facts(result);
    lemma_enc32_dec32(result, 0);
    lemma_varint_at_unique(s, 1, flen, spec_add_resp_body(result).len() as u64);
}

/// A byte string that parses as an addition response frame is the
/// encoding of that response.
proof fn lemma_server_add_accept(s: Seq<u8>, result: i32, start: int)
    requires
        s.len() <= u64::MAX,
        1 <= start < s.len(),
        s[0] == TAG_FIRST,
        varint_at(s, 1, (s.len() - start) as u64),
        start == 1 + spec_varint((s.len() - start) as u64).len(),
        s[start] == FIELD_A,
        varint_at(s, start + 1, enc32(result)),
        s.len() == start + 1 + spec_varint(enc32(result)).len(),
    ensures
        s == spec_encode_server(ServerMsgV::AddResult { result }),
{
    let vr = spec_varint(enc32(result));
    let kr = vr.len() as int;
    let body = spec_add_resp_body(result);
    assert(s.subrange(start, s.len() as int) =~= body) by {
        assert forall|i: int| 0 <= i < s.len() - start implies s.subrange(
            start,
            s.len() as int,
        )[i] == body[i] by {
            assert(s.subrange(start, s.len() as int)[i] == s[start + i]);
            if i >= 1 {
                assert(s.subrange(start + 1, start + 1 + kr)[i - 1] == s[start + i]);
                assert(body[i] == vr[i - 1]);
            }
        }
    }
    lemma_framed_assemble(s, start);
}

/// Decodes a response; the mirror of `decode_client`.
pub fn decode_server(bytes: &[u8]) -> (r: Result<ServerMessage, DecodeError>)
    ensures
        match r {
            Ok(m) => server_wf(m@) && bytes@ == spec_encode_server(m@),
            Err(_) => forall|v: ServerMsgV| server_wf(v) ==> bytes@ != spec_encode_server(v),
        },
{
    let n = bytes.len();
    if n == 0 {
        let m = ServerMessage { message: None };
        proof {
            assert(bytes@ =~= Seq::<u8>::empty());
        }
        return Ok(m);
    }
    let tag = bytes[0];
    match parse_varint(bytes, 1) {
        None => {
            proof {
                assert forall|v: ServerMsgV| server_wf(v) implies bytes@ != spec_encode_server(v) by {
                    if bytes@ == spec_encode_server(v) {
                        match v {
                            ServerMsgV::Empty => {},
                            ServerMsgV::AddResult { result } => {
                                lemma_server_add_facts(result);
                                
                            },
                            ServerMsgV::Echo { content } => {
                                lemma_echo_facts(TAG_SECOND, content);
                                
                            },
                        }
                    }
                }
            }
            Err(DecodeError)
        },
        Some((flen, start)) => {
            if ((n - start) as u64) != flen {
                proof {
                    assert forall|v: ServerMsgV| server_wf(v) implies bytes@ != spec_encode_server(v) by {
                    if bytes@ == spec_encode_server(v) {
                        match v {
                            ServerMsgV::Empty => {},
                            ServerMsgV::AddResult { result } => {
                                lemma_server_add_facts(result);
                                lemma_sadd_identified(bytes@, result, flen, start as int);
                            },
                            ServerMsgV::Echo { content } => {
                                lemma_echo_facts(TAG_SECOND, content);
                                lemma_echo_identified(bytes@, TAG_SECOND, content, flen, start as int);
                            },
                        }
                    }
                }
                }
                return Err(DecodeError);
            }
            if tag == TAG_FIRST {
                // an addition response: FIELD_A, the result
                if start >= n || bytes[start] != FIELD_A {
                    proof {
                        assert forall|v: ServerMsgV| server_wf(v) implies bytes@ != spec_encode_server(v) by {
                    if bytes@ == spec_encode_server(v) {
                        match v {
                            ServerMsgV::Empty => {},
                            ServerMsgV::AddResult { result } => {
                                lemma_server_add_facts(result);
                                lemma_sadd_identified(bytes@, result, flen, start as int);
                            },
                            ServerMsgV::Echo { content } => {
                                lemma_echo_facts(TAG_SECOND, content);
                                
                            },
                        }
                    }
                }
                    }
                    return Err(DecodeError);
                }
                match parse_varint(bytes, start + 1) {
                    None => {
                        proof {
                            assert forall|v: ServerMsgV| server_wf(v) implies bytes@ != spec_encode_server(v) by {
                    if bytes@ == spec_encode_server(v) {
                        match v {
                            ServerMsgV::Empty => {},
                            ServerMsgV::AddResult { result } => {
                                lemma_server_add_facts(result);
                                lemma_sadd_identified(bytes@, result, flen, start as int);
                            },
                            ServerMsgV::Echo { content } => {
                                lemma_echo_facts(TAG_SECOND, content);
                                
                            },
                        }
                    }
                }
                        }
                        Err(DecodeError)
                    },
                    Some((ur, end)) => {
                        if ur >= 0x1_0000_0000 || end != n {
                            proof {
                                assert forall|v: ServerMsgV| server_wf(v) implies bytes@ != spec_encode_server(v) by {
                    if bytes@ == spec_encode_server(v) {
                        match v {
                            ServerMsgV::Empty => {},
                            ServerMsgV::AddResult { result } => {
                                lemma_server_add_facts(result);
                                lemma_sadd_identified(bytes@, result, flen, start as int);
                            lemma_varint_at_unique(bytes@, start + 1, ur, enc32(result));
                            },
                            ServerMsgV::Echo { content } => {
                                lemma_echo_facts(TAG_SECOND, content);
                                
                            },
                        }
                    }
                }
                            }
                            return Err(DecodeError);
                        }
                        let result = wire_to_i32(ur);
                        proof {
                            lemma_enc32_dec32(result, ur);
                            lemma_server_add_accept(bytes@, result, start as int);
                        }
                        Ok(
                            ServerMessage {
                                message: Some(
                                    ServerPayload::AddResponse(AddResponse { result }),
                                ),
                            },
                        )
                    },
                }
            } else if tag == TAG_SECOND {
                // an echo: FIELD_BYTES, the content length, the content
                if start >= n || bytes[start] != FIELD_BYTES {
                    proof {
                        assert forall|v: ServerMsgV| server_wf(v) implies bytes@ != spec_encode_server(v) by {
                    if bytes@ == spec_encode_server(v) {
                        match v {
                            ServerMsgV::Empty => {},
                            ServerMsgV::AddResult { result } => {
                                lemma_server_add_facts(result);
                                
                            },
                            ServerMsgV::Echo { content } => {
                                lemma_echo_facts(TAG_SECOND, content);
                                lemma_echo_identified(bytes@, TAG_SECOND, content, flen, start as int);
                            },
                        }
                    }
                }
                    }
                    return Err(DecodeError);
                }
                match parse_varint(bytes, start + 1) {
                    None => {
                        proof {
                            assert forall|v: ServerMsgV| server_wf(v) implies bytes@ != spec_encode_server(v) by {
                    if bytes@ == spec_encode_server(v) {
                        match v {
                            ServerMsgV::Empty => {},
                            ServerMsgV::AddResult { result } => {
                                lemma_server_add_facts(result);
                                
                            },
                            ServerMsgV::Echo { content } => {
                                lemma_echo_facts(TAG_SECOND, content);
                                lemma_echo_identified(bytes@, TAG_SECOND, content, flen, start as int);
                            },
                        }
                    }
                }
                        }
                        Err(DecodeError)
                    },
                    Some((clen, q)) => {
                        if clen >= 0x1_0000_0000 || ((n - q) as u64) != clen {
                            proof {
                                assert forall|v: ServerMsgV| server_wf(v) implies bytes@ != spec_encode_server(v) by {
                    if bytes@ == spec_encode_server(v) {
                        match v {
                            ServerMsgV::Empty => {},
                            ServerMsgV::AddResult { result } => {
                                lemma_server_add_facts(result);
                                
                            },
                            ServerMsgV::Echo { content } => {
                                lemma_echo_facts(TAG_SECOND, content);
                                lemma_echo_identified(bytes@, TAG_SECOND, content, flen, start as int);
                            lemma_echo_identified2(bytes@, TAG_SECOND, content, start as int, clen, q as int);
                            },
                        }
                    }
                }
                            }
                            return Err(DecodeError);
                        }
                        let content = copy_range(bytes, q, n);
                        proof {
                            lemma_echo_accept(bytes@, TAG_SECOND, content@, start as int, q as int);
                        }
                        Ok(
                            ServerMessage {
                                message: Some(ServerPayload::EchoMessage(EchoMessage { content })),
                            },
                        )
                    },
                }
            } else {
                proof {
                    assert forall|v: ServerMsgV| server_wf(v) implies bytes@ != spec_encode_server(v) by {
                    if bytes@ == spec_encode_server(v) {
                        match v {
                            ServerMsgV::Empty => {},
                            ServerMsgV::AddResult { result } => {
                                lemma_server_add_facts(result);
                                
                            },
                            ServerMsgV::Echo { content } => {
                                lemma_echo_facts(TAG_SECOND, content);
                                
                            },
                        }
                    }
                }
                }
                Err(DecodeError)
            }
        },
    }
}

/// Distinct well-formed requests have distinct encodings: nothing is
/// lost on the wire.
pub proof fn lemma_encode_client_injective(v1: ClientMsgV, v2: ClientMsgV)
    requires
        client_wf(v1),
        client_wf(v2),
        spec_encode_client(v1) == spec_encode_client(v2),
    ensures
        v1 == v2,
{
    let s = spec_encode_client(v1);
    match v1 {
        ClientMsgV::Empty => {},
        ClientMsgV::Add { a, b } => {
            lemma_client_add_facts(a, b);
        },
        ClientMsgV::Echo { content } => {
            lemma_echo_facts(TAG_SECOND, content);
        },
    }
    match v2 {
        ClientMsgV::Empty => {},
        ClientMsgV::Add { a, b } => {
            lemma_client_add_facts(a, b);
        },
        ClientMsgV::Echo { content } => {
            lemma_echo_facts(TAG_SECOND, content);
        },
    }
    match (v1, v2) {
        (ClientMsgV::Add { a: a1, b: b1 }, ClientMsgV::Add { a: a2, b: b2 }) => {
            let body1 = spec_add_req_body(a1, b1);
            let body2 = spec_add_req_body(a2, b2);
            lemma_varint_at_unique(s, 1, body1.len() as u64, body2.len() as u64);
            let p0 = 1 + spec_varint(body1.len() as u64).len() as int;
            lemma_varint_at_unique(s, p0 + 1, enc32(a1), enc32(a2));
            lemma_enc32_dec32(a1, enc32(a2));
            lemma_enc32_dec32(a2, enc32(a1));
            let pb = p0 + 2 + spec_varint(enc32(a1)).len() as int;
            lemma_varint_at_unique(s, pb, enc32(b1), enc32(b2));
            lemma_enc32_dec32(b1, enc32(b2));
            lemma_enc32_dec32(b2, enc32(b1));
        },
        (ClientMsgV::Echo { content: c1 }, ClientMsgV::Echo { content: c2 }) => {
            let body1 = spec_echo_body(c1);
            let body2 = spec_echo_body(c2);
            lemma_varint_at_unique(s, 1, body1.len() as u64, body2.len() as u64);
            let p0 = 1 + spec_varint(body1.len() as u64).len() as int;
            lemma_varint_at_unique(s, p0 + 1, c1.len() as u64, c2.len() as u64);
            lemma_varint_len32(c1.len() as u64);
            lemma_varint_len32(c2.len() as u64);
            let pc = p0 + 1 + spec_varint(c1.len() as u64).len() as int;
            assert(c1 == s.subrange(pc, s.len() as int));
            assert(c2 == s.subrange(pc, s.len() as int));
        },
        _ => {},
    }
}

} // verus!
