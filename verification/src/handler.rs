//! Serving one connection: what each request is answered with, and the
//! state machine of the per-connection read loop.
//!
//! The functions here are pure: the surrounding process reads from the
//! socket, hands the bytes (or the read's failure) to `handler_step`
//! together with the lifecycle flag it observed, writes the response
//! bytes back, and closes the connection when the returned state says so.

use vstd::prelude::*;
use crate::messages::{
    AddResponse, ClientMessage, ClientMsgV, ClientPayload, EchoMessage, ServerMessage,
    ServerMsgV, ServerPayload, client_wf, server_wf, spec_encode_client, spec_encode_server,
    decode_client, encode_server, lemma_encode_client_injective,
};

verus! {

/// The 32-bit sum with overflow wrapping around — the arithmetic the
/// service is defined with.
pub open spec fn wrap_add32(a: i32, b: i32) -> i32 {
    vstd::wrapping::i32_specs::wrapping_add(a, b)
}

/// The response a request calls for: the wrapping sum for an addition,
/// the same content for an echo, nothing for an empty message.
pub open spec fn spec_response(m: ClientMsgV) -> Option<ServerMsgV> {
    match m {
        ClientMsgV::Empty => None,
        ClientMsgV::Add { a, b } => Some(ServerMsgV::AddResult { result: wrap_add32(a, b) }),
        ClientMsgV::Echo { content } => Some(ServerMsgV::Echo { content }),
    }
}

/// Builds the response to one decoded request.
pub fn handle_request(m: &ClientMessage) -> (r: Option<ServerMessage>)
    ensures
        match r {
            Some(resp) => spec_response(m@) == Some(resp@),
            None => spec_response(m@) is None,
        },
{
    match &m.message {
        None => None,
        Some(ClientPayload::AddRequest(req)) => {
            let result = req.a.wrapping_add(req.b);
            Some(
                ServerMessage {
                    message: Some(ServerPayload::AddResponse(AddResponse { result })),
                },
            )
        },
        Some(ClientPayload::EchoMessage(e)) => {
            let mut content: Vec<u8> = Vec::new();
            let mut i: usize = 0;
            while i < e.content.len()
                invariant
                    i <= e.content@.len(),
                    content@ == e.content@.subrange(0, i as int),
                decreases e.content@.len() - i,
            {
                content.push(e.content[i]);
                proof {
                    assert(e.content@.subrange(0, i as int) + seq![e.content@[i as int]]
                        =~= e.content@.subrange(0, i + 1));
                }
                i = i + 1;
            }
            proof {
                assert(e.content@.subrange(0, e.content@.len() as int) =~= e.content@);
            }
            Some(ServerMessage { message: Some(ServerPayload::EchoMessage(EchoMessage { content })) })
        },
    }
}

/// What one read's bytes are answered with: the encoded response to the
/// one well-formed request they encode, or nothing — when they encode no
/// request, or a request that calls for no response.
pub open spec fn spec_process(input: Seq<u8>) -> Option<Seq<u8>> {
    if exists|m: ClientMsgV| client_wf(m) && input == spec_encode_client(m) {
        let m = choose|m: ClientMsgV| client_wf(m) && input == spec_encode_client(m);
        match spec_response(m) {
            Some(resp) => Some(spec_encode_server(resp)),
            None => None,
        }
    } else {
        None
    }
}

/// One full request cycle on the bytes of one read: decode, dispatch,
/// encode.
pub fn process_message(input: &[u8]) -> (r: Option<Vec<u8>>)
    ensures
        match r {
            Some(out) => spec_process(input@) == Some(out@),
            None => spec_process(input@) is None,
        },
{
    match decode_client(input) {
        Err(_) => {
            proof {
                if exists|m: ClientMsgV| client_wf(m) && input@ == spec_encode_client(m) {
                    let m = choose|m: ClientMsgV| client_wf(m) && input@ == spec_encode_client(m);
                    assert(input@ != spec_encode_client(m));
                }
            }
            None
        },
        Ok(m) => {
            proof {
                let mc = choose|x: ClientMsgV| client_wf(x) && input@ == spec_encode_client(x);
                assert(client_wf(m@) && input@ == spec_encode_client(m@));
                lemma_encode_client_injective(mc, m@);
            }
            match handle_request(&m) {
                None => None,
                Some(resp) => {
                    proof {
                        assert(server_wf(resp@));
                    }
                    let out = encode_server(&resp);
                    Some(out)
                },
            }
        },
    }
}

// ---------------------------------------------------------------------
// The per-connection read loop as a state machine
// ---------------------------------------------------------------------

/// Why a connection stops being served.
#[derive(Clone, Copy, Debug, PartialEq, Eq, Structural)]
pub enum CloseReason {
    /// The lifecycle flag was observed false.
    Shutdown,
    /// The peer closed the connection in order.
    Disconnected,
    /// A read or write on the connection failed.
    Error,
}

/// Whether the connection is still served.
#[derive(Clone, Copy, Debug, PartialEq, Eq, Structural)]
pub enum HandlerState {
    Active,
    Closed(CloseReason),
}

/// What one attempted read produced.
pub enum ReadEvent {
    /// The bytes of one successful read (at least one byte).
    Data(Vec<u8>),
    /// Zero bytes: the peer closed in order.
    Eof,
    /// No data available yet on the non-blocking connection.
    WouldBlock,
    /// Any other read failure.
    Failed,
}

pub enum ReadEventV {
    Data(Seq<u8>),
    Eof,
    WouldBlock,
    Failed,
}

impl View for ReadEvent {
    type V = ReadEventV;

    open spec fn view(&self) -> ReadEventV {
        match self {
            ReadEvent::Data(d) => ReadEventV::Data(d@),
            ReadEvent::Eof => ReadEventV::Eof,
            ReadEvent::WouldBlock => ReadEventV::WouldBlock,
            ReadEvent::Failed => ReadEventV::Failed,
        }
    }
}

/// The state after one loop iteration. The flag is checked first: once
/// it is false the handler closes without touching the event.
pub open spec fn spec_step_state(running: bool, ev: ReadEventV) -> HandlerState {
    if !running {
        HandlerState::Closed(CloseReason::Shutdown)
    } else {
        match ev {
            ReadEventV::Data(_) => HandlerState::Active,
            ReadEventV::Eof => HandlerState::Closed(CloseReason::Disconnected),
            ReadEventV::WouldBlock => HandlerState::Active,
            ReadEventV::Failed => HandlerState::Closed(CloseReason::Error),
        }
    }
}

/// The bytes to write back in this iteration, if any.
pub open spec fn spec_step_response(running: bool, ev: ReadEventV) -> Option<Seq<u8>> {
    if running {
        match ev {
            ReadEventV::Data(d) => spec_process(d),
            _ => None,
        }
    } else {
        None
    }
}

/// Whether to pause before the next iteration (nothing to read yet).
pub open spec fn spec_step_sleep(running: bool, ev: ReadEventV) -> bool {
    running && ev is WouldBlock
}

/// What one iteration of the read loop decides.
pub struct StepOutcome {
    pub state: HandlerState,
    pub response: Option<Vec<u8>>,
    pub sleep: bool,
}

/// One iteration of the per-connection loop: `running` is the lifecycle
/// flag as last observed, `event` what the read produced. The caller
/// writes `response` if present (closing on a failed write, see
/// `write_result_state`), sleeps one poll interval if `sleep`, and stops
/// serving when `state` is closed.
pub fn handler_step(running: bool, event: &ReadEvent) -> (r: StepOutcome)
    ensures
        r.state == spec_step_state(running, event@),
        match r.response {
            Some(out) => spec_step_response(running, event@) == Some(out@),
            None => spec_step_response(running, event@) is None,
        },
        r.sleep == spec_step_sleep(running, event@),
{
    if !running {
        return StepOutcome {
            state: HandlerState::Closed(CloseReason::Shutdown),
            response: None,
            sleep: false,
        };
    }
    match event {
        ReadEvent::Data(d) => {
            let response = process_message(d.as_slice());
            StepOutcome { state: HandlerState::Active, response, sleep: false }
        },
        ReadEvent::Eof => StepOutcome {
            state: HandlerState::Closed(CloseReason::Disconnected),
            response: None,
            sleep: false,
        },
        ReadEvent::WouldBlock => StepOutcome {
            state: HandlerState::Active,
            response: None,
            sleep: true,
        },
        ReadEvent::Failed => StepOutcome {
            state: HandlerState::Closed(CloseReason::Error),
            response: None,
            sleep: false,
        },
    }
}

/// A write or flush that fails is fatal to this connection only; a
/// successful write leaves the handler serving.
pub fn write_result_state(write_ok: bool) -> (s: HandlerState)
    ensures
        write_ok ==> s == HandlerState::Active,
        !write_ok ==> s == HandlerState::Closed(CloseReason::Error),
{
    if write_ok {
        HandlerState::Active
    } else {
        HandlerState::Closed(CloseReason::Error)
    }
}

// ---------------------------------------------------------------------
// What holds of the service, for all requests
// ---------------------------------------------------------------------

/// An addition request is answered with the wrapping 32-bit sum of its
/// operands — overflow wraps around, for every pair of operands.
pub proof fn lemma_add_request_response(a: i32, b: i32)
    ensures
        spec_process(spec_encode_client(ClientMsgV::Add { a, b })) == Some(
            spec_encode_server(ServerMsgV::AddResult { result: wrap_add32(a, b) }),
        ),
{
    let mv = ClientMsgV::Add { a, b };
    let s = spec_encode_client(mv);
    assert(client_wf(mv) && s == spec_encode_client(mv));
    let mc = choose|x: ClientMsgV| client_wf(x) && s == spec_encode_client(x);
    lemma_encode_client_injective(mc, mv);
}

/// An echo request is answered with exactly its content, byte for byte,
/// for every content the wire can carry — the empty one included.
pub proof fn lemma_echo_round_trip(content: Seq<u8>)
    requires
        content.len() < 0x1_0000_0000,
    ensures
        spec_process(spec_encode_client(ClientMsgV::Echo { content })) == Some(
            spec_encode_server(ServerMsgV::Echo { content }),
        ),
{
    let mv = ClientMsgV::Echo { content };
    let s = spec_encode_client(mv);
    assert(client_wf(mv) && s == spec_encode_client(mv));
    let mc = choose|x: ClientMsgV| client_wf(x) && s == spec_encode_client(x);
    lemma_encode_client_injective(mc, mv);
}

/// Bytes that encode no request produce no response and leave the
/// handler active: a malformed payload does not close the connection.
pub proof fn lemma_malformed_ignored(input: Seq<u8>)
    requires
        forall|v: ClientMsgV| client_wf(v) ==> input != spec_encode_client(v),
    ensures
        spec_process(input) is None,
        spec_step_state(true, ReadEventV::Data(input)) == HandlerState::Active,
{
    if exists|m: ClientMsgV| client_wf(m) && input == spec_encode_client(m) {
        let m = choose|m: ClientMsgV| client_wf(m) && input == spec_encode_client(m);
        assert(input != spec_encode_client(m));
    }
}

/// A recognized message in which no variant is set produces no response,
/// and the handler stays active.
pub proof fn lemma_empty_message_ignored()
    ensures
        spec_process(spec_encode_client(ClientMsgV::Empty)) is None,
        spec_step_state(true, ReadEventV::Data(spec_encode_client(ClientMsgV::Empty)))
            == HandlerState::Active,
{
    let mv = ClientMsgV::Empty;
    let s = spec_encode_client(mv);
    assert(client_wf(mv) && s == spec_encode_client(mv));
    let mc = choose|x: ClientMsgV| client_wf(x) && s == spec_encode_client(x);
    lemma_encode_client_injective(mc, mv);
}

/// Once the lifecycle flag is observed false, the handler closes with
/// the shutdown reason and answers nothing — whatever the peer wrote or
/// may still write.
pub proof fn lemma_shutdown_halts(ev: ReadEventV)
    ensures
        spec_step_state(false, ev) == HandlerState::Closed(CloseReason::Shutdown),
        spec_step_response(false, ev) is None,
        !spec_step_sleep(false, ev),
{
}


} // verus!
