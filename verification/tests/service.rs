use echo_add_server::handler::{
    handle_request, handler_step, process_message, write_result_state, CloseReason, HandlerState,
    ReadEvent,
};
use echo_add_server::lifecycle::{accept_step, AcceptAction, AcceptEvent, ServiceState};
use echo_add_server::messages::{
    decode_server, encode_client, AddRequest, ClientMessage, ClientPayload, EchoMessage,
    ServerPayload,
};

fn add_request(a: i32, b: i32) -> ClientMessage {
    ClientMessage { message: Some(ClientPayload::AddRequest(AddRequest { a, b })) }
}

fn echo_request(content: &[u8]) -> ClientMessage {
    ClientMessage {
        message: Some(ClientPayload::EchoMessage(EchoMessage { content: content.to_vec() })),
    }
}

fn expect_add_result(response: &[u8]) -> i32 {
    let m = decode_server(response).unwrap();
    match m.message {
        Some(ServerPayload::AddResponse(r)) => r.result,
        _ => panic!("not an addition response"),
    }
}

fn expect_echo_result(response: &[u8]) -> Vec<u8> {
    let m = decode_server(response).unwrap();
    match m.message {
        Some(ServerPayload::EchoMessage(e)) => e.content,
        _ => panic!("not an echo response"),
    }
}

#[test]
fn add_yields_the_sum() {
    let out = process_message(&encode_client(&add_request(2, 3))).unwrap();
    assert_eq!(expect_add_result(&out), 5);
    let out = process_message(&encode_client(&add_request(10, -3))).unwrap();
    assert_eq!(expect_add_result(&out), 7);
}

#[test]
fn add_overflow_wraps() {
    let out = process_message(&encode_client(&add_request(i32::MAX, 1))).unwrap();
    assert_eq!(expect_add_result(&out), i32::MIN);
    let out = process_message(&encode_client(&add_request(i32::MIN, -1))).unwrap();
    assert_eq!(expect_add_result(&out), i32::MAX);
    let out = process_message(&encode_client(&add_request(i32::MIN, i32::MIN))).unwrap();
    assert_eq!(expect_add_result(&out), 0);
}

#[test]
fn echo_returns_content_verbatim() {
    for content in [&b""[..], &b"hi"[..], &[0u8, 255, 128, 7][..]] {
        let out = process_message(&encode_client(&echo_request(content))).unwrap();
        assert_eq!(expect_echo_result(&out), content.to_vec());
    }
}

#[test]
fn malformed_payload_gets_no_response() {
    assert!(process_message(&[0xDE, 0xAD, 0xBE, 0xEF]).is_none());
}

#[test]
fn empty_message_gets_no_response() {
    let m = ClientMessage { message: None };
    assert!(handle_request(&m).is_none());
    assert!(process_message(&encode_client(&m)).is_none());
}

#[test]
fn malformed_then_well_formed_on_one_connection() {
    // the scenario: Add{2,3}, Echo{"hi"}, four garbage bytes, Add{10,-3}
    let step = handler_step(true, &ReadEvent::Data(encode_client(&add_request(2, 3))));
    assert_eq!(step.state, HandlerState::Active);
    assert_eq!(expect_add_result(&step.response.unwrap()), 5);

    let step = handler_step(true, &ReadEvent::Data(encode_client(&echo_request(b"hi"))));
    assert_eq!(step.state, HandlerState::Active);
    assert_eq!(expect_echo_result(&step.response.unwrap()), b"hi".to_vec());

    let step = handler_step(true, &ReadEvent::Data(vec![0xDE, 0xAD, 0xBE, 0xEF]));
    assert_eq!(step.state, HandlerState::Active);
    assert!(step.response.is_none());

    let step = handler_step(true, &ReadEvent::Data(encode_client(&add_request(10, -3))));
    assert_eq!(step.state, HandlerState::Active);
    assert_eq!(expect_add_result(&step.response.unwrap()), 7);
}

#[test]
fn handler_closes_on_shutdown_without_reading() {
    // even with bytes pending, an observed false flag ends the loop
    let step = handler_step(false, &ReadEvent::Data(encode_client(&add_request(1, 1))));
    assert_eq!(step.state, HandlerState::Closed(CloseReason::Shutdown));
    assert!(step.response.is_none());
    assert!(!step.sleep);
    let step = handler_step(false, &ReadEvent::WouldBlock);
    assert_eq!(step.state, HandlerState::Closed(CloseReason::Shutdown));
}

#[test]
fn handler_closes_on_eof_and_error() {
    let step = handler_step(true, &ReadEvent::Eof);
    assert_eq!(step.state, HandlerState::Closed(CloseReason::Disconnected));
    assert!(step.response.is_none());
    let step = handler_step(true, &ReadEvent::Failed);
    assert_eq!(step.state, HandlerState::Closed(CloseReason::Error));
}

#[test]
fn handler_sleeps_when_nothing_to_read() {
    let step = handler_step(true, &ReadEvent::WouldBlock);
    assert_eq!(step.state, HandlerState::Active);
    assert!(step.response.is_none());
    assert!(step.sleep);
}

#[test]
fn failed_write_closes_the_connection() {
    assert_eq!(write_result_state(true), HandlerState::Active);
    assert_eq!(write_result_state(false), HandlerState::Closed(CloseReason::Error));
}

#[test]
fn lifecycle_starts_stopped_and_stop_reports_prior_state() {
    let mut state = ServiceState::new();
    assert!(!state.running);
    state.start();
    assert!(state.running);
    assert!(state.stop());
    assert!(!state.running);
    // stopping an already stopped service is a no-op worth a warning
    assert!(!state.stop());
    assert!(!state.running);
}

#[test]
fn accept_loop_decisions() {
    assert_eq!(accept_step(true, &AcceptEvent::Connection), AcceptAction::Spawn);
    assert_eq!(accept_step(true, &AcceptEvent::WouldBlock), AcceptAction::Sleep);
    assert_eq!(accept_step(true, &AcceptEvent::Failed), AcceptAction::Continue);
    assert_eq!(accept_step(false, &AcceptEvent::Connection), AcceptAction::Stop);
    assert_eq!(accept_step(false, &AcceptEvent::WouldBlock), AcceptAction::Stop);
    assert_eq!(accept_step(false, &AcceptEvent::Failed), AcceptAction::Stop);
}

#[test]
fn requests_answered_in_order_per_connection() {
    // one handler, a strict request-response alternation
    let inputs = [(1, 2), (3, 4), (-5, 5), (100, 23)];
    for (a, b) in inputs {
        let step = handler_step(true, &ReadEvent::Data(encode_client(&add_request(a, b))));
        assert_eq!(step.state, HandlerState::Active);
        assert_eq!(expect_add_result(&step.response.unwrap()), a.wrapping_add(b));
    }
}
