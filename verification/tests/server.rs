use cakemaster::protocol::{ProtocolError, RequestFrame};
use cakemaster::server::{
    answer_call, check_no_arguments, failure_frame, route_request, Answer, EncodedResponse,
    RegisterError, RoutedRequest, RouteTable, RpcErrorCode, RpcErrorCodes, RpcFailure, RpcResponse,
    ServerConfig,
};

fn code(number: u16, message: &str) -> RpcErrorCode {
    RpcErrorCode { number, message: message.to_owned() }
}

fn codes() -> RpcErrorCodes {
    RpcErrorCodes {
        rpc_throw_exception: code(107, "handler failed"),
        function_not_registered: code(108, "no such function"),
        invalid_rpc_arguments: code(104, "bad arguments"),
        invalid_rpc_result: code(113, "bad result"),
        message_too_large: code(111, "too large"),
    }
}

#[test]
fn a_route_id_is_taken_once() {
    let mut routes = RouteTable::new();
    assert_eq!(routes.insert(5, "first".to_owned()), Ok(()));
    assert_eq!(
        routes.insert(5, "second".to_owned()),
        Err(RegisterError::DuplicateRoute {
            route_id: 5,
            existing_name: "first".to_owned(),
            new_name: "second".to_owned(),
        })
    );
    assert_eq!(routes.insert(6, "second".to_owned()), Ok(()));
    assert_eq!(routes.name_of(5), Some("first"));
    assert_eq!(routes.name_of(6), Some("second"));
    assert_eq!(routes.name_of(7), None);
    assert_eq!(RouteTable::default().name_of(5), None);
}

#[test]
fn requests_reach_registered_functions_only() {
    let mut routes = RouteTable::new();
    routes.insert(5, "echo".to_owned()).unwrap();
    let known = RequestFrame::new(1, 5, vec![1], vec![2, 3]).unwrap();
    match route_request(&routes, &codes(), known, "peer") {
        RoutedRequest::Call { body, context } => {
            assert_eq!(body, vec![1]);
            assert_eq!(context.sequence, 1);
            assert_eq!(context.function_id, 5);
            assert_eq!(context.attachment, vec![2, 3]);
            assert_eq!(context.peer_addr, "peer");
        }
        RoutedRequest::Refuse { .. } => panic!("the function is registered"),
    }
    let unknown = RequestFrame::new(2, 6, Vec::new(), Vec::new()).unwrap();
    match route_request(&routes, &codes(), unknown, "peer") {
        RoutedRequest::Refuse { sequence, failure } => {
            assert_eq!(sequence, 2);
            assert_eq!(failure.code, 108);
            assert_eq!(failure.message, "function not registered");
        }
        RoutedRequest::Call { .. } => panic!("the function is not registered"),
    }
}

#[test]
fn failures_have_codes() {
    assert_eq!(RpcFailure::new(&codes(), 0, "x".to_owned()).code, 107);
    assert_eq!(RpcFailure::new(&codes(), 9, "x".to_owned()).code, 9);
    let standard = RpcFailure::standard(&codes(), &codes().message_too_large);
    assert_eq!(standard.code, 111);
    assert_eq!(standard.message, "too large");
    assert_eq!(check_no_arguments(&codes(), &Vec::new()), Ok(()));
    let failure = check_no_arguments(&codes(), &vec![0]).unwrap_err();
    assert_eq!((failure.code, failure.message.as_str()), (104, "bad arguments"));
}

#[test]
fn failures_are_framed_by_their_code() {
    let small = RpcFailure { code: 254, message: "m".to_owned() };
    assert!(!small.is_extended());
    let frame = failure_frame(3, &small, vec![1, 2]).unwrap();
    assert_eq!(frame.header.error_code, 254);
    assert_eq!(frame.header.sequence, 3);
    assert_eq!(frame.header.body_len, 2);
    assert!(frame.attachment.is_empty());
    let large = RpcFailure { code: 255, message: "m".to_owned() };
    assert!(large.is_extended());
    assert_eq!(failure_frame(3, &large, Vec::new()).unwrap().header.error_code, 255);
    let larger = RpcFailure { code: 4_000, message: "m".to_owned() };
    assert_eq!(larger.wire_code(), 255);
}

#[test]
fn a_handler_is_answered_for() {
    let response = EncodedResponse { body: vec![1, 2, 3], attachment: vec![4] };
    match answer_call(&codes(), 9, Ok(response)) {
        Answer::Frame(frame) => {
            assert_eq!(frame.header.error_code, 0);
            assert_eq!(frame.header.sequence, 9);
            assert_eq!(frame.header.body_len, 3);
            assert_eq!(frame.header.attachment_len, 1);
            assert_eq!(frame.body, vec![1, 2, 3]);
        }
        Answer::Failure(_) => panic!("the response fits"),
    }
    let failed = RpcFailure { code: 12, message: "no".to_owned() };
    match answer_call(&codes(), 9, Err(failed.clone())) {
        Answer::Failure(failure) => assert_eq!(failure, failed),
        Answer::Frame(_) => panic!("the handler failed"),
    }
}

#[test]
fn limits_are_at_least_one() {
    let mut config = ServerConfig::default();
    assert_eq!(config.in_flight_limit(), 256);
    assert_eq!(config.queue_limit(), 256);
    assert!(config.tcp_nodelay);
    config.max_in_flight_per_connection = 0;
    config.response_queue_capacity = 0;
    assert_eq!(config.in_flight_limit(), 1);
    assert_eq!(config.queue_limit(), 1);
}

#[test]
fn responses_carry_attachments() {
    assert!(RpcResponse::new(1).attachment.is_empty());
    let response = RpcResponse::with_attachment("v", vec![1]);
    assert_eq!((response.value, response.attachment), ("v", vec![1]));
    assert_ne!(ProtocolError::LengthOverflow, ProtocolError::InvalidMagic(0));
}
