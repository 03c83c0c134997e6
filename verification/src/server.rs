//! What an RPC server decides: which requests reach a handler, and what the
//! client is answered.
//!
//! Reading and writing frames, running handlers and turning values into bytes is
//! the business of the program around this library.

use crate::protocol::{
    FrameLimits, ProtocolError, RequestFrame, ResponseFrame, ResponseHeader,
    DEFAULT_MAX_ATTACHMENT_LEN, DEFAULT_MAX_BODY_LEN,
};
use std::collections::HashMap;
use vstd::prelude::*;

verus! {

/// Server-side limits and connection settings.
#[derive(Clone, Copy, Debug, Eq, PartialEq, Structural)]
pub struct ServerConfig {
    pub frame_limits: FrameLimits,
    pub max_in_flight_per_connection: usize,
    pub response_queue_capacity: usize,
    pub tcp_nodelay: bool,
}

impl Default for ServerConfig {
    fn default() -> (config: Self)
        ensures
            config == (ServerConfig {
                frame_limits: FrameLimits {
                    max_body_len: DEFAULT_MAX_BODY_LEN,
                    max_attachment_len: DEFAULT_MAX_ATTACHMENT_LEN,
                },
                max_in_flight_per_connection: 256,
                response_queue_capacity: 256,
                tcp_nodelay: true,
            }),
    {
        Self {
            frame_limits: FrameLimits::default(),
            max_in_flight_per_connection: 256,
            response_queue_capacity: 256,
            tcp_nodelay: true,
        }
    }
}

/// The code that a header states for a failure.
pub open spec fn code_on_wire(code: u16) -> u8 {
    if code >= 255 {
        255
    } else {
        code as u8
    }
}

/// A number, but at least one.
pub open spec fn at_least_one(count: usize) -> usize {
    if count == 0 {
        1
    } else {
        count
    }
}

impl ServerConfig {
    /// How many requests of a connection are worked on at a time.
    pub fn in_flight_limit(&self) -> (limit: usize)
        ensures
            limit == at_least_one(self.max_in_flight_per_connection),
    {
        if self.max_in_flight_per_connection == 0 {
            1
        } else {
            self.max_in_flight_per_connection
        }
    }

    /// How many responses of a connection wait to be written.
    pub fn queue_limit(&self) -> (limit: usize)
        ensures
            limit == at_least_one(self.response_queue_capacity),
    {
        if self.response_queue_capacity == 0 {
            1
        } else {
            self.response_queue_capacity
        }
    }
}

/// Metadata and attachment belonging to one incoming request. `A` is the address
/// of a peer.
#[derive(Clone, Debug, Eq, PartialEq)]
pub struct RequestContext<A> {
    pub sequence: u32,
    pub function_id: u32,
    pub attachment: Vec<u8>,
    pub peer_addr: A,
}

/// A successful handler value with an optional response attachment.
#[derive(Clone, Debug, Eq, PartialEq)]
pub struct RpcResponse<T> {
    pub value: T,
    pub attachment: Vec<u8>,
}

impl<T> RpcResponse<T> {
    pub fn new(value: T) -> (response: Self)
        ensures
            response.value == value,
            response.attachment@ == Seq::<u8>::empty(),
    {
        Self { value, attachment: Vec::new() }
    }

    pub fn with_attachment(value: T, attachment: Vec<u8>) -> (response: Self)
        ensures
            response.value == value,
            response.attachment == attachment,
    {
        Self { value, attachment }
    }
}

/// One of the error codes that clients know.
#[derive(Clone, Debug, Eq, PartialEq)]
pub struct RpcErrorCode {
    pub number: u16,
    pub message: String,
}

/// The error codes that a server answers with. Their numbers belong to the wire
/// protocol that the clients speak.
#[derive(Clone, Debug, Eq, PartialEq)]
pub struct RpcErrorCodes {
    pub rpc_throw_exception: RpcErrorCode,
    pub function_not_registered: RpcErrorCode,
    pub invalid_rpc_arguments: RpcErrorCode,
    pub invalid_rpc_result: RpcErrorCode,
    pub message_too_large: RpcErrorCode,
}

/// An error intentionally returned by an RPC handler.
#[derive(Clone, Debug, Eq, PartialEq)]
pub struct RpcFailure {
    pub code: u16,
    pub message: String,
}

/// The contents of an [`RpcFailure`].
pub struct FailureView {
    pub code: u16,
    pub message: Seq<char>,
}

impl View for RpcFailure {
    type V = FailureView;

    open spec fn view(&self) -> FailureView {
        FailureView { code: self.code, message: self.message@ }
    }
}

impl FailureView {
    /// The failure of a code and a message. A code that means success is
    /// replaced.
    pub open spec fn of(codes: RpcErrorCodes, code: u16, message: Seq<char>) -> FailureView {
        FailureView {
            code: if code == 0 {
                codes.rpc_throw_exception.number
            } else {
                code
            },
            message,
        }
    }
}

impl RpcFailure {
    pub fn new(codes: &RpcErrorCodes, code: u16, message: String) -> (failure: Self)
        ensures
            failure@ == FailureView::of(*codes, code, message@),
    {
        Self {
            code: if code == 0 {
                codes.rpc_throw_exception.number
            } else {
                code
            },
            message,
        }
    }

    pub fn standard(codes: &RpcErrorCodes, code: &RpcErrorCode) -> (failure: Self)
        ensures
            failure@ == FailureView::of(*codes, code.number, code.message@),
    {
        Self::new(codes, code.number, code.message.clone())
    }

    /// Whether the code does not fit the header and is sent in the body, before
    /// the message.
    pub fn is_extended(&self) -> (extended: bool)
        ensures
            extended == (self.code >= 255),
    {
        self.code >= 255
    }

    /// The code that the header states.
    pub fn wire_code(&self) -> (code: u8)
        ensures
            code == code_on_wire(self.code),
            code as int == if self.code >= 255 {
                255
            } else {
                self.code as int
            },
    {
        if self.code >= 255 {
            255
        } else {
            self.code as u8
        }
    }
}

/// Why a route is not registered.
#[derive(Clone, Debug, Eq, PartialEq)]
pub enum RegisterError {
    DuplicateRoute { route_id: u32, existing_name: String, new_name: String },
}

/// The functions that a server answers, by their ids.
pub struct RouteTable {
    names: HashMap<u32, String>,
}

impl View for RouteTable {
    type V = Map<u32, Seq<char>>;

    closed spec fn view(&self) -> Map<u32, Seq<char>> {
        self.names@.map_values(|name: String| name@)
    }
}

impl Default for RouteTable {
    fn default() -> (table: Self)
        ensures
            table@ == Map::<u32, Seq<char>>::empty(),
    {
        Self::new()
    }
}

impl RouteTable {
    pub fn new() -> (table: Self)
        ensures
            table@ == Map::<u32, Seq<char>>::empty(),
    {
        let table = Self { names: HashMap::new() };
        assert(table@ =~= Map::empty());
        table
    }

    /// Registers a function, unless its id is taken.
    pub fn insert(&mut self, route_id: u32, name: String) -> (registered: Result<
        (),
        RegisterError,
    >)
        ensures
            if old(self)@.contains_key(route_id) {
                &&& registered matches Err(
                    RegisterError::DuplicateRoute { route_id: taken, existing_name, new_name },
                ) && taken == route_id && existing_name@ == old(self)@[route_id] && new_name@
                    == name@
                &&& final(self)@ == old(self)@
            } else {
                &&& registered is Ok
                &&& final(self)@ == old(self)@.insert(route_id, name@)
            },
    {
        broadcast use vstd::std_specs::hash::group_hash_axioms;

        let ghost before = self@;
        if let Some(existing) = self.names.get(&route_id) {
            return Err(
                RegisterError::DuplicateRoute {
                    route_id,
                    existing_name: existing.clone(),
                    new_name: name,
                },
            );
        }
        let ghost text = name@;
        self.names.insert(route_id, name);
        assert(self@ =~= before.insert(route_id, text));
        Ok(())
    }

    /// The name under which a function is registered.
    pub fn name_of(&self, route_id: u32) -> (name: Option<&str>)
        ensures
            match name {
                Some(text) => self@.contains_key(route_id) && text@ == self@[route_id],
                None => !self@.contains_key(route_id),
            },
    {
        broadcast use vstd::std_specs::hash::group_hash_axioms;

        match self.names.get(&route_id) {
            Some(name) => Some(name.as_str()),
            None => None,
        }
    }
}

/// What becomes of a request.
pub enum RoutedRequest<A> {
    /// A handler is called with the body.
    Call { body: Vec<u8>, context: RequestContext<A> },
    /// The client is told that it failed.
    Refuse { sequence: u32, failure: RpcFailure },
}

/// Finds the handler of a request.
pub fn route_request<A>(
    routes: &RouteTable,
    codes: &RpcErrorCodes,
    request: RequestFrame,
    peer_addr: A,
) -> (routed: RoutedRequest<A>)
    ensures
        if routes@.contains_key(request.header.function_id) {
            routed == (RoutedRequest::Call {
                body: request.body,
                context: RequestContext {
                    sequence: request.header.sequence,
                    function_id: request.header.function_id,
                    attachment: request.attachment,
                    peer_addr,
                },
            })
        } else {
            routed matches RoutedRequest::Refuse { sequence, failure } && sequence
                == request.header.sequence && failure@ == FailureView::of(
                *codes,
                codes.function_not_registered.number,
                "function not registered"@,
            )
        },
{
    let sequence: u32 = request.header.sequence;
    let function_id: u32 = request.header.function_id;
    if routes.name_of(function_id).is_none() {
        return RoutedRequest::Refuse {
            sequence,
            failure: RpcFailure::new(
                codes,
                codes.function_not_registered.number,
                "function not registered".to_owned(),
            ),
        };
    }
    RoutedRequest::Call {
        body: request.body,
        context: RequestContext {
            sequence,
            function_id,
            attachment: request.attachment,
            peer_addr,
        },
    }
}

/// Checks that a function without arguments was called without any.
pub fn check_no_arguments(codes: &RpcErrorCodes, body: &Vec<u8>) -> (checked: Result<(), RpcFailure>)
    ensures
        if body@.len() == 0 {
            checked is Ok
        } else {
            checked matches Err(failure) && failure@ == FailureView::of(
                *codes,
                codes.invalid_rpc_arguments.number,
                codes.invalid_rpc_arguments.message@,
            )
        },
{
    if body.len() > 0 {
        return Err(RpcFailure::standard(codes, &codes.invalid_rpc_arguments));
    }
    Ok(())
}

/// What a handler returned, as bytes.
#[derive(Clone, Debug, Eq, PartialEq)]
pub struct EncodedResponse {
    pub body: Vec<u8>,
    pub attachment: Vec<u8>,
}

/// What the client is answered.
pub enum Answer {
    /// A frame that can be written.
    Frame(ResponseFrame),
    /// A failure that is still to be turned into bytes.
    Failure(RpcFailure),
}

/// Works out what the client is answered when a handler is done. What does not
/// fit a frame is a failure of its own.
pub fn answer_call(
    codes: &RpcErrorCodes,
    sequence: u32,
    outcome: Result<EncodedResponse, RpcFailure>,
) -> (answer: Answer)
    ensures
        match outcome {
            Ok(response) => if response.body@.len() > u32::MAX || response.attachment@.len()
                > u32::MAX {
                answer matches Answer::Failure(failure) && failure@ == FailureView::of(
                    *codes,
                    codes.message_too_large.number,
                    codes.message_too_large.message@,
                )
            } else {
                answer matches Answer::Frame(frame) && frame.wf() && frame.body == response.body
                    && frame.attachment == response.attachment && frame.header
                    == ResponseHeader::of(
                    sequence,
                    0,
                    response.body@.len() as u32,
                    response.attachment@.len() as u32,
                )
            },
            Err(failure) => answer == Answer::Failure(failure),
        },
{
    match outcome {
        Ok(response) => match ResponseFrame::new(
            sequence,
            0,
            response.body,
            response.attachment,
        ) {
            Ok(frame) => Answer::Frame(frame),
            Err(_) => Answer::Failure(RpcFailure::standard(codes, &codes.message_too_large)),
        },
        Err(failure) => Answer::Failure(failure),
    }
}

/// The frame that tells a client about a failure. `body` is the message, with
/// the code before it where that does not fit the header.
pub fn failure_frame(sequence: u32, failure: &RpcFailure, body: Vec<u8>) -> (frame: Result<
    ResponseFrame,
    ProtocolError,
>)
    ensures
        if body@.len() > u32::MAX {
            frame == Err::<ResponseFrame, ProtocolError>(ProtocolError::LengthOverflow)
        } else {
            frame matches Ok(made) && made.wf() && made.body == body && made.attachment@.len() == 0
                && made.header == ResponseHeader::of(
                sequence,
                if failure.code >= 255 {
                    255
                } else {
                    failure.code as u8
                },
                body@.len() as u32,
                0,
            )
        },
{
    ResponseFrame::new(sequence, failure.wire_code(), body, Vec::new())
}

/// A failure never carries the code of success, and any other code is kept.
pub proof fn law_every_failure_has_a_code(codes: RpcErrorCodes, code: u16, message: Seq<char>)
    requires
        codes.rpc_throw_exception.number != 0,
    ensures
        FailureView::of(codes, code, message).code != 0,
        FailureView::of(codes, code, message).message == message,
        code != 0 ==> FailureView::of(codes, code, message).code == code,
{
}

/// A header states a code as it is where there is room for it, and the highest number
/// where there is not; so failures that a header tells apart differ, and none looks like
/// success.
pub proof fn law_codes_on_wire(code: u16, other: u16)
    ensures
        code < 255 ==> code_on_wire(code) == code,
        code >= 255 ==> code_on_wire(code) == 255,
        code_on_wire(code) == 0 <==> code == 0,
        code < 255 && code_on_wire(code) == code_on_wire(other) ==> code == other,
        at_least_one(0) == 1,
        code > 0 ==> at_least_one(code as usize) == code,
{
}

} // verus!
