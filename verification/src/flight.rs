//! Answering the calls of the Flight protocol.

use vstd::prelude::*;

verus! {

/// What kind of failure a [`Status`] reports.
#[derive(Clone, Copy, Debug, PartialEq, Eq, Structural)]
pub enum Code {
    Internal,
    Unimplemented,
}

/// Why a call failed.
#[derive(Debug)]
pub struct Status {
    pub code: Code,
    pub message: String,
}

/// The value of a [`Status`].
pub struct StatusView {
    pub code: Code,
    pub message: Seq<char>,
}

impl View for Status {
    type V = StatusView;

    open spec fn view(&self) -> StatusView {
        StatusView { code: self.code, message: self.message@ }
    }
}

/// A failure of this side.
pub open spec fn internal_status(message: Seq<char>) -> StatusView {
    StatusView { code: Code::Internal, message }
}

impl Status {
    /// Reports a failure of this side.
    pub fn internal(message: String) -> (r: Self)
        ensures
            r@ == internal_status(message@),
    {
        Status { code: Code::Internal, message }
    }

    /// Refuses a call that is not served.
    pub fn unimplemented(message: &str) -> (r: Self)
        ensures
            r@ == (StatusView { code: Code::Unimplemented, message: message@ }),
    {
        Status { code: Code::Unimplemented, message: message.to_owned() }
    }
}

/// Serves the streams of partitions that tickets ask for.
pub trait FlightHandler {
    /// What a stream is made of.
    type Stream<'a> where Self: 'a;

    /// Returns the stream that a ticket asks for.
    fn get_stream<'a>(&'a self, ticket: &[u8]) -> Result<Self::Stream<'a>, Status>;
}

/// The calls of the Flight protocol.
#[derive(Clone, Copy, Debug, PartialEq, Eq, Structural)]
pub enum FlightMethod {
    DoGet,
    DoPut,
    Handshake,
    ListFlights,
    GetFlightInfo,
    PollFlightInfo,
    GetSchema,
    DoAction,
    ListActions,
    DoExchange,
}

/// What a call is refused with, if it is not the one that is served.
pub open spec fn refusal(method: FlightMethod) -> Option<StatusView> {
    let message = match method {
        FlightMethod::DoGet => None,
        FlightMethod::DoPut => Some("Unimplemented: do put"@),
        FlightMethod::Handshake => Some("Unimplemented: handshake"@),
        FlightMethod::ListFlights => Some("Unimplemented: list_flights"@),
        FlightMethod::GetFlightInfo => Some("Unimplemented: get_flight_info"@),
        FlightMethod::PollFlightInfo => Some("Unimplemented: poll_flight_info"@),
        FlightMethod::GetSchema => Some("Unimplemented: get_schema"@),
        FlightMethod::DoAction => Some("Unimplemented: do action"@),
        FlightMethod::ListActions => Some("Unimplemented: list_actions"@),
        FlightMethod::DoExchange => Some("Unimplemented: do_exchange"@),
    };
    match message {
        Some(m) => Some(StatusView { code: Code::Unimplemented, message: m }),
        None => None,
    }
}

impl FlightMethod {
    /// Returns what the call is refused with, if it is not the one that is served.
    pub fn refused(&self) -> (r: Option<Status>)
        ensures
            match r {
                Some(status) => refusal(*self) == Some(status@),
                None => refusal(*self) is None,
            },
    {
        match self {
            FlightMethod::DoGet => None,
            FlightMethod::DoPut => Some(Status::unimplemented("Unimplemented: do put")),
            FlightMethod::Handshake => Some(Status::unimplemented("Unimplemented: handshake")),
            FlightMethod::ListFlights => Some(
                Status::unimplemented("Unimplemented: list_flights"),
            ),
            FlightMethod::GetFlightInfo => Some(
                Status::unimplemented("Unimplemented: get_flight_info"),
            ),
            FlightMethod::PollFlightInfo => Some(
                Status::unimplemented("Unimplemented: poll_flight_info"),
            ),
            FlightMethod::GetSchema => Some(Status::unimplemented("Unimplemented: get_schema")),
            FlightMethod::DoAction => Some(Status::unimplemented("Unimplemented: do action")),
            FlightMethod::ListActions => Some(
                Status::unimplemented("Unimplemented: list_actions"),
            ),
            FlightMethod::DoExchange => Some(Status::unimplemented("Unimplemented: do_exchange")),
        }
    }
}

/// A Flight service that leaves the one call it serves to its handler, and refuses the
/// others.
pub struct FlightServ<H: FlightHandler> {
    pub handler: H,
}

impl<H: FlightHandler> FlightServ<H> {
    /// Returns what the handler answers to a ticket.
    pub fn do_get<'a>(&'a self, ticket: &[u8]) -> (r: Result<H::Stream<'a>, Status>)
        ensures
            call_ensures(H::get_stream, (&self.handler, ticket), r),
    {
        self.handler.get_stream(ticket)
    }

    /// Answers a call. Only `DoGet` takes a ticket.
    pub fn answer<'a>(&'a self, method: FlightMethod, ticket: &[u8]) -> (r: Result<
        H::Stream<'a>,
        Status,
    >)
        ensures
            match refusal(method) {
                Some(status) => r matches Err(s) && s@ == status,
                None => call_ensures(H::get_stream, (&self.handler, ticket), r),
            },
    {
        match method.refused() {
            Some(status) => Err(status),
            None => self.do_get(ticket),
        }
    }
}

/// Only `DoGet` is served. Every other call is refused as unimplemented.
pub proof fn lemma_only_do_get_is_served(method: FlightMethod)
    ensures
        refusal(method) is None <==> method == FlightMethod::DoGet,
        refusal(method) matches Some(status) ==> status.code == Code::Unimplemented,
{
}

} // verus!
