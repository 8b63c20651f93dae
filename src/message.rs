use vstd::prelude::*;
use crate::envelope::response_bytes;

verus! {

/// What a `Ping` is answered with.
pub const PING_TEXT: &'static str = "Thou shalt not to use HTTP;\nThou shalt write thoust own protocol";

/// What a failed `Add` is answered with.
pub const ADD_OVERFLOW_TEXT: &'static str = "Add failed: the sum does not fit in an i32";

/// Asks the server to show that it is alive.
#[derive(Clone, Copy, Debug, PartialEq, Eq, Structural)]
pub struct Ping;

/// Asks the server to send `message` back.
#[derive(Clone, Debug)]
pub struct Echo {
    pub message: String,
}

/// Asks the server for `a + b`.
#[derive(Clone, Copy, Debug, PartialEq, Eq, Structural)]
pub struct Add {
    pub a: i32,
    pub b: i32,
}

/// The answer to a `Ping`.
#[derive(Clone, Debug)]
pub struct PingResponse(pub String);

/// The answer to an `Echo`.
#[derive(Clone, Debug)]
pub struct EchoResponse(pub String);

/// The answer to an `Add`.
#[derive(Clone, Copy, Debug, PartialEq, Eq, Structural)]
pub struct AddResponse {
    pub sum: i32,
}

/// The answer to any request that could not be read or carried out.
#[derive(Clone, Debug)]
pub struct ErrorResponse(pub String);

/// A request of one of the known kinds.
#[derive(Clone, Debug)]
pub enum AnyRequest {
    Ping(Ping),
    Echo(Echo),
    Add(Add),
}

/// A reply: the answer of one request kind, or an error.
#[derive(Clone, Debug)]
pub enum AnyResponse {
    Ping(PingResponse),
    Echo(EchoResponse),
    Add(AddResponse),
    Error(ErrorResponse),
}

/// A request as a mathematical value.
pub enum RequestModel {
    Ping,
    Echo(Seq<char>),
    Add(i32, i32),
}

/// A reply as a mathematical value.
pub enum ResponseModel {
    Ping(Seq<char>),
    Echo(Seq<char>),
    Add(i32),
    Error(Seq<char>),
}

impl View for AnyRequest {
    type V = RequestModel;

    open spec fn view(&self) -> RequestModel {
        match self {
            AnyRequest::Ping(_) => RequestModel::Ping,
            AnyRequest::Echo(e) => RequestModel::Echo(e.message@),
            AnyRequest::Add(x) => RequestModel::Add(x.a, x.b),
        }
    }
}

impl View for AnyResponse {
    type V = ResponseModel;

    open spec fn view(&self) -> ResponseModel {
        match self {
            AnyResponse::Ping(p) => ResponseModel::Ping(p.0@),
            AnyResponse::Echo(e) => ResponseModel::Echo(e.0@),
            AnyResponse::Add(x) => ResponseModel::Add(x.sum),
            AnyResponse::Error(e) => ResponseModel::Error(e.0@),
        }
    }
}

/// Whether `a + b` fits in an `i32`.
pub open spec fn sum_fits(a: i32, b: i32) -> bool {
    i32::MIN <= a + b <= i32::MAX
}

/// The reply that handling a request gives.
pub open spec fn respond(m: RequestModel) -> ResponseModel {
    match m {
        RequestModel::Ping => ResponseModel::Ping(PING_TEXT@),
        RequestModel::Echo(s) => ResponseModel::Echo(s),
        RequestModel::Add(a, b) => if sum_fits(a, b) {
            ResponseModel::Add((a + b) as i32)
        } else {
            ResponseModel::Error(ADD_OVERFLOW_TEXT@)
        },
    }
}

/// A request kind: it knows its own value and how it is answered.
pub trait Request {
    spec fn request_model(&self) -> RequestModel;

    /// Runs this kind's handler. A handler that fails answers with an error
    /// reply rather than failing the connection.
    fn handle(&self) -> (r: AnyResponse)
        ensures
            r@ == respond(self.request_model()),
    ;
}

impl Request for Ping {
    open spec fn request_model(&self) -> RequestModel {
        RequestModel::Ping
    }

    fn handle(&self) -> (r: AnyResponse) {
        AnyResponse::Ping(PingResponse(PING_TEXT.to_owned()))
    }
}

impl Request for Echo {
    open spec fn request_model(&self) -> RequestModel {
        RequestModel::Echo(self.message@)
    }

    fn handle(&self) -> (r: AnyResponse) {
        AnyResponse::Echo(EchoResponse(self.message.clone()))
    }
}

impl Request for Add {
    open spec fn request_model(&self) -> RequestModel {
        RequestModel::Add(self.a, self.b)
    }

    /// The sum, or an error reply where it does not fit in an `i32`.
    fn handle(&self) -> (r: AnyResponse) {
        match self.a.checked_add(self.b) {
            Some(sum) => AnyResponse::Add(AddResponse { sum }),
            None => AnyResponse::Error(ErrorResponse(ADD_OVERFLOW_TEXT.to_owned())),
        }
    }
}

impl Request for AnyRequest {
    open spec fn request_model(&self) -> RequestModel {
        self@
    }

    /// Runs the handler of this request's kind.
    fn handle(&self) -> (r: AnyResponse) {
        match self {
            AnyRequest::Ping(p) => p.handle(),
            AnyRequest::Echo(e) => e.handle(),
            AnyRequest::Add(x) => x.handle(),
        }
    }
}

/// A reply kind: it knows its own value, and writes itself as a tagged envelope.
pub trait Response {
    spec fn response_model(&self) -> ResponseModel;

    fn encode(&self) -> (r: Vec<u8>)
        ensures
            r@ == response_bytes(self.response_model()),
    ;
}

} // verus!
