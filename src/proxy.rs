use vstd::prelude::*;

use crate::error::{message_of, status_of, LBError};
use crate::policies::{next_cursor, RoundRobinPolicy};

verus! {

/// An inbound request as the listener hands it over.
pub struct InboundRequest {
    pub method: String,
    /// The path alone, without the query.
    pub path: String,
    /// The path followed by the query, as the request line carried it.
    pub path_and_query: String,
    pub headers: Vec<(String, String)>,
    pub body: Vec<u8>,
}

/// A request to send to a backend.
pub struct OutboundRequest {
    pub method: String,
    pub url: String,
    pub headers: Vec<(String, String)>,
    pub body: Vec<u8>,
}

/// A response to write back to the caller.
pub struct ProxyResponse {
    pub status: u16,
    pub headers: Vec<(String, String)>,
    pub body: Vec<u8>,
}

/// What the handler does with a request: answer at once, or forward it.
pub enum HandlerStep {
    Respond(ProxyResponse),
    Forward(OutboundRequest),
}

/// The status of the balancer's own liveness answer.
pub const STATUS_OK: u16 = 200;

/// `GET /health` is the balancer's own liveness endpoint and is never
/// forwarded.
pub open spec fn is_local_health_check(method: Seq<char>, path: Seq<char>) -> bool {
    method == "GET"@ && path == "/health"@
}

pub fn is_health_check(method: &str, path: &str) -> (r: bool)
    ensures
        r == is_local_health_check(method@, path@),
{
    let m = String::from_str(method);
    let p = String::from_str(path);
    m == String::from_str("GET") && p == String::from_str("/health")
}

/// The response that reports `e` to the caller: its status and its message
/// as the body.
pub fn error_response(e: &LBError) -> (r: ProxyResponse)
    ensures
        r.status == status_of(*e),
        r.headers@.len() == 0,
        r.body@ == message_of(*e).map_values(|c: char| c as u8),
{
    let msg = e.message();
    let mut body: Vec<u8> = Vec::new();
    let mut i: usize = 0;
    let n = msg.as_str().unicode_len();
    while i < n
        invariant
            n == msg@.len(),
            msg@ == message_of(*e),
            i <= n,
            body@ == msg@.subrange(0, i as int).map_values(|c: char| c as u8),
        decreases n - i,
    {
        let c = msg.as_str().get_char(i);
        body.push(c as u8);
        assert(msg@.subrange(0, i + 1) =~= msg@.subrange(0, i as int).push(c));
        assert(body@ =~= msg@.subrange(0, i + 1).map_values(|c: char| c as u8));
        i = i + 1;
    }
    assert(msg@.subrange(0, n as int) =~= msg@);
    ProxyResponse { status: e.status_code(), headers: Vec::new(), body }
}

/// Decides what to do with one inbound request. `GET /health` is answered at
/// once with success. Any other request goes to the backend that the policy
/// picks, with the same method, headers and body, at the backend's address
/// followed by the inbound path and query; when the registry is empty the
/// caller gets the no-backend error response instead.
pub fn handle_request(policy: &mut RoundRobinPolicy, req: InboundRequest) -> (r: HandlerStep)
    ensures
        is_local_health_check(req.method@, req.path@) ==> *final(policy) == *old(policy) && r
            is Respond && r->Respond_0.status == STATUS_OK && r->Respond_0.headers@.len() == 0
            && r->Respond_0.body@.len() == 0,
        !is_local_health_check(req.method@, req.path@) ==> {
            let reg = old(policy).registry();
            let c = old(policy).cursor();
            &&& final(policy).registry() == reg
            &&& reg.len() == 0 ==> final(policy).cursor() == c && r is Respond
                && r->Respond_0.status == status_of(LBError::NoBackendsAvailable)
                && r->Respond_0.body@ == message_of(LBError::NoBackendsAvailable).map_values(
                |c: char| c as u8,
            )
            &&& reg.len() > 0 ==> final(policy).cursor() == next_cursor(c)
                && r is Forward && r->Forward_0.method == req.method
                && r->Forward_0.url@ == reg[(c as int) % (reg.len() as int)].url@
                + req.path_and_query@ && r->Forward_0.headers == req.headers
                && r->Forward_0.body == req.body
        },
{
    if is_health_check(req.method.as_str(), req.path.as_str()) {
        return HandlerStep::Respond(
            ProxyResponse { status: STATUS_OK, headers: Vec::new(), body: Vec::new() },
        );
    }
    match policy.next() {
        Ok(server) => {
            let mut url = server;
            url.append(req.path_and_query.as_str());
            HandlerStep::Forward(
                OutboundRequest { method: req.method, url, headers: req.headers, body: req.body },
            )
        },
        Err(e) => HandlerStep::Respond(error_response(&e)),
    }
}

/// Completes a forwarded request: the backend's answer is relayed as it
/// came, status, headers and body; a request that could not be sent, or got
/// no answer in time, becomes the upstream-failure error response. No other
/// backend is tried.
pub fn finish_forward(upstream: Option<ProxyResponse>) -> (r: ProxyResponse)
    ensures
        upstream is Some ==> r == upstream->Some_0,
        upstream is None ==> r.status == status_of(LBError::BackendError) && r.body@
            == message_of(LBError::BackendError).map_values(|c: char| c as u8),
{
    match upstream {
        Some(resp) => resp,
        None => error_response(&LBError::BackendError),
    }
}

} // verus!
