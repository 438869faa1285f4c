//! The two interceptors' observable decisions: assigning the per-request
//! identifier, writing it onto the response, and building the structured
//! log events with redacted headers.
//!
//! The surrounding server performs the delegation to the wrapped handler
//! and hands its outcome (status, elapsed time, response headers) back to
//! these functions; everything they compute is specified here.

use vstd::prelude::*;

use crate::headers::HeaderCollection;
use crate::headers::lemma_remove_name_removes;
use crate::headers::name_eq;
use crate::headers::spec_redact;
use crate::headers::spec_set_header;
use crate::ids::RequestId;
use crate::ids::has_v7_markers;
use crate::ids::is_canonical_form;
use crate::ids::spec_canonical;

verus! {

/// The per-request carrier of the identifier, created when processing
/// starts and discarded when the response is done. The identifier is
/// assigned at most once, and only through `assign_identifier`.
#[derive(Clone, Copy)]
pub struct RequestContext {
    id: Option<RequestId>,
}

impl RequestContext {
    pub closed spec fn spec_id(&self) -> Option<RequestId> {
        self.id
    }

    /// A fresh context, holding no identifier yet.
    pub fn new() -> (r: RequestContext)
        ensures
            r.spec_id() is None,
    {
        RequestContext { id: None }
    }

    /// Draws one fresh time-ordered identifier and stores it in the
    /// context. The context must not have been assigned before: the
    /// identifier of a request is assigned exactly once.
    pub fn assign_identifier(&mut self) -> (id: RequestId)
        requires
            old(self).spec_id() is None,
        ensures
            final(self).spec_id() == Some(id),
            has_v7_markers(id.spec_bits()),
    {
        let id = RequestId::generate();
        self.id = Some(id);
        id
    }

    /// The identifier held by this context, if one was assigned.
    pub fn identifier(&self) -> (r: Option<RequestId>)
        ensures
            r == self.spec_id(),
    {
        self.id
    }
}

/// The name under which the identifier travels on the response.
pub fn identifier_header_name() -> (r: String)
    ensures
        r@ == "x-request-id"@,
{
    String::from_str("x-request-id")
}

/// Writes the identifier's canonical form onto the response headers under
/// `x-request-id`, overwriting any value already stored there.
pub fn apply_identifier_header(headers: &mut HeaderCollection, id: &RequestId)
    ensures
        final(headers)@ == spec_set_header(
            old(headers)@,
            "x-request-id"@,
            spec_canonical(id.spec_bits()),
        ),
{
    let name = identifier_header_name();
    let value = id.canonical();
    headers.set(name, value);
}

/// After the identifier is written onto a response, its header is present
/// exactly once: the last entry holds the canonical, well-formed form of
/// the identifier, and no other entry carries that name in any casing.
pub proof fn lemma_identifier_header(h: Seq<(Seq<char>, Seq<char>)>, id: RequestId)
    ensures
        ({
            let out = spec_set_header(h, "x-request-id"@, spec_canonical(id.spec_bits()));
            &&& out.len() >= 1
            &&& out.last() == ("x-request-id"@, spec_canonical(id.spec_bits()))
            &&& is_canonical_form(out.last().1)
            &&& forall|k: int|
                0 <= k < out.len() - 1 ==> !name_eq(#[trigger] out[k].0, "x-request-id"@)
        }),
{
    crate::ids::lemma_canonical_is_well_formed(id.spec_bits());
    lemma_remove_name_removes(h, "x-request-id"@);
    let out = spec_set_header(h, "x-request-id"@, spec_canonical(id.spec_bits()));
    assert forall|k: int| 0 <= k < out.len() - 1 implies !name_eq(
        #[trigger] out[k].0,
        "x-request-id"@,
    ) by {
        assert(out[k] == crate::headers::spec_remove_name(h, "x-request-id"@)[k]);
    }
}

/// The composition error of running the telemetry stage without a
/// previously assigned identifier. It is fatal: the stage emits no event
/// with a missing identifier.
#[derive(Clone, Copy, PartialEq, Eq, Structural, Debug)]
pub struct ContractViolation;

/// The structured event emitted before the wrapped handler runs.
pub struct RequestEvent {
    pub request_id: String,
    pub method: String,
    pub path: String,
    pub http_version: String,
    pub headers: HeaderCollection,
}

/// The structured event emitted after the wrapped handler returns.
pub struct ResponseEvent {
    pub status: u16,
    pub duration_millis: u64,
    pub headers: HeaderCollection,
}

/// Builds the "request" event: the context's identifier in canonical form,
/// the request line data unchanged, and the headers redacted. Fails if and
/// only if no identifier was assigned, in which case nothing is emitted.
pub fn make_request_event(
    ctx: &RequestContext,
    method: String,
    path: String,
    http_version: String,
    headers: &HeaderCollection,
) -> (r: Result<RequestEvent, ContractViolation>)
    ensures
        match r {
            Ok(ev) => {
                &&& ctx.spec_id() matches Some(id)
                &&& ev.request_id@ == spec_canonical(id.spec_bits())
                &&& ev.method@ == method@
                &&& ev.path@ == path@
                &&& ev.http_version@ == http_version@
                &&& ev.headers@ == spec_redact(headers@)
            },
            Err(_) => ctx.spec_id() is None,
        },
{
    match ctx.identifier() {
        None => Err(ContractViolation),
        Some(id) => Ok(
            RequestEvent {
                request_id: id.canonical(),
                method,
                path,
                http_version,
                headers: headers.redact(),
            },
        ),
    }
}

/// Builds the "response" event: the handler's status unchanged, the
/// elapsed time in whole milliseconds (truncated, and saturated at the
/// widest representable value), and the headers redacted.
pub fn make_response_event(status: u16, elapsed_nanos: u128, headers: &HeaderCollection) -> (r:
    ResponseEvent)
    requires
        100 <= status <= 599,
    ensures
        r.status == status,
        r.duration_millis == if elapsed_nanos / 1_000_000 <= u64::MAX {
            (elapsed_nanos / 1_000_000) as u64
        } else {
            u64::MAX
        },
        r.headers@ == spec_redact(headers@),
{
    let millis: u128 = elapsed_nanos / 1_000_000;
    let duration_millis: u64 = if millis <= 0xFFFF_FFFF_FFFF_FFFF {
        millis as u64
    } else {
        u64::MAX
    };
    ResponseEvent { status, duration_millis, headers: headers.redact() }
}

} // verus!
