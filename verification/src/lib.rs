//! Request-processing interceptors: time-ordered request identifiers and
//! credential-redacting telemetry events.

pub mod headers;
pub mod ids;
pub mod telemetry;

pub use headers::Header;
pub use headers::HeaderCollection;
pub use headers::eq_ignore_case;
pub use headers::is_sensitive_name;
pub use ids::RequestId;
pub use telemetry::ContractViolation;
pub use telemetry::RequestContext;
pub use telemetry::RequestEvent;
pub use telemetry::ResponseEvent;
pub use telemetry::apply_identifier_header;
pub use telemetry::identifier_header_name;
pub use telemetry::make_request_event;
pub use telemetry::make_response_event;
