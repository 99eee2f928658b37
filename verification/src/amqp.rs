//! The boundary to the `amq_protocol` crate.
//!
//! The connection core never touches wire bytes; what it keeps from
//! `amq_protocol` are three typed values that travel through the model
//! opaquely (field tables, content properties, protocol errors) and the one
//! computation the crate performs for us: mapping a reply code to a protocol
//! error. Everything declared here is trusted; the rest of the library is
//! verified against it.

use vstd::prelude::*;

use amq_protocol::protocol::AMQPError;
use amq_protocol::protocol::basic::AMQPProperties;
use amq_protocol::types::FieldTable;
use amq_protocol::types::ShortString;

verus! {

/// A table of optional arguments attached to several AMQP methods. The core
/// never reads it; it is carried into the emitted frame unchanged.
#[verifier::external_type_specification]
#[verifier::external_body]
pub struct ExFieldTable(FieldTable);

/// The content properties of a message (content type, headers, ...). The
/// core stores them with a delivery without reading them.
#[verifier::external_type_specification]
#[verifier::external_body]
pub struct ExAMQPProperties(AMQPProperties);

/// A typed AMQP protocol error, as decoded from a reply code.
#[verifier::external_type_specification]
#[verifier::external_body]
pub struct ExAMQPError(AMQPError);

/// The reply codes that AMQP 0-9-1 defines as errors: the soft errors
/// (content-too-large .. precondition-failed) and the hard errors
/// (connection-forced .. internal-error).
pub open spec fn is_amqp_error_code(code: u16) -> bool {
    code == 311 || code == 312 || code == 313 || code == 403 || code == 404 || code == 405 || code
        == 406 || code == 320 || code == 402 || code == 501 || code == 502 || code == 503 || code
        == 504 || code == 505 || code == 506 || code == 530 || code == 540 || code == 541
}

/// Relies on `FieldTable`'s `Clone`, which reproduces the table's entries.
pub assume_specification[ <FieldTable as Clone>::clone ](v: &FieldTable) -> (r: FieldTable)
    ensures
        r == *v,
;

/// Relies on `AMQPProperties`'s `Clone`, which reproduces every property.
pub assume_specification[ <AMQPProperties as Clone>::clone ](v: &AMQPProperties) -> (r:
    AMQPProperties)
    ensures
        r == *v,
;

/// Relies on `AMQPError::from_id`, which returns `Some` exactly for the
/// reply codes listed in `is_amqp_error_code`. A reply text longer than a
/// `ShortString` admits is replaced by an empty one; `from_id` ignores the
/// text when deciding between `Some` and `None`.
#[verifier::external_body]
pub(crate) fn error_from_id(code: u16, text: String) -> (r: Option<AMQPError>)
    ensures
        r.is_some() == is_amqp_error_code(code),
{
    let message = ShortString::try_new(text).unwrap_or_default();
    AMQPError::from_id(code, message)
}

/// Relies on `AMQPProperties::default` to build the empty property set a
/// fresh delivery starts with.
#[verifier::external_body]
pub(crate) fn default_properties() -> AMQPProperties {
    AMQPProperties::default()
}

} // verus!
