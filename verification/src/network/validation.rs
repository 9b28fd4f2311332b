//! Limits on messages.

use crate::network::message::NetworkMessage;
use crate::network::protocol::{MessagePayload, PayloadView, VersionView};
use crate::primitives::clock::{clock_showed, read_clock};
use vstd::prelude::*;

verus! {

// Validation limits
pub const MAX_MESSAGE_SIZE: usize = 33_554_432;

pub const MAX_INV_COUNT: usize = 50000;

pub const MAX_GETDATA_COUNT: usize = 50000;

pub const MAX_HEADERS_COUNT: usize = 2000;

pub const MAX_ADDR_COUNT: usize = 1000;

/// Two hours.
pub const MAX_TIMESTAMP_DRIFT: u64 = 7200;

/// Largest transaction message.
pub const MAX_TX_SIZE: usize = 1_048_576;

#[derive(Debug, PartialEq, Eq)]
pub enum ValidationError {
    MessageTooLarge,
    InvalidPayload(String),
    InvalidTimestamp,
    UnsupportedVersion,
    InvalidChecksum,
    MalformedData,
    TooManyItems,
    InvalidNonce,
}

/// Kinds of violations of the limits that are reported.
pub enum Violation {
    MessageTooLarge,
    InvalidTimestamp,
    UnsupportedVersion,
    TooManyItems,
    InvalidNonce,
    Other,
}

impl ValidationError {
    /// The kind of the violation.
    pub open spec fn violation(self) -> Violation {
        match self {
            ValidationError::MessageTooLarge => Violation::MessageTooLarge,
            ValidationError::InvalidTimestamp => Violation::InvalidTimestamp,
            ValidationError::UnsupportedVersion => Violation::UnsupportedVersion,
            ValidationError::TooManyItems => Violation::TooManyItems,
            ValidationError::InvalidNonce => Violation::InvalidNonce,
            _ => Violation::Other,
        }
    }
}

/// The result of a check is the violation that the specification names, or
/// success where it names none.
pub open spec fn checks(r: Result<(), ValidationError>, want: Option<Violation>) -> bool {
    match want {
        Some(v) => r matches Err(e) && e.violation() == v,
        None => r is Ok,
    }
}

/// Whether a protocol version is supported.
pub open spec fn version_supported(version: u32) -> bool {
    70001 <= version <= 70016
}

/// What is wrong with a version message at a given time. Seconds beyond the range
/// of 63 bits count as the largest of them.
pub open spec fn version_violation(v: VersionView, now: u64) -> Option<Violation> {
    if v.timestamp > now + MAX_TIMESTAMP_DRIFT {
        Some(Violation::InvalidTimestamp)
    } else if !version_supported(v.version) {
        Some(Violation::UnsupportedVersion)
    } else {
        None
    }
}

/// What is wrong with a list of a given length.
pub open spec fn list_violation(len: nat, max: usize) -> Option<Violation> {
    if len > max {
        Some(Violation::TooManyItems)
    } else {
        None
    }
}

/// What is wrong with a nonce.
pub open spec fn nonce_violation(nonce: u64) -> Option<Violation> {
    if nonce == 0 {
        Some(Violation::InvalidNonce)
    } else {
        None
    }
}

/// What is wrong with the contents of a message at a given time.
pub open spec fn payload_violation(p: PayloadView, now: u64) -> Option<Violation> {
    match p {
        PayloadView::Version(v) => version_violation(v, now),
        PayloadView::Inv(items) => list_violation(items.len(), MAX_INV_COUNT),
        PayloadView::GetData(items) => list_violation(items.len(), MAX_GETDATA_COUNT),
        PayloadView::Headers(headers) => list_violation(headers.len(), MAX_HEADERS_COUNT),
        PayloadView::Addr(addresses) => list_violation(addresses.len(), MAX_ADDR_COUNT),
        PayloadView::Ping(nonce) => nonce_violation(nonce),
        PayloadView::Pong(nonce) => nonce_violation(nonce),
        _ => None,
    }
}

/// What is wrong with a size.
pub open spec fn size_violation(size: nat, max: usize) -> Option<Violation> {
    if size > max {
        Some(Violation::MessageTooLarge)
    } else {
        None
    }
}

pub struct MessageValidator;

fn check_list(len: usize, max: usize) -> (r: Result<(), ValidationError>)
    ensures
        checks(r, list_violation(len as nat, max)),
{
    if len > max {
        return Err(ValidationError::TooManyItems);
    }
    Ok(())
}

fn check_nonce(nonce: u64) -> (r: Result<(), ValidationError>)
    ensures
        checks(r, nonce_violation(nonce)),
{
    if nonce == 0 {
        return Err(ValidationError::InvalidNonce);
    }
    Ok(())
}

impl MessageValidator {
    /// Validate complete message before processing
    pub fn validate_message(msg: &NetworkMessage) -> (r: Result<(), ValidationError>)
        ensures
            checks(r, size_violation(msg.length as nat, MAX_MESSAGE_SIZE)),
    {
        if msg.length as usize > MAX_MESSAGE_SIZE {
            return Err(ValidationError::MessageTooLarge);
        }
        Ok(())
    }

    /// Validate message payload contents at a given time
    pub fn validate_payload_at(payload: &MessagePayload, now: u64) -> (r: Result<
        (),
        ValidationError,
    >)
        ensures
            checks(r, payload_violation(payload@, now)),
    {
        match payload {
            MessagePayload::Version(v) => {
                // Validate timestamp (not too far in future)
                if v.timestamp > 0 && (v.timestamp as u64).saturating_sub(now)
                    > MAX_TIMESTAMP_DRIFT {
                    return Err(ValidationError::InvalidTimestamp);
                }
                // Version should be reasonable
                if !MessageValidator::is_version_supported(v.version) {
                    return Err(ValidationError::UnsupportedVersion);
                }
                Ok(())
            },
            MessagePayload::Inv(msg) => check_list(msg.inventory.len(), MAX_INV_COUNT),
            MessagePayload::GetData(msg) => check_list(msg.inventory.len(), MAX_GETDATA_COUNT),
            MessagePayload::Headers(msg) => check_list(msg.headers.len(), MAX_HEADERS_COUNT),
            MessagePayload::Addr(msg) => check_list(msg.addresses.len(), MAX_ADDR_COUNT),
            // Nonce should not be zero (weak check, but helps)
            MessagePayload::Ping(msg) => check_nonce(msg.nonce),
            MessagePayload::Pong(msg) => check_nonce(msg.nonce),
            // Other messages are trivial or handled elsewhere
            _ => Ok(()),
        }
    }

    /// Validate message payload contents now
    pub fn validate_payload(payload: &MessagePayload) -> (r: Result<(), ValidationError>)
        ensures
            exists|now: u64|
                clock_showed(now) && checks(r, #[trigger] payload_violation(payload@, now)),
            !(payload@ is Version) ==> checks(r, payload_violation(payload@, 0)),
    {
        let now = read_clock();
        MessageValidator::validate_payload_at(payload, now)
    }

    /// Check if protocol version is supported
    fn is_version_supported(version: u32) -> (r: bool)
        ensures
            r == version_supported(version),
    {
        70001 <= version && version <= 70016
    }

    /// Validate block message size
    pub fn validate_block_size(size: usize) -> (r: Result<(), ValidationError>)
        ensures
            checks(r, size_violation(size as nat, MAX_MESSAGE_SIZE)),
    {
        if size > MAX_MESSAGE_SIZE {
            return Err(ValidationError::MessageTooLarge);
        }
        Ok(())
    }

    /// Validate transaction message size
    pub fn validate_tx_size(size: usize) -> (r: Result<(), ValidationError>)
        ensures
            checks(r, size_violation(size as nat, MAX_TX_SIZE)),
    {
        if size > MAX_TX_SIZE {
            return Err(ValidationError::MessageTooLarge);
        }
        Ok(())
    }
}

/// Things that can be checked against the limits.
pub trait Validate {
    /// Whether a result is one that the check may have.
    spec fn may_give(&self, r: Result<(), ValidationError>) -> bool;

    fn validate(&self) -> (r: Result<(), ValidationError>)
        ensures
            self.may_give(r),
    ;
}

impl Validate for NetworkMessage {
    open spec fn may_give(&self, r: Result<(), ValidationError>) -> bool {
        checks(r, size_violation(self.length as nat, MAX_MESSAGE_SIZE))
    }

    fn validate(&self) -> (r: Result<(), ValidationError>) {
        MessageValidator::validate_message(self)
    }
}

impl Validate for MessagePayload {
    open spec fn may_give(&self, r: Result<(), ValidationError>) -> bool {
        exists|now: u64|
            clock_showed(now) && checks(r, #[trigger] payload_violation(self@, now))
    }

    fn validate(&self) -> (r: Result<(), ValidationError>) {
        MessageValidator::validate_payload(self)
    }
}

} // verus!
