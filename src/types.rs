use vstd::prelude::*;

verus! {

/// The messaging transports the router understands.
#[derive(Debug, Clone, Copy, PartialEq, Eq, Structural, Hash)]
pub enum Protocol {
    AMQP,
    MQTT,
    Kafka,
    NATS,
    HTTP,
}

/// A message in the normalized form shared by all protocols.
#[derive(Debug, Clone)]
pub struct Message {
    pub id: String,
    /// The protocol the message came from.
    pub protocol: Protocol,
    pub topic: String,
    pub payload: Vec<u8>,
    /// Header name and value pairs; their order carries no meaning.
    pub headers: Vec<(String, String)>,
    pub timestamp: u64,
    pub qos: u8,
    pub retain: bool,
}

/// A routing rule: messages of `source_protocol` whose topic matches
/// `topic_pattern` go to each of `target_protocols`, after the optional
/// transformation.
#[derive(Debug, Clone)]
pub struct RouteRule {
    pub id: String,
    pub source_protocol: Protocol,
    pub target_protocols: Vec<Protocol>,
    pub topic_pattern: String,
    pub transformation: Option<String>,
    pub enabled: bool,
}

/// What can go wrong in the router.
#[derive(Debug, Clone)]
pub enum RouterError {
    LockError(String),
    DuplicateRule(String),
    RuleNotFound(String),
    InvalidTransformation(String),
    CompressionError(String),
}

impl RouterError {
    /// A human readable description of the error.
    pub fn to_string(&self) -> (r: String)
        ensures
            r@ == error_text(*self),
    {
        match self {
            RouterError::LockError(s) => String::from_str("Lock error: ").concat(s.as_str()),
            RouterError::DuplicateRule(s) => String::from_str("Duplicate rule ID: ").concat(
                s.as_str(),
            ),
            RouterError::RuleNotFound(s) => String::from_str("Rule not found: ").concat(s.as_str()),
            RouterError::InvalidTransformation(s) => String::from_str(
                "Invalid transformation: ",
            ).concat(s.as_str()),
            RouterError::CompressionError(s) => String::from_str("Compression error: ").concat(
                s.as_str(),
            ),
        }
    }
}

/// The description of an error: a fixed phrase for its kind, then its detail.
pub open spec fn error_text(e: RouterError) -> Seq<char> {
    match e {
        RouterError::LockError(s) => "Lock error: "@ + s@,
        RouterError::DuplicateRule(s) => "Duplicate rule ID: "@ + s@,
        RouterError::RuleNotFound(s) => "Rule not found: "@ + s@,
        RouterError::InvalidTransformation(s) => "Invalid transformation: "@ + s@,
        RouterError::CompressionError(s) => "Compression error: "@ + s@,
    }
}

} // verus!
