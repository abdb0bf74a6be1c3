//! A protocol-agnostic message router: rules decide which protocols receive a
//! message, optional transformations rewrite it, and metrics record the traffic.

mod laws;
mod metrics;
mod router;
mod topic;
mod transform;
mod types;

pub use laws::{
    lemma_disabled_rule_removable, lemma_disabled_rules_never_fire, lemma_duplicate_add_rejected,
    lemma_literal_pattern, lemma_missing_rule_remove_rejected, lemma_single_wildcard,
    lemma_star_matches_all, lemma_two_target_fan_out, lemma_unmatched_message_dropped,
};
pub use metrics::{ProtocolStats, RouterMetrics, StatUpdate};
pub use router::MessageRouter;
pub use topic::topic_matches;
pub use transform::{
    apply_compression, apply_transformation, apply_transformation_at, compress_data, copy_message,
    json_envelope_of, lemma_same_rule_same_copy, parse_transformation, set_header, transform_with,
    Transformation,
};
pub use types::{Message, Protocol, RouteRule, RouterError};
