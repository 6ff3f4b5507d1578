//! Downloading blocks and their data from peers.
pub mod active_requests;
pub mod batch_laws;
pub mod block_components_by_range;
pub mod column_request;
pub mod components_laws;
pub mod coupling;
pub mod coupling_laws;
pub mod custody_answer_laws;
pub mod custody_by_range;
pub mod custody_laws;
pub mod custody_plan_laws;
pub mod errors;
pub mod ids;
pub mod load_laws;
pub mod lookup_laws;
pub mod lookups;
pub mod messages;
pub mod network_context;
pub mod number_laws;
pub mod peer_choice;
pub mod peer_group;
pub mod response_laws;
pub mod responses;
pub mod stream_laws;
