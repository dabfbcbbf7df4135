//! Verified building blocks of a sovereign AI workstation.
pub mod paged_kv;
pub mod text;
pub mod regex_nfa;
pub mod nfa_walk;
pub mod regex_syntax;
pub mod thompson;
pub mod regex_constrain;
pub mod pii_redact;
pub mod replay_ledger;
pub mod reservoir;
pub mod retrieval;
pub mod policy_input;
pub mod policy_questions;
pub mod profile_bundles;
pub mod provider_catalog;
pub mod prompt_history_ring;
pub mod replay_bookmark_set;
pub mod replay_playback_rate;
pub mod resource_control;
pub mod pcie;
pub mod pressure_sensors;
pub mod pressure_reactions;
pub mod precision_profile;
pub mod prompt_compress;
pub mod readability;
pub mod rendezvous_hash;
pub mod p2c_balance;
pub mod prefix_cache;
pub mod rerank;
pub mod execution_mode;
pub mod prompt_templates;
pub mod replay_cursor;
pub mod prompt_rationale;
pub mod replay_export_bundle;
pub mod repetition_penalty;
pub mod retry;
pub mod sorting;
pub mod pagerank;
pub mod product_quantization;
pub mod rmsnorm;
pub mod quant_model;
