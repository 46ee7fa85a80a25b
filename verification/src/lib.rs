//! Detection of language models that run in circles.
//!
//! Two detectors, each a pure state machine over text:
//!
//! - [`RepeatDetector`] reads one streamed message and reports when the same
//!   segment comes several times in a row;
//! - [`CrossTurnStore`] keeps, session by session, the fingerprints of the
//!   action plans that the latest messages announced, and reports when highly
//!   similar ones stand in several different messages.

pub mod cross_turn_detector;
pub mod edit_distance;
pub mod fingerprint;
pub mod phrase;
pub mod repeat_detector;
pub mod segments;
pub mod similarity;
pub mod text;

pub use cross_turn_detector::{CrossTurnStore, SessionTurnState};
pub use edit_distance::levenshtein_distance;
pub use fingerprint::{extract_action_plan_fingerprints, is_action_plan_sentence, split_sentences};
pub use phrase::normalize_phrase;
pub use repeat_detector::RepeatDetector;
pub use similarity::{is_highly_similar, similarity, Similarity};
