//! The orchestrator of a statistics workbench, without its sockets and files: the engine
//! that edits cached datasets, and the router that pairs frontends with runners.
pub mod acceptance_laws;
pub mod agreement;
pub mod appearance_laws;
pub mod blob;
pub mod block;
pub mod block_laws;
pub mod cache_laws;
pub mod capture;
pub mod catalog;
pub mod change_acceptance;
pub mod change_laws;
pub mod config;
pub mod consult;
pub mod consult_laws;
pub mod declaration_laws;
pub mod dispatch_laws;
pub mod edit_block;
pub mod edit_cols;
pub mod edit_laws;
pub mod edit_rows;
pub mod edit_schema;
pub mod engine;
pub mod envelopes;
pub mod framing;
pub mod json;
pub mod keeps;
pub mod landing;
pub mod lane;
pub mod lane_laws;
pub mod levels;
pub mod messages;
pub mod names;
pub mod number;
pub mod order_laws;
pub mod outcome;
pub mod paste;
pub mod paste_agreement;
pub mod paste_laws;
pub mod peer_laws;
pub mod program_laws;
pub mod refusal_laws;
pub mod restore_block;
pub mod restore_schema;
pub mod revival_laws;
pub mod router;
pub mod router_laws;
pub mod schema_agreement;
pub mod schema_change;
pub mod schema_laws;
pub mod segments;
pub mod serve;
pub mod setting_laws;
pub mod spelling_laws;
pub mod table;
pub mod text;
pub mod told_laws;
pub mod undo;
pub mod undo_block;
pub mod undo_laws;
pub mod undo_schema;
pub mod window;
pub mod wire;
pub mod wording;
