pub mod approval;
pub mod builder;
pub mod cascade_result;
pub mod decision;
pub mod decision_instructions;
pub mod engine;
pub mod errors;
pub mod export_import;
pub mod git_ref;
pub mod id_order;
pub mod instruction;
pub mod keyed;
pub mod mock_provider;
pub mod providers;
pub mod reviewable_diff_id;
pub mod state;
pub mod summary;
pub mod templates;
pub mod text_order;
