//! Level-of-detail cuts over paged splat trees.
//!
//! A scene is a set of trees whose nodes stand for the same splats at finer and finer detail. The
//! library chooses the nodes to draw: best first from the roots (`traverse`), or by moving a cut
//! that is kept from call to call (`cut`). `lod_state` holds the trees themselves.

pub mod scale;
pub mod entry;
pub mod heap;
pub mod splat;
pub mod hash;
pub mod forest;
pub mod tree_view;
pub mod asker;
pub mod traverse;
pub mod traverse_laws;
pub mod traverse_runs;
pub mod scale_laws;
pub mod screen_laws;
pub mod round_laws;
pub mod cut_model;
pub mod geometry;
pub mod cut;
pub mod cut_expand;
pub mod cut_collapse;
pub mod cut_restart;
pub mod cut_pack;
pub mod cut_chunks;
pub mod cut_report;
pub mod cut_laws;
pub mod cut_history;
pub mod chunk_laws;
pub mod step_laws;
pub mod table_laws;
pub mod lod_state;
pub mod lod_level;
pub mod level_laws;
pub mod lod_query;
pub mod query_laws;
pub mod call_laws;
pub mod lod_laws;
pub mod page_laws;
pub mod synth;
pub mod synth_laws;
pub mod growth_laws;
