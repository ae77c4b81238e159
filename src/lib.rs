//! Molecular graphs for an organic-chemistry editor: a catalog of radicals,
//! a graph of placed radicals joined by bonds, its connectivity analysis,
//! an undo/redo log of edits and the first checks of a naming procedure.

pub mod radical;
pub mod graph;
pub mod connectivity;
pub mod naming;
pub mod history;
pub mod id;

pub use connectivity::find_connex;
pub use graph::{
    add_link, add_node, get_block_unchecked, get_block_unchecked_mut, get_two_blocks_unchecked_mut,
    is_well_formed, remove_hanging_links, remove_link, remove_node, set_position, GraphError, Id,
    Position, UiBlock,
};
pub use history::{redo_last, undo_last, Held, UiAction, UiState};
pub use id::generate_random_id;
pub use naming::anomena;
pub use radical::UiRadical;
