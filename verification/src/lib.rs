pub mod apportion;
pub mod arena;
pub mod arrange;
pub mod canvas;
pub mod context;
pub mod errors;
pub mod events;
pub mod input;
pub mod launch;
pub mod layout;
pub mod node;
pub mod painting;
pub mod reconcile;
pub mod rect;
pub mod runtime;
pub mod transport;
pub mod traversal;
