//! A compressed radix trie over sequences of ordered pieces, with nodes,
//! branches and values kept in index-addressed arenas and a pluggable
//! branching strategy.

pub mod action;
pub mod arena;
pub mod branch;
pub mod byte_branch;
pub mod handle;
pub mod hash_branch;
pub mod key;
pub mod leaf;
pub mod node;
pub mod piece;
pub mod trie;
pub mod vnode;
pub mod walk;

pub use action::{Action, Op};
pub use arena::Arena;
pub use branch::{BTreeBranch, Branch};
pub use byte_branch::ByteBranch;
pub use handle::Handle;
pub use hash_branch::{HashBranch, HashPiece};
pub use key::{ByteString, Key};
pub use leaf::Leaf;
pub use node::{DataHandle, Node};
pub use piece::Piece;
pub use trie::Trie;
pub use vnode::VNode;
pub use walk::Walk;
