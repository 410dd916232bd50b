//! Traversal and rewriting of trees whose node types are not known here.
//!
//! A node type says how to list its children and how to build itself again
//! around new ones ([`ConcreteTreeNode`], [`DynTreeNode`], or
//! [`TreeStructure`] directly). In return it gets [`TreeNode`]: a read-only
//! walk and several rewriting walks, all steered by the three-valued
//! [`TreeNodeRecursion`] that the callbacks report.
//!
//! # Contracts
//!
//! Contracts speak of nodes, visitors and rewriters through models: a node
//! type names the tree under a node as a value of mathematics
//! ([`TreeStructure::Model`]), a visitor or rewriter names what it holds
//! ([`TreeNodeVisitor::State`], [`TreeNodeRewriter::State`]), and each says
//! as a function of those what its callbacks do. On these, [`visit::walk`]
//! and [`rewrite::remake`] say what a traversal does, and [`laws`] holds what
//! is proved of every traversal.
//!
//! A callback given as a closure is known only by what its own contract
//! lets it return. For such callbacks [`visit::can_apply`] and
//! [`rewrite::can_remake`] say what a traversal can come to, and [`laws`]
//! shows that this is what `walk` and `remake` say wherever the closure is a
//! function.
//!
//! The items of a trait that only contracts read (the models, the functions
//! on them, the lemmas) are never called when the program runs. A type that
//! is not verified gives them any body.

pub mod callback;
pub mod error;
pub mod laws;
pub mod model;
pub mod recursion;
pub mod rewrite;
pub mod siblings;
pub mod structure;
pub mod transformed;
pub mod traversal;
pub mod visit;

pub use error::{Failure, TraversalError};
pub use recursion::TreeNodeRecursion;
pub use rewrite::TreeNodeRewriter;
pub use siblings::TransformedIterator;
pub use structure::{ChildRef, ConcreteTreeNode, DynTreeNode, TreeStructure};
pub use transformed::{Transformed, TransformedResult};
pub use traversal::TreeNode;
pub use visit::TreeNodeVisitor;
