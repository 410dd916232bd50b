//! What a node type provides.

use vstd::prelude::*;
use std::sync::Arc;
use crate::error::{Failure, TraversalError};

verus! {

/// A child as a parent lends it out: borrowed from the parent where the
/// parent holds its children, or a handle of its own where the parent shares
/// them.
pub enum ChildRef<'a, N> {
    Borrowed(&'a N),
    Owned(N),
}

impl<'a, N> ChildRef<'a, N> {
    /// The child.
    pub open spec fn node(self) -> N {
        match self {
            ChildRef::Borrowed(n) => *n,
            ChildRef::Owned(n) => n,
        }
    }

    /// The child, to read.
    pub fn get(&self) -> (r: &N)
        ensures
            *r == self.node(),
    {
        match self {
            ChildRef::Borrowed(n) => *n,
            ChildRef::Owned(n) => n,
        }
    }
}

/// The shape of a tree, as the traversals need it: the children of a node in
/// their order, and the node built again around other children.
///
/// Contracts speak of a node through its `Model`, the tree under the node as
/// a value of mathematics: `subtrees`, `height`, `detached` and `attached`
/// say of models what `child_nodes`, `detach` and `attach` do to nodes.
/// Every child is lower than its parent, so a tree is finite.
///
/// `detach` and `attach` are used as a pair: a node is detached, its
/// children are rewritten, and what is left of it is attached to them.
pub trait TreeStructure: Sized {
    /// What the tree under a node is, in contracts.
    type Model;

    /// The tree under this node.
    spec fn model(&self) -> Self::Model;

    /// The children, in order.
    spec fn subtrees(tree: Self::Model) -> Seq<Self::Model>;

    /// A number that is smaller for each child than for its parent.
    spec fn height(tree: Self::Model) -> nat;

    /// What `detach` leaves of the node itself.
    spec fn detached(tree: Self::Model) -> Self::Model;

    /// What `attach` makes of a detached node, `children` and `changed`.
    spec fn attached(tree: Self::Model, children: Seq<Self::Model>, changed: bool) -> Result<
        Self::Model,
        Failure,
    >;

    /// Every child is lower than its parent.
    proof fn lemma_subtrees_are_lower(tree: Self::Model)
        ensures
            forall|i: int|
                0 <= i < Self::subtrees(tree).len() ==> Self::height(
                    #[trigger] Self::subtrees(tree)[i],
                ) < Self::height(tree),
    ;

    /// The children, in order, to read.
    fn child_nodes(&self) -> (r: Vec<ChildRef<'_, Self>>)
        ensures
            r@.len() == Self::subtrees(self.model()).len(),
            forall|i: int|
                0 <= i < r@.len() ==> r@[i].node().model() == Self::subtrees(self.model())[i],
    ;

    /// Parts the node from its children.
    fn detach(self) -> (r: (Self, Vec<Self>))
        ensures
            r.0.model() == Self::detached(self.model()),
            r.1@.len() == Self::subtrees(self.model()).len(),
            forall|i: int|
                0 <= i < r.1@.len() ==> r.1@[i].model() == Self::subtrees(self.model())[i],
    ;

    /// Builds the node again around `children`; `self` is a detached node.
    /// `changed` says whether any of `children` differs from the child that
    /// was detached in its place.
    fn attach(self, children: Vec<Self>, changed: bool) -> (r: Result<Self, TraversalError>)
        ensures
            match r {
                Ok(node) => Self::attached(
                    self.model(),
                    Seq::new(children@.len(), |i: int| children@[i].model()),
                    changed,
                ) == Ok::<Self::Model, Failure>(node.model()),
                Err(e) => Self::attached(
                    self.model(),
                    Seq::new(children@.len(), |i: int| children@[i].model()),
                    changed,
                ) == Err::<Self::Model, Failure>(e@),
            },
    ;
}

/// A node that owns its children.
///
/// `take_children` parts the two, and `with_new_children` joins a node that
/// has been parted from its children to new ones. The traversals always
/// join a node to as many children as were taken from it.
pub trait ConcreteTreeNode: Sized {
    /// What the tree under a node is, in contracts.
    type Model;

    /// The tree under this node.
    spec fn tree(&self) -> Self::Model;

    /// The children, in order.
    spec fn children_of(tree: Self::Model) -> Seq<Self::Model>;

    /// A number that is smaller for each child than for its parent.
    spec fn tree_height(tree: Self::Model) -> nat;

    /// The node without its children.
    spec fn without_children(tree: Self::Model) -> Self::Model;

    /// What `with_new_children` returns.
    spec fn with_children(tree: Self::Model, children: Seq<Self::Model>) -> Result<
        Self::Model,
        Failure,
    >;

    /// Every child is lower than its parent.
    proof fn lemma_children_are_lower(tree: Self::Model)
        ensures
            forall|i: int|
                0 <= i < Self::children_of(tree).len() ==> Self::tree_height(
                    #[trigger] Self::children_of(tree)[i],
                ) < Self::tree_height(tree),
    ;

    /// The children, in order, to read.
    fn children(&self) -> (r: Vec<&Self>)
        ensures
            r@.len() == Self::children_of(self.tree()).len(),
            forall|i: int| 0 <= i < r@.len() ==> r@[i].tree() == Self::children_of(self.tree())[i],
    ;

    /// Takes the children out of the node.
    fn take_children(self) -> (r: (Self, Vec<Self>))
        ensures
            r.0.tree() == Self::without_children(self.tree()),
            r.1@.len() == Self::children_of(self.tree()).len(),
            forall|i: int|
                0 <= i < r.1@.len() ==> r.1@[i].tree() == Self::children_of(self.tree())[i],
    ;

    /// Puts `children` into the node, which has none.
    fn with_new_children(self, children: Vec<Self>) -> (r: Result<Self, TraversalError>)
        ensures
            match r {
                Ok(node) => Self::with_children(
                    self.tree(),
                    Seq::new(children@.len(), |i: int| children@[i].tree()),
                ) == Ok::<Self::Model, Failure>(node.tree()),
                Err(e) => Self::with_children(
                    self.tree(),
                    Seq::new(children@.len(), |i: int| children@[i].tree()),
                ) == Err::<Self::Model, Failure>(e@),
            },
    ;
}

impl<T: ConcreteTreeNode> TreeStructure for T {
    type Model = <T as ConcreteTreeNode>::Model;

    open spec fn model(&self) -> Self::Model {
        self.tree()
    }

    open spec fn subtrees(tree: Self::Model) -> Seq<Self::Model> {
        T::children_of(tree)
    }

    open spec fn height(tree: Self::Model) -> nat {
        T::tree_height(tree)
    }

    open spec fn detached(tree: Self::Model) -> Self::Model {
        T::without_children(tree)
    }

    open spec fn attached(tree: Self::Model, children: Seq<Self::Model>, changed: bool) -> Result<
        Self::Model,
        Failure,
    > {
        T::with_children(tree, children)
    }

    proof fn lemma_subtrees_are_lower(tree: Self::Model) {
        T::lemma_children_are_lower(tree);
    }

    fn child_nodes(&self) -> (r: Vec<ChildRef<'_, Self>>) {
        let children = self.children();
        let mut refs: Vec<ChildRef<'_, Self>> = Vec::new();
        let mut i: usize = 0;
        while i < children.len()
            invariant
                i <= children.len(),
                refs@.len() == i,
                forall|j: int| 0 <= j < i ==> refs@[j].node() == *children@[j],
            decreases children.len() - i,
        {
            refs.push(ChildRef::Borrowed(children[i]));
            i += 1;
        }
        refs
    }

    fn detach(self) -> (r: (Self, Vec<Self>)) {
        self.take_children()
    }

    fn attach(self, children: Vec<Self>, changed: bool) -> (r: Result<Self, TraversalError>) {
        assert(Seq::new(children@.len(), |i: int| children@[i].model()) =~= Seq::new(
            children@.len(),
            |i: int| children@[i].tree(),
        ));
        self.with_new_children(children)
    }
}

/// A node that shares its children: each child is a handle that other trees
/// may hold too, so no child is ever changed in place.
///
/// The traversals ask such a node for a new node only when one of its
/// children has changed; else they hand the node back as it is.
pub trait DynTreeNode {
    /// What the tree under a node is, in contracts.
    type Model;

    /// The tree under this node.
    spec fn arc_tree(&self) -> Self::Model;

    /// The children, in order.
    spec fn arc_children_of(tree: Self::Model) -> Seq<Self::Model>;

    /// A number that is smaller for each child than for its parent.
    spec fn arc_height(tree: Self::Model) -> nat;

    /// What `with_new_arc_children` returns.
    spec fn with_arc_children(tree: Self::Model, new_children: Seq<Self::Model>) -> Result<
        Self::Model,
        Failure,
    >;

    /// Every child is lower than its parent.
    proof fn lemma_arc_children_are_lower(tree: Self::Model)
        ensures
            forall|i: int|
                0 <= i < Self::arc_children_of(tree).len() ==> Self::arc_height(
                    #[trigger] Self::arc_children_of(tree)[i],
                ) < Self::arc_height(tree),
    ;

    /// Handles to the children, in order.
    fn arc_children(&self) -> (r: Vec<Arc<Self>>)
        ensures
            r@.len() == Self::arc_children_of(self.arc_tree()).len(),
            forall|i: int|
                0 <= i < r@.len() ==> r@[i].arc_tree() == Self::arc_children_of(self.arc_tree())[i],
    ;

    /// A node like this one around `new_children`. `arc_self` is a handle to
    /// this node.
    fn with_new_arc_children(&self, arc_self: Arc<Self>, new_children: Vec<Arc<Self>>) -> (r:
        Result<Arc<Self>, TraversalError>)
        requires
            arc_self.arc_tree() == self.arc_tree(),
        ensures
            match r {
                Ok(node) => Self::with_arc_children(
                    self.arc_tree(),
                    Seq::new(new_children@.len(), |i: int| new_children@[i].arc_tree()),
                ) == Ok::<Self::Model, Failure>(node.arc_tree()),
                Err(e) => Self::with_arc_children(
                    self.arc_tree(),
                    Seq::new(new_children@.len(), |i: int| new_children@[i].arc_tree()),
                ) == Err::<Self::Model, Failure>(e@),
            },
    ;
}

/// `Arc::clone`: one more handle to what `handle` points to. That the two
/// handles are equal is taken from the documentation of `Arc`, and is not
/// proved here.
#[verifier::external_body]
fn clone_handle<T: ?Sized>(handle: &Arc<T>) -> (r: Arc<T>)
    ensures
        r == *handle,
{
    Arc::clone(handle)
}

impl<T: DynTreeNode + ?Sized> TreeStructure for Arc<T> {
    type Model = T::Model;

    open spec fn model(&self) -> Self::Model {
        self.arc_tree()
    }

    open spec fn subtrees(tree: Self::Model) -> Seq<Self::Model> {
        T::arc_children_of(tree)
    }

    open spec fn height(tree: Self::Model) -> nat {
        T::arc_height(tree)
    }

    open spec fn detached(tree: Self::Model) -> Self::Model {
        tree
    }

    open spec fn attached(tree: Self::Model, children: Seq<Self::Model>, changed: bool) -> Result<
        Self::Model,
        Failure,
    > {
        if changed {
            T::with_arc_children(tree, children)
        } else {
            Ok(tree)
        }
    }

    proof fn lemma_subtrees_are_lower(tree: Self::Model) {
        T::lemma_arc_children_are_lower(tree);
    }

    fn child_nodes(&self) -> (r: Vec<ChildRef<'_, Self>>) {
        let children = self.arc_children();
        let ghost handles = children@;
        let mut refs: Vec<ChildRef<'_, Self>> = Vec::new();
        for child in it: children.into_iter()
            invariant
                it.seq() == handles,
                refs@.len() == it.index(),
                forall|j: int| 0 <= j < refs@.len() ==> refs@[j].node() == handles[j],
        {
            refs.push(ChildRef::Owned(child));
        }
        refs
    }

    fn detach(self) -> (r: (Self, Vec<Self>)) {
        let children = self.arc_children();
        (self, children)
    }

    fn attach(self, children: Vec<Self>, changed: bool) -> (r: Result<Self, TraversalError>) {
        if changed {
            let arc_self = clone_handle(&self);
            assert(Seq::new(children@.len(), |i: int| children@[i].model()) =~= Seq::new(
                children@.len(),
                |i: int| children@[i].arc_tree(),
            ));
            self.with_new_arc_children(arc_self, children)
        } else {
            Ok(self)
        }
    }
}

} // verus!
