use std::sync::Arc;

use tree_node::{
    ChildRef, DynTreeNode, Failure, Transformed, TraversalError, TreeNode, TreeNodeRecursion,
    TreeNodeRewriter, TreeNodeVisitor, TreeStructure,
};

#[derive(Debug)]
struct Shared {
    name: String,
    children: Vec<Arc<Shared>>,
}

fn shared(name: &str, children: Vec<Arc<Shared>>) -> Arc<Shared> {
    Arc::new(Shared { name: name.to_string(), children })
}

// The items of the node's contract that only proofs read are left empty:
// nothing calls them when the program runs.
impl DynTreeNode for Shared {
    type Model = ();

    fn arc_tree(&self) {}

    fn arc_children_of(_: ()) -> vstd::seq::Seq<()> {
        unreachable!()
    }

    fn arc_height(_: ()) -> vstd::prelude::nat {
        unreachable!()
    }

    fn with_arc_children(_: (), _: vstd::seq::Seq<()>) -> Result<(), Failure> {
        unreachable!()
    }

    fn lemma_arc_children_are_lower(_: ()) {}

    fn arc_children(&self) -> Vec<Arc<Self>> {
        self.children.clone()
    }

    // The new node says in its name whether `arc_self` was a handle to the
    // node that was asked.
    fn with_new_arc_children(
        &self,
        arc_self: Arc<Self>,
        new_children: Vec<Arc<Self>>,
    ) -> Result<Arc<Self>, TraversalError> {
        if new_children.len() != self.children.len() {
            return Err(TraversalError::Internal("wrong number of children".to_string()));
        }
        let mark = if std::ptr::eq(Arc::as_ptr(&arc_self), self) { "new" } else { "lost" };
        Ok(shared(&format!("{}({})", mark, self.name), new_children))
    }
}

//     r
//    / \
//   a   b
//   |
//   x
fn family() -> (Arc<Shared>, Arc<Shared>, Arc<Shared>, Arc<Shared>) {
    let x = shared("x", vec![]);
    let a = shared("a", vec![Arc::clone(&x)]);
    let b = shared("b", vec![]);
    let r = shared("r", vec![Arc::clone(&a), Arc::clone(&b)]);
    (r, a, b, x)
}

struct Names(Vec<String>);

impl TreeNodeVisitor for Names {
    type Node = Arc<Shared>;
    type State = ();

    fn state(&self) {}

    fn f_down_model(_: (), _: ()) -> ((), Result<TreeNodeRecursion, Failure>) {
        unreachable!()
    }

    fn f_up_model(_: (), _: ()) -> ((), Result<TreeNodeRecursion, Failure>) {
        unreachable!()
    }

    fn f_down(&mut self, node: &Arc<Shared>) -> Result<TreeNodeRecursion, TraversalError> {
        self.0.push(format!("down {}", node.name));
        Ok(TreeNodeRecursion::Continue)
    }

    fn f_up(&mut self, node: &Arc<Shared>) -> Result<TreeNodeRecursion, TraversalError> {
        self.0.push(format!("up {}", node.name));
        Ok(TreeNodeRecursion::Continue)
    }
}

struct Idle;

impl TreeNodeRewriter for Idle {
    type Node = Arc<Shared>;
    type State = ();

    fn state(&self) {}

    fn f_down_model(_: (), _: ()) -> ((), Result<Transformed<()>, Failure>) {
        unreachable!()
    }

    fn f_up_model(_: (), _: ()) -> ((), Result<Transformed<()>, Failure>) {
        unreachable!()
    }

    fn lemma_f_down_is_no_higher(_: (), _: ()) {}

    fn f_down(&mut self, node: Arc<Shared>) -> Result<Transformed<Arc<Shared>>, TraversalError> {
        Ok(Transformed::no(node))
    }

    fn f_up(&mut self, node: Arc<Shared>) -> Result<Transformed<Arc<Shared>>, TraversalError> {
        Ok(Transformed::no(node))
    }
}

#[test]
fn shared_children_are_lent_as_handles_of_their_own() {
    let (r, a, b, _) = family();
    let refs = r.child_nodes();
    assert_eq!(refs.len(), 2);
    assert!(refs.iter().all(|c| matches!(c, ChildRef::Owned(_))));
    assert!(Arc::ptr_eq(refs[0].get(), &a));
    assert!(Arc::ptr_eq(refs[1].get(), &b));
}

#[test]
fn shared_nodes_are_walked_depth_first() {
    let (r, _, _, _) = family();
    let mut names = Names(vec![]);
    assert_eq!(r.visit(&mut names), Ok(TreeNodeRecursion::Continue));
    assert_eq!(names.0, vec!["down r", "down a", "down x", "up x", "up a", "down b", "up b", "up r"]);
}

#[test]
fn a_shared_tree_that_is_left_alone_is_handed_back_itself() {
    let (r, a, b, _) = family();
    let out = Arc::clone(&r).rewrite(&mut Idle).unwrap();
    assert!(!out.transformed);
    assert_eq!(out.tnr, TreeNodeRecursion::Continue);
    assert!(Arc::ptr_eq(&out.data, &r));
    assert!(Arc::ptr_eq(&out.data.children[0], &a));
    assert!(Arc::ptr_eq(&out.data.children[1], &b));
}

#[test]
fn a_shared_node_is_built_again_only_above_a_change() {
    let (r, a, b, x) = family();
    let out = Arc::clone(&r)
        .transform_up(&|n: Arc<Shared>| {
            if n.name == "x" {
                Ok(Transformed::yes(shared("y", vec![])))
            } else {
                Ok(Transformed::no(n))
            }
        })
        .unwrap();
    assert!(out.transformed);
    assert_eq!(out.data.name, "new(r)");
    assert_eq!(out.data.children[0].name, "new(a)");
    assert_eq!(out.data.children[0].children[0].name, "y");
    assert!(Arc::ptr_eq(&out.data.children[1], &b));
    assert_eq!(r.name, "r");
    assert!(Arc::ptr_eq(&r.children[0], &a));
    assert!(Arc::ptr_eq(&a.children[0], &x));
}

#[test]
fn map_children_hands_the_shared_node_back_when_no_child_changed() {
    let (r, _, _, _) = family();
    let out = Arc::clone(&r)
        .map_children(|n| Ok(Transformed::new(n, false, TreeNodeRecursion::Jump)))
        .unwrap();
    assert!(Arc::ptr_eq(&out.data, &r));
    assert!(!out.transformed);
    assert_eq!(out.tnr, TreeNodeRecursion::Jump);
}

#[test]
fn map_children_builds_the_shared_node_again_when_a_child_changed() {
    let (r, a, b, _) = family();
    let out = Arc::clone(&r)
        .map_children(|n| if n.name == "b" { Ok(Transformed::yes(shared("c", vec![]))) } else { Ok(Transformed::no(n)) })
        .unwrap();
    assert!(out.transformed);
    assert_eq!(out.data.name, "new(r)");
    assert!(Arc::ptr_eq(&out.data.children[0], &a));
    assert_eq!(out.data.children[1].name, "c");
    assert!(!Arc::ptr_eq(&out.data.children[1], &b));
}

#[test]
fn attach_asks_the_node_only_when_something_changed() {
    let (r, a, b, _) = family();
    let kept = Arc::clone(&r).attach(vec![], false).unwrap();
    assert!(Arc::ptr_eq(&kept, &r));
    let again = Arc::clone(&r).attach(vec![Arc::clone(&b), Arc::clone(&a)], true).unwrap();
    assert_eq!(again.name, "new(r)");
    assert!(Arc::ptr_eq(&again.children[0], &b));
    assert!(Arc::ptr_eq(&again.children[1], &a));
    let refused = Arc::clone(&r).attach(vec![], true);
    assert_eq!(refused.map(|n| n.name.clone()), Err(TraversalError::Internal("wrong number of children".to_string())));
}

#[test]
fn detach_keeps_the_shared_node_whole() {
    let (r, a, b, _) = family();
    let (shell, children) = Arc::clone(&r).detach();
    assert!(Arc::ptr_eq(&shell, &r));
    assert_eq!(shell.children.len(), 2);
    assert!(Arc::ptr_eq(&children[0], &a));
    assert!(Arc::ptr_eq(&children[1], &b));
}
