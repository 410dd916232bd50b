use std::fmt::Display;

use tree_node::{
    ConcreteTreeNode, Failure, Transformed, TraversalError, TreeNode,
    TreeNodeRecursion, TreeNodeRewriter, TreeNodeVisitor,
};

type Outcome<T> = Result<T, TraversalError>;

#[derive(PartialEq, Debug)]
struct TestTreeNode<T> {
    children: Vec<TestTreeNode<T>>,
    data: T,
}

impl<T> TestTreeNode<T> {
    fn new(children: Vec<TestTreeNode<T>>, data: T) -> Self {
        Self { children, data }
    }
}

// The items of the node's contract that only proofs read are left empty:
// nothing calls them when the program runs.
impl<T> ConcreteTreeNode for TestTreeNode<T> {
    type Model = ();

    fn tree(&self) {}

    fn children_of(_: ()) -> vstd::seq::Seq<()> {
        unreachable!()
    }

    fn tree_height(_: ()) -> vstd::prelude::nat {
        unreachable!()
    }

    fn without_children(_: ()) {}

    fn with_children(_: (), _: vstd::seq::Seq<()>) -> Result<(), Failure> {
        unreachable!()
    }

    fn lemma_children_are_lower(_: ()) {}

    fn children(&self) -> Vec<&Self> {
        self.children.iter().collect()
    }

    fn take_children(mut self) -> (Self, Vec<Self>) {
        let children = std::mem::take(&mut self.children);
        (self, children)
    }

    fn with_new_children(mut self, children: Vec<Self>) -> Outcome<Self> {
        self.children = children;
        Ok(self)
    }
}

//       J
//       |
//       I
//       |
//       F
//     /   \
//    E     G
//    |     |
//    C     H
//  /   \
// B     D
//       |
//       A
fn test_tree() -> TestTreeNode<String> {
    let node_a = TestTreeNode::new(vec![], "a".to_string());
    let node_b = TestTreeNode::new(vec![], "b".to_string());
    let node_d = TestTreeNode::new(vec![node_a], "d".to_string());
    let node_c = TestTreeNode::new(vec![node_b, node_d], "c".to_string());
    let node_e = TestTreeNode::new(vec![node_c], "e".to_string());
    let node_h = TestTreeNode::new(vec![], "h".to_string());
    let node_g = TestTreeNode::new(vec![node_h], "g".to_string());
    let node_f = TestTreeNode::new(vec![node_e, node_g], "f".to_string());
    let node_i = TestTreeNode::new(vec![node_f], "i".to_string());
    TestTreeNode::new(vec![node_i], "j".to_string())
}

// Continue on all nodes
// Expected visits in a combined traversal
fn all_visits() -> Vec<String> {
    vec![
        "f_down(j)",
        "f_down(i)",
        "f_down(f)",
        "f_down(e)",
        "f_down(c)",
        "f_down(b)",
        "f_up(b)",
        "f_down(d)",
        "f_down(a)",
        "f_up(a)",
        "f_up(d)",
        "f_up(c)",
        "f_up(e)",
        "f_down(g)",
        "f_down(h)",
        "f_up(h)",
        "f_up(g)",
        "f_up(f)",
        "f_up(i)",
        "f_up(j)",
    ]
    .into_iter()
    .map(|s| s.to_string())
    .collect()
}

// Expected transformed tree after a combined traversal
fn transformed_tree() -> TestTreeNode<String> {
    let node_a = TestTreeNode::new(vec![], "f_up(f_down(a))".to_string());
    let node_b = TestTreeNode::new(vec![], "f_up(f_down(b))".to_string());
    let node_d = TestTreeNode::new(vec![node_a], "f_up(f_down(d))".to_string());
    let node_c =
        TestTreeNode::new(vec![node_b, node_d], "f_up(f_down(c))".to_string());
    let node_e = TestTreeNode::new(vec![node_c], "f_up(f_down(e))".to_string());
    let node_h = TestTreeNode::new(vec![], "f_up(f_down(h))".to_string());
    let node_g = TestTreeNode::new(vec![node_h], "f_up(f_down(g))".to_string());
    let node_f =
        TestTreeNode::new(vec![node_e, node_g], "f_up(f_down(f))".to_string());
    let node_i = TestTreeNode::new(vec![node_f], "f_up(f_down(i))".to_string());
    TestTreeNode::new(vec![node_i], "f_up(f_down(j))".to_string())
}

// Expected transformed tree after a top-down traversal
fn transformed_down_tree() -> TestTreeNode<String> {
    let node_a = TestTreeNode::new(vec![], "f_down(a)".to_string());
    let node_b = TestTreeNode::new(vec![], "f_down(b)".to_string());
    let node_d = TestTreeNode::new(vec![node_a], "f_down(d)".to_string());
    let node_c = TestTreeNode::new(vec![node_b, node_d], "f_down(c)".to_string());
    let node_e = TestTreeNode::new(vec![node_c], "f_down(e)".to_string());
    let node_h = TestTreeNode::new(vec![], "f_down(h)".to_string());
    let node_g = TestTreeNode::new(vec![node_h], "f_down(g)".to_string());
    let node_f = TestTreeNode::new(vec![node_e, node_g], "f_down(f)".to_string());
    let node_i = TestTreeNode::new(vec![node_f], "f_down(i)".to_string());
    TestTreeNode::new(vec![node_i], "f_down(j)".to_string())
}

// Expected transformed tree after a bottom-up traversal
fn transformed_up_tree() -> TestTreeNode<String> {
    let node_a = TestTreeNode::new(vec![], "f_up(a)".to_string());
    let node_b = TestTreeNode::new(vec![], "f_up(b)".to_string());
    let node_d = TestTreeNode::new(vec![node_a], "f_up(d)".to_string());
    let node_c = TestTreeNode::new(vec![node_b, node_d], "f_up(c)".to_string());
    let node_e = TestTreeNode::new(vec![node_c], "f_up(e)".to_string());
    let node_h = TestTreeNode::new(vec![], "f_up(h)".to_string());
    let node_g = TestTreeNode::new(vec![node_h], "f_up(g)".to_string());
    let node_f = TestTreeNode::new(vec![node_e, node_g], "f_up(f)".to_string());
    let node_i = TestTreeNode::new(vec![node_f], "f_up(i)".to_string());
    TestTreeNode::new(vec![node_i], "f_up(j)".to_string())
}

// f_down Jump on A node
fn f_down_jump_on_a_visits() -> Vec<String> {
    vec![
        "f_down(j)",
        "f_down(i)",
        "f_down(f)",
        "f_down(e)",
        "f_down(c)",
        "f_down(b)",
        "f_up(b)",
        "f_down(d)",
        "f_down(a)",
        "f_up(a)",
        "f_up(d)",
        "f_up(c)",
        "f_up(e)",
        "f_down(g)",
        "f_down(h)",
        "f_up(h)",
        "f_up(g)",
        "f_up(f)",
        "f_up(i)",
        "f_up(j)",
    ]
    .into_iter()
    .map(|s| s.to_string())
    .collect()
}

fn f_down_jump_on_a_transformed_down_tree() -> TestTreeNode<String> {
    let node_a = TestTreeNode::new(vec![], "f_down(a)".to_string());
    let node_b = TestTreeNode::new(vec![], "f_down(b)".to_string());
    let node_d = TestTreeNode::new(vec![node_a], "f_down(d)".to_string());
    let node_c = TestTreeNode::new(vec![node_b, node_d], "f_down(c)".to_string());
    let node_e = TestTreeNode::new(vec![node_c], "f_down(e)".to_string());
    let node_h = TestTreeNode::new(vec![], "f_down(h)".to_string());
    let node_g = TestTreeNode::new(vec![node_h], "f_down(g)".to_string());
    let node_f = TestTreeNode::new(vec![node_e, node_g], "f_down(f)".to_string());
    let node_i = TestTreeNode::new(vec![node_f], "f_down(i)".to_string());
    TestTreeNode::new(vec![node_i], "f_down(j)".to_string())
}

// f_down Jump on E node
fn f_down_jump_on_e_visits() -> Vec<String> {
    vec![
        "f_down(j)",
        "f_down(i)",
        "f_down(f)",
        "f_down(e)",
        "f_up(e)",
        "f_down(g)",
        "f_down(h)",
        "f_up(h)",
        "f_up(g)",
        "f_up(f)",
        "f_up(i)",
        "f_up(j)",
    ]
    .into_iter()
    .map(|s| s.to_string())
    .collect()
}

fn f_down_jump_on_e_transformed_tree() -> TestTreeNode<String> {
    let node_a = TestTreeNode::new(vec![], "a".to_string());
    let node_b = TestTreeNode::new(vec![], "b".to_string());
    let node_d = TestTreeNode::new(vec![node_a], "d".to_string());
    let node_c = TestTreeNode::new(vec![node_b, node_d], "c".to_string());
    let node_e = TestTreeNode::new(vec![node_c], "f_up(f_down(e))".to_string());
    let node_h = TestTreeNode::new(vec![], "f_up(f_down(h))".to_string());
    let node_g = TestTreeNode::new(vec![node_h], "f_up(f_down(g))".to_string());
    let node_f =
        TestTreeNode::new(vec![node_e, node_g], "f_up(f_down(f))".to_string());
    let node_i = TestTreeNode::new(vec![node_f], "f_up(f_down(i))".to_string());
    TestTreeNode::new(vec![node_i], "f_up(f_down(j))".to_string())
}

fn f_down_jump_on_e_transformed_down_tree() -> TestTreeNode<String> {
    let node_a = TestTreeNode::new(vec![], "a".to_string());
    let node_b = TestTreeNode::new(vec![], "b".to_string());
    let node_d = TestTreeNode::new(vec![node_a], "d".to_string());
    let node_c = TestTreeNode::new(vec![node_b, node_d], "c".to_string());
    let node_e = TestTreeNode::new(vec![node_c], "f_down(e)".to_string());
    let node_h = TestTreeNode::new(vec![], "f_down(h)".to_string());
    let node_g = TestTreeNode::new(vec![node_h], "f_down(g)".to_string());
    let node_f = TestTreeNode::new(vec![node_e, node_g], "f_down(f)".to_string());
    let node_i = TestTreeNode::new(vec![node_f], "f_down(i)".to_string());
    TestTreeNode::new(vec![node_i], "f_down(j)".to_string())
}

// f_up Jump on A node
fn f_up_jump_on_a_visits() -> Vec<String> {
    vec![
        "f_down(j)",
        "f_down(i)",
        "f_down(f)",
        "f_down(e)",
        "f_down(c)",
        "f_down(b)",
        "f_up(b)",
        "f_down(d)",
        "f_down(a)",
        "f_up(a)",
        "f_down(g)",
        "f_down(h)",
        "f_up(h)",
        "f_up(g)",
        "f_up(f)",
        "f_up(i)",
        "f_up(j)",
    ]
    .into_iter()
    .map(|s| s.to_string())
    .collect()
}

fn f_up_jump_on_a_transformed_tree() -> TestTreeNode<String> {
    let node_a = TestTreeNode::new(vec![], "f_up(f_down(a))".to_string());
    let node_b = TestTreeNode::new(vec![], "f_up(f_down(b))".to_string());
    let node_d = TestTreeNode::new(vec![node_a], "f_down(d)".to_string());
    let node_c = TestTreeNode::new(vec![node_b, node_d], "f_down(c)".to_string());
    let node_e = TestTreeNode::new(vec![node_c], "f_down(e)".to_string());
    let node_h = TestTreeNode::new(vec![], "f_up(f_down(h))".to_string());
    let node_g = TestTreeNode::new(vec![node_h], "f_up(f_down(g))".to_string());
    let node_f =
        TestTreeNode::new(vec![node_e, node_g], "f_up(f_down(f))".to_string());
    let node_i = TestTreeNode::new(vec![node_f], "f_up(f_down(i))".to_string());
    TestTreeNode::new(vec![node_i], "f_up(f_down(j))".to_string())
}

fn f_up_jump_on_a_transformed_up_tree() -> TestTreeNode<String> {
    let node_a = TestTreeNode::new(vec![], "f_up(a)".to_string());
    let node_b = TestTreeNode::new(vec![], "f_up(b)".to_string());
    let node_d = TestTreeNode::new(vec![node_a], "d".to_string());
    let node_c = TestTreeNode::new(vec![node_b, node_d], "c".to_string());
    let node_e = TestTreeNode::new(vec![node_c], "e".to_string());
    let node_h = TestTreeNode::new(vec![], "f_up(h)".to_string());
    let node_g = TestTreeNode::new(vec![node_h], "f_up(g)".to_string());
    let node_f = TestTreeNode::new(vec![node_e, node_g], "f_up(f)".to_string());
    let node_i = TestTreeNode::new(vec![node_f], "f_up(i)".to_string());
    TestTreeNode::new(vec![node_i], "f_up(j)".to_string())
}

// f_up Jump on E node
fn f_up_jump_on_e_visits() -> Vec<String> {
    vec![
        "f_down(j)",
        "f_down(i)",
        "f_down(f)",
        "f_down(e)",
        "f_down(c)",
        "f_down(b)",
        "f_up(b)",
        "f_down(d)",
        "f_down(a)",
        "f_up(a)",
        "f_up(d)",
        "f_up(c)",
        "f_up(e)",
        "f_down(g)",
        "f_down(h)",
        "f_up(h)",
        "f_up(g)",
        "f_up(f)",
        "f_up(i)",
        "f_up(j)",
    ]
    .into_iter()
    .map(|s| s.to_string())
    .collect()
}

fn f_up_jump_on_e_transformed_tree() -> TestTreeNode<String> {
    transformed_tree()
}

fn f_up_jump_on_e_transformed_up_tree() -> TestTreeNode<String> {
    transformed_up_tree()
}

// f_down Stop on A node

fn f_down_stop_on_a_visits() -> Vec<String> {
    vec![
        "f_down(j)",
        "f_down(i)",
        "f_down(f)",
        "f_down(e)",
        "f_down(c)",
        "f_down(b)",
        "f_up(b)",
        "f_down(d)",
        "f_down(a)",
    ]
    .into_iter()
    .map(|s| s.to_string())
    .collect()
}

fn f_down_stop_on_a_transformed_tree() -> TestTreeNode<String> {
    let node_a = TestTreeNode::new(vec![], "f_down(a)".to_string());
    let node_b = TestTreeNode::new(vec![], "f_up(f_down(b))".to_string());
    let node_d = TestTreeNode::new(vec![node_a], "f_down(d)".to_string());
    let node_c = TestTreeNode::new(vec![node_b, node_d], "f_down(c)".to_string());
    let node_e = TestTreeNode::new(vec![node_c], "f_down(e)".to_string());
    let node_h = TestTreeNode::new(vec![], "h".to_string());
    let node_g = TestTreeNode::new(vec![node_h], "g".to_string());
    let node_f = TestTreeNode::new(vec![node_e, node_g], "f_down(f)".to_string());
    let node_i = TestTreeNode::new(vec![node_f], "f_down(i)".to_string());
    TestTreeNode::new(vec![node_i], "f_down(j)".to_string())
}

fn f_down_stop_on_a_transformed_down_tree() -> TestTreeNode<String> {
    let node_a = TestTreeNode::new(vec![], "f_down(a)".to_string());
    let node_b = TestTreeNode::new(vec![], "f_down(b)".to_string());
    let node_d = TestTreeNode::new(vec![node_a], "f_down(d)".to_string());
    let node_c = TestTreeNode::new(vec![node_b, node_d], "f_down(c)".to_string());
    let node_e = TestTreeNode::new(vec![node_c], "f_down(e)".to_string());
    let node_h = TestTreeNode::new(vec![], "h".to_string());
    let node_g = TestTreeNode::new(vec![node_h], "g".to_string());
    let node_f = TestTreeNode::new(vec![node_e, node_g], "f_down(f)".to_string());
    let node_i = TestTreeNode::new(vec![node_f], "f_down(i)".to_string());
    TestTreeNode::new(vec![node_i], "f_down(j)".to_string())
}

// f_down Stop on E node
fn f_down_stop_on_e_visits() -> Vec<String> {
    vec!["f_down(j)", "f_down(i)", "f_down(f)", "f_down(e)"]
        .into_iter()
        .map(|s| s.to_string())
        .collect()
}

fn f_down_stop_on_e_transformed_tree() -> TestTreeNode<String> {
    let node_a = TestTreeNode::new(vec![], "a".to_string());
    let node_b = TestTreeNode::new(vec![], "b".to_string());
    let node_d = TestTreeNode::new(vec![node_a], "d".to_string());
    let node_c = TestTreeNode::new(vec![node_b, node_d], "c".to_string());
    let node_e = TestTreeNode::new(vec![node_c], "f_down(e)".to_string());
    let node_h = TestTreeNode::new(vec![], "h".to_string());
    let node_g = TestTreeNode::new(vec![node_h], "g".to_string());
    let node_f = TestTreeNode::new(vec![node_e, node_g], "f_down(f)".to_string());
    let node_i = TestTreeNode::new(vec![node_f], "f_down(i)".to_string());
    TestTreeNode::new(vec![node_i], "f_down(j)".to_string())
}

fn f_down_stop_on_e_transformed_down_tree() -> TestTreeNode<String> {
    let node_a = TestTreeNode::new(vec![], "a".to_string());
    let node_b = TestTreeNode::new(vec![], "b".to_string());
    let node_d = TestTreeNode::new(vec![node_a], "d".to_string());
    let node_c = TestTreeNode::new(vec![node_b, node_d], "c".to_string());
    let node_e = TestTreeNode::new(vec![node_c], "f_down(e)".to_string());
    let node_h = TestTreeNode::new(vec![], "h".to_string());
    let node_g = TestTreeNode::new(vec![node_h], "g".to_string());
    let node_f = TestTreeNode::new(vec![node_e, node_g], "f_down(f)".to_string());
    let node_i = TestTreeNode::new(vec![node_f], "f_down(i)".to_string());
    TestTreeNode::new(vec![node_i], "f_down(j)".to_string())
}

// f_up Stop on A node
fn f_up_stop_on_a_visits() -> Vec<String> {
    vec![
        "f_down(j)",
        "f_down(i)",
        "f_down(f)",
        "f_down(e)",
        "f_down(c)",
        "f_down(b)",
        "f_up(b)",
        "f_down(d)",
        "f_down(a)",
        "f_up(a)",
    ]
    .into_iter()
    .map(|s| s.to_string())
    .collect()
}

fn f_up_stop_on_a_transformed_tree() -> TestTreeNode<String> {
    let node_a = TestTreeNode::new(vec![], "f_up(f_down(a))".to_string());
    let node_b = TestTreeNode::new(vec![], "f_up(f_down(b))".to_string());
    let node_d = TestTreeNode::new(vec![node_a], "f_down(d)".to_string());
    let node_c = TestTreeNode::new(vec![node_b, node_d], "f_down(c)".to_string());
    let node_e = TestTreeNode::new(vec![node_c], "f_down(e)".to_string());
    let node_h = TestTreeNode::new(vec![], "h".to_string());
    let node_g = TestTreeNode::new(vec![node_h], "g".to_string());
    let node_f = TestTreeNode::new(vec![node_e, node_g], "f_down(f)".to_string());
    let node_i = TestTreeNode::new(vec![node_f], "f_down(i)".to_string());
    TestTreeNode::new(vec![node_i], "f_down(j)".to_string())
}

fn f_up_stop_on_a_transformed_up_tree() -> TestTreeNode<String> {
    let node_a = TestTreeNode::new(vec![], "f_up(a)".to_string());
    let node_b = TestTreeNode::new(vec![], "f_up(b)".to_string());
    let node_d = TestTreeNode::new(vec![node_a], "d".to_string());
    let node_c = TestTreeNode::new(vec![node_b, node_d], "c".to_string());
    let node_e = TestTreeNode::new(vec![node_c], "e".to_string());
    let node_h = TestTreeNode::new(vec![], "h".to_string());
    let node_g = TestTreeNode::new(vec![node_h], "g".to_string());
    let node_f = TestTreeNode::new(vec![node_e, node_g], "f".to_string());
    let node_i = TestTreeNode::new(vec![node_f], "i".to_string());
    TestTreeNode::new(vec![node_i], "j".to_string())
}

// f_up Stop on E node
fn f_up_stop_on_e_visits() -> Vec<String> {
    vec![
        "f_down(j)",
        "f_down(i)",
        "f_down(f)",
        "f_down(e)",
        "f_down(c)",
        "f_down(b)",
        "f_up(b)",
        "f_down(d)",
        "f_down(a)",
        "f_up(a)",
        "f_up(d)",
        "f_up(c)",
        "f_up(e)",
    ]
    .into_iter()
    .map(|s| s.to_string())
    .collect()
}

fn f_up_stop_on_e_transformed_tree() -> TestTreeNode<String> {
    let node_a = TestTreeNode::new(vec![], "f_up(f_down(a))".to_string());
    let node_b = TestTreeNode::new(vec![], "f_up(f_down(b))".to_string());
    let node_d = TestTreeNode::new(vec![node_a], "f_up(f_down(d))".to_string());
    let node_c =
        TestTreeNode::new(vec![node_b, node_d], "f_up(f_down(c))".to_string());
    let node_e = TestTreeNode::new(vec![node_c], "f_up(f_down(e))".to_string());
    let node_h = TestTreeNode::new(vec![], "h".to_string());
    let node_g = TestTreeNode::new(vec![node_h], "g".to_string());
    let node_f = TestTreeNode::new(vec![node_e, node_g], "f_down(f)".to_string());
    let node_i = TestTreeNode::new(vec![node_f], "f_down(i)".to_string());
    TestTreeNode::new(vec![node_i], "f_down(j)".to_string())
}

fn f_up_stop_on_e_transformed_up_tree() -> TestTreeNode<String> {
    let node_a = TestTreeNode::new(vec![], "f_up(a)".to_string());
    let node_b = TestTreeNode::new(vec![], "f_up(b)".to_string());
    let node_d = TestTreeNode::new(vec![node_a], "f_up(d)".to_string());
    let node_c = TestTreeNode::new(vec![node_b, node_d], "f_up(c)".to_string());
    let node_e = TestTreeNode::new(vec![node_c], "f_up(e)".to_string());
    let node_h = TestTreeNode::new(vec![], "h".to_string());
    let node_g = TestTreeNode::new(vec![node_h], "g".to_string());
    let node_f = TestTreeNode::new(vec![node_e, node_g], "f".to_string());
    let node_i = TestTreeNode::new(vec![node_f], "i".to_string());
    TestTreeNode::new(vec![node_i], "j".to_string())
}

fn down_visits(visits: Vec<String>) -> Vec<String> {
    visits
        .into_iter()
        .filter(|v| v.starts_with("f_down"))
        .collect()
}

type TestVisitorF<T> = Box<dyn FnMut(&TestTreeNode<T>) -> Outcome<TreeNodeRecursion>>;

struct TestVisitor<T> {
    visits: Vec<String>,
    f_down: TestVisitorF<T>,
    f_up: TestVisitorF<T>,
}

impl<T> TestVisitor<T> {
    fn new(f_down: TestVisitorF<T>, f_up: TestVisitorF<T>) -> Self {
        Self {
            visits: vec![],
            f_down,
            f_up,
        }
    }
}

impl<T: Display> TreeNodeVisitor for TestVisitor<T> {
    type Node = TestTreeNode<T>;

    type State = ();

    fn state(&self) {}

    fn f_down_model(_: (), _: ()) -> ((), Result<TreeNodeRecursion, Failure>) {
        unreachable!()
    }

    fn f_up_model(_: (), _: ()) -> ((), Result<TreeNodeRecursion, Failure>) {
        unreachable!()
    }

    fn f_down(&mut self, node: &Self::Node) -> Outcome<TreeNodeRecursion> {
        self.visits.push(format!("f_down({})", node.data));
        (*self.f_down)(node)
    }

    fn f_up(&mut self, node: &Self::Node) -> Outcome<TreeNodeRecursion> {
        self.visits.push(format!("f_up({})", node.data));
        (*self.f_up)(node)
    }
}

fn visit_continue<T>(_: &TestTreeNode<T>) -> Outcome<TreeNodeRecursion> {
    Ok(TreeNodeRecursion::Continue)
}

fn visit_event_on<T: PartialEq, D: Into<T>>(
    data: D,
    event: TreeNodeRecursion,
) -> impl FnMut(&TestTreeNode<T>) -> Outcome<TreeNodeRecursion> {
    let d = data.into();
    move |node| {
        Ok(if node.data == d {
            event
        } else {
            TreeNodeRecursion::Continue
        })
    }
}

type TestRewriterF<T> =
    Box<dyn FnMut(TestTreeNode<T>) -> Outcome<Transformed<TestTreeNode<T>>>>;

struct TestRewriter<T> {
    f_down: TestRewriterF<T>,
    f_up: TestRewriterF<T>,
}

impl<T> TestRewriter<T> {
    fn new(f_down: TestRewriterF<T>, f_up: TestRewriterF<T>) -> Self {
        Self { f_down, f_up }
    }
}

impl<T: Display> TreeNodeRewriter for TestRewriter<T> {
    type Node = TestTreeNode<T>;

    type State = ();

    fn state(&self) {}

    fn f_down_model(_: (), _: ()) -> ((), Result<Transformed<()>, Failure>) {
        unreachable!()
    }

    fn f_up_model(_: (), _: ()) -> ((), Result<Transformed<()>, Failure>) {
        unreachable!()
    }

    fn lemma_f_down_is_no_higher(_: (), _: ()) {}

    fn f_down(&mut self, node: Self::Node) -> Outcome<Transformed<Self::Node>> {
        (*self.f_down)(node)
    }

    fn f_up(&mut self, node: Self::Node) -> Outcome<Transformed<Self::Node>> {
        (*self.f_up)(node)
    }
}

fn transform_yes<N: Display, T: Display + From<String>>(
    transformation_name: N,
) -> impl FnMut(TestTreeNode<T>) -> Outcome<Transformed<TestTreeNode<T>>> {
    move |node| {
        Ok(Transformed::yes(TestTreeNode::new(
            node.children,
            format!("{}({})", transformation_name, node.data).into(),
        )))
    }
}

fn transform_and_event_on<
    N: Display,
    T: PartialEq + Display + From<String>,
    D: Into<T>,
>(
    transformation_name: N,
    data: D,
    event: TreeNodeRecursion,
) -> impl FnMut(TestTreeNode<T>) -> Outcome<Transformed<TestTreeNode<T>>> {
    let d = data.into();
    move |node| {
        let new_node = TestTreeNode::new(
            node.children,
            format!("{}({})", transformation_name, node.data).into(),
        );
        Ok(if node.data == d {
            Transformed::new(new_node, true, event)
        } else {
            Transformed::yes(new_node)
        })
    }
}

#[test]
fn test_visit() -> Outcome<()> {
    let tree = test_tree();
    let mut visitor = TestVisitor::new(
        Box::new(visit_continue),
        Box::new(visit_continue),
    );
    tree.visit(&mut visitor)?;
    assert_eq!(visitor.visits, all_visits());

    Ok(())
}

#[test]
fn test_visit_f_down_jump_on_a() -> Outcome<()> {
    let tree = test_tree();
    let mut visitor = TestVisitor::new(
        Box::new(visit_event_on("a", TreeNodeRecursion::Jump)),
        Box::new(visit_continue),
    );
    tree.visit(&mut visitor)?;
    assert_eq!(visitor.visits, f_down_jump_on_a_visits());

    Ok(())
}

#[test]
fn test_visit_f_down_jump_on_e() -> Outcome<()> {
    let tree = test_tree();
    let mut visitor = TestVisitor::new(
        Box::new(visit_event_on("e", TreeNodeRecursion::Jump)),
        Box::new(visit_continue),
    );
    tree.visit(&mut visitor)?;
    assert_eq!(visitor.visits, f_down_jump_on_e_visits());

    Ok(())
}

#[test]
fn test_visit_f_up_jump_on_a() -> Outcome<()> {
    let tree = test_tree();
    let mut visitor = TestVisitor::new(
        Box::new(visit_continue),
        Box::new(visit_event_on("a", TreeNodeRecursion::Jump)),
    );
    tree.visit(&mut visitor)?;
    assert_eq!(visitor.visits, f_up_jump_on_a_visits());

    Ok(())
}

#[test]
fn test_visit_f_up_jump_on_e() -> Outcome<()> {
    let tree = test_tree();
    let mut visitor = TestVisitor::new(
        Box::new(visit_continue),
        Box::new(visit_event_on("e", TreeNodeRecursion::Jump)),
    );
    tree.visit(&mut visitor)?;
    assert_eq!(visitor.visits, f_up_jump_on_e_visits());

    Ok(())
}

#[test]
fn test_visit_f_down_stop_on_a() -> Outcome<()> {
    let tree = test_tree();
    let mut visitor = TestVisitor::new(
        Box::new(visit_event_on("a", TreeNodeRecursion::Stop)),
        Box::new(visit_continue),
    );
    tree.visit(&mut visitor)?;
    assert_eq!(visitor.visits, f_down_stop_on_a_visits());

    Ok(())
}

#[test]
fn test_visit_f_down_stop_on_e() -> Outcome<()> {
    let tree = test_tree();
    let mut visitor = TestVisitor::new(
        Box::new(visit_event_on("e", TreeNodeRecursion::Stop)),
        Box::new(visit_continue),
    );
    tree.visit(&mut visitor)?;
    assert_eq!(visitor.visits, f_down_stop_on_e_visits());

    Ok(())
}

#[test]
fn test_visit_f_up_stop_on_a() -> Outcome<()> {
    let tree = test_tree();
    let mut visitor = TestVisitor::new(
        Box::new(visit_continue),
        Box::new(visit_event_on("a", TreeNodeRecursion::Stop)),
    );
    tree.visit(&mut visitor)?;
    assert_eq!(visitor.visits, f_up_stop_on_a_visits());

    Ok(())
}

#[test]
fn test_visit_f_up_stop_on_e() -> Outcome<()> {
    let tree = test_tree();
    let mut visitor = TestVisitor::new(
        Box::new(visit_continue),
        Box::new(visit_event_on("e", TreeNodeRecursion::Stop)),
    );
    tree.visit(&mut visitor)?;
    assert_eq!(visitor.visits, f_up_stop_on_e_visits());

    Ok(())
}

#[test]
fn test_apply() -> Outcome<()> {
    let tree = test_tree();
    let mut visits = vec![];
    let mut f = visit_continue;
    tree.apply(&mut |node: &TestTreeNode<String>| {
        visits.push(format!("f_down({})", node.data));
        f(node)
    })?;
    assert_eq!(visits, down_visits(all_visits()));

    Ok(())
}

#[test]
fn test_apply_f_down_jump_on_a() -> Outcome<()> {
    let tree = test_tree();
    let mut visits = vec![];
    let mut f = visit_event_on("a", TreeNodeRecursion::Jump);
    tree.apply(&mut |node: &TestTreeNode<String>| {
        visits.push(format!("f_down({})", node.data));
        f(node)
    })?;
    assert_eq!(visits, down_visits(f_down_jump_on_a_visits()));

    Ok(())
}

#[test]
fn test_apply_f_down_jump_on_e() -> Outcome<()> {
    let tree = test_tree();
    let mut visits = vec![];
    let mut f = visit_event_on("e", TreeNodeRecursion::Jump);
    tree.apply(&mut |node: &TestTreeNode<String>| {
        visits.push(format!("f_down({})", node.data));
        f(node)
    })?;
    assert_eq!(visits, down_visits(f_down_jump_on_e_visits()));

    Ok(())
}

#[test]
fn test_apply_f_down_stop_on_a() -> Outcome<()> {
    let tree = test_tree();
    let mut visits = vec![];
    let mut f = visit_event_on("a", TreeNodeRecursion::Stop);
    tree.apply(&mut |node: &TestTreeNode<String>| {
        visits.push(format!("f_down({})", node.data));
        f(node)
    })?;
    assert_eq!(visits, down_visits(f_down_stop_on_a_visits()));

    Ok(())
}

#[test]
fn test_apply_f_down_stop_on_e() -> Outcome<()> {
    let tree = test_tree();
    let mut visits = vec![];
    let mut f = visit_event_on("e", TreeNodeRecursion::Stop);
    tree.apply(&mut |node: &TestTreeNode<String>| {
        visits.push(format!("f_down({})", node.data));
        f(node)
    })?;
    assert_eq!(visits, down_visits(f_down_stop_on_e_visits()));

    Ok(())
}

#[test]
fn test_rewrite() -> Outcome<()> {
    let tree = test_tree();
    let mut rewriter = TestRewriter::new(
        Box::new(transform_yes("f_down")),
        Box::new(transform_yes("f_up")),
    );
    assert_eq!(
        tree.rewrite(&mut rewriter)?,
        Transformed::yes(transformed_tree())
    );

    Ok(())
}

#[test]
fn test_rewrite_f_down_jump_on_a() -> Outcome<()> {
    let tree = test_tree();
    let mut rewriter = TestRewriter::new(
        Box::new(transform_and_event_on("f_down", "a", TreeNodeRecursion::Jump)),
        Box::new(transform_yes("f_up")),
    );
    assert_eq!(
        tree.rewrite(&mut rewriter)?,
        Transformed::yes(transformed_tree())
    );

    Ok(())
}

#[test]
fn test_rewrite_f_down_jump_on_e() -> Outcome<()> {
    let tree = test_tree();
    let mut rewriter = TestRewriter::new(
        Box::new(transform_and_event_on("f_down", "e", TreeNodeRecursion::Jump)),
        Box::new(transform_yes("f_up")),
    );
    assert_eq!(
        tree.rewrite(&mut rewriter)?,
        Transformed::yes(f_down_jump_on_e_transformed_tree())
    );

    Ok(())
}

#[test]
fn test_rewrite_f_up_jump_on_a() -> Outcome<()> {
    let tree = test_tree();
    let mut rewriter = TestRewriter::new(
        Box::new(transform_yes("f_down")),
        Box::new(transform_and_event_on("f_up", "f_down(a)", TreeNodeRecursion::Jump)),
    );
    assert_eq!(
        tree.rewrite(&mut rewriter)?,
        Transformed::yes(f_up_jump_on_a_transformed_tree())
    );

    Ok(())
}

#[test]
fn test_rewrite_f_up_jump_on_e() -> Outcome<()> {
    let tree = test_tree();
    let mut rewriter = TestRewriter::new(
        Box::new(transform_yes("f_down")),
        Box::new(transform_and_event_on("f_up", "f_down(e)", TreeNodeRecursion::Jump)),
    );
    assert_eq!(
        tree.rewrite(&mut rewriter)?,
        Transformed::yes(f_up_jump_on_e_transformed_tree())
    );

    Ok(())
}

#[test]
fn test_rewrite_f_down_stop_on_a() -> Outcome<()> {
    let tree = test_tree();
    let mut rewriter = TestRewriter::new(
        Box::new(transform_and_event_on("f_down", "a", TreeNodeRecursion::Stop)),
        Box::new(transform_yes("f_up")),
    );
    assert_eq!(
        tree.rewrite(&mut rewriter)?,
        Transformed::new(f_down_stop_on_a_transformed_tree(), true, TreeNodeRecursion::Stop)
    );

    Ok(())
}

#[test]
fn test_rewrite_f_down_stop_on_e() -> Outcome<()> {
    let tree = test_tree();
    let mut rewriter = TestRewriter::new(
        Box::new(transform_and_event_on("f_down", "e", TreeNodeRecursion::Stop)),
        Box::new(transform_yes("f_up")),
    );
    assert_eq!(
        tree.rewrite(&mut rewriter)?,
        Transformed::new(f_down_stop_on_e_transformed_tree(), true, TreeNodeRecursion::Stop)
    );

    Ok(())
}

#[test]
fn test_rewrite_f_up_stop_on_a() -> Outcome<()> {
    let tree = test_tree();
    let mut rewriter = TestRewriter::new(
        Box::new(transform_yes("f_down")),
        Box::new(transform_and_event_on("f_up", "f_down(a)", TreeNodeRecursion::Stop)),
    );
    assert_eq!(
        tree.rewrite(&mut rewriter)?,
        Transformed::new(f_up_stop_on_a_transformed_tree(), true, TreeNodeRecursion::Stop)
    );

    Ok(())
}

#[test]
fn test_rewrite_f_up_stop_on_e() -> Outcome<()> {
    let tree = test_tree();
    let mut rewriter = TestRewriter::new(
        Box::new(transform_yes("f_down")),
        Box::new(transform_and_event_on("f_up", "f_down(e)", TreeNodeRecursion::Stop)),
    );
    assert_eq!(
        tree.rewrite(&mut rewriter)?,
        Transformed::new(f_up_stop_on_e_transformed_tree(), true, TreeNodeRecursion::Stop)
    );

    Ok(())
}

#[test]
fn test_transform() -> Outcome<()> {
    let tree = test_tree();
    assert_eq!(
        tree.transform_down_up(
            &mut transform_yes("f_down"),
            &mut transform_yes("f_up"),
        )?,
        Transformed::yes(transformed_tree())
    );

    Ok(())
}

#[test]
fn test_transform_f_down_jump_on_a() -> Outcome<()> {
    let tree = test_tree();
    assert_eq!(
        tree.transform_down_up(
            &mut transform_and_event_on("f_down", "a", TreeNodeRecursion::Jump),
            &mut transform_yes("f_up"),
        )?,
        Transformed::yes(transformed_tree())
    );

    Ok(())
}

#[test]
fn test_transform_f_down_jump_on_e() -> Outcome<()> {
    let tree = test_tree();
    assert_eq!(
        tree.transform_down_up(
            &mut transform_and_event_on("f_down", "e", TreeNodeRecursion::Jump),
            &mut transform_yes("f_up"),
        )?,
        Transformed::yes(f_down_jump_on_e_transformed_tree())
    );

    Ok(())
}

#[test]
fn test_transform_f_up_jump_on_a() -> Outcome<()> {
    let tree = test_tree();
    assert_eq!(
        tree.transform_down_up(
            &mut transform_yes("f_down"),
            &mut transform_and_event_on("f_up", "f_down(a)", TreeNodeRecursion::Jump),
        )?,
        Transformed::yes(f_up_jump_on_a_transformed_tree())
    );

    Ok(())
}

#[test]
fn test_transform_f_up_jump_on_e() -> Outcome<()> {
    let tree = test_tree();
    assert_eq!(
        tree.transform_down_up(
            &mut transform_yes("f_down"),
            &mut transform_and_event_on("f_up", "f_down(e)", TreeNodeRecursion::Jump),
        )?,
        Transformed::yes(f_up_jump_on_e_transformed_tree())
    );

    Ok(())
}

#[test]
fn test_transform_f_down_stop_on_a() -> Outcome<()> {
    let tree = test_tree();
    assert_eq!(
        tree.transform_down_up(
            &mut transform_and_event_on("f_down", "a", TreeNodeRecursion::Stop),
            &mut transform_yes("f_up"),
        )?,
        Transformed::new(f_down_stop_on_a_transformed_tree(), true, TreeNodeRecursion::Stop)
    );

    Ok(())
}

#[test]
fn test_transform_f_down_stop_on_e() -> Outcome<()> {
    let tree = test_tree();
    assert_eq!(
        tree.transform_down_up(
            &mut transform_and_event_on("f_down", "e", TreeNodeRecursion::Stop),
            &mut transform_yes("f_up"),
        )?,
        Transformed::new(f_down_stop_on_e_transformed_tree(), true, TreeNodeRecursion::Stop)
    );

    Ok(())
}

#[test]
fn test_transform_f_up_stop_on_a() -> Outcome<()> {
    let tree = test_tree();
    assert_eq!(
        tree.transform_down_up(
            &mut transform_yes("f_down"),
            &mut transform_and_event_on("f_up", "f_down(a)", TreeNodeRecursion::Stop),
        )?,
        Transformed::new(f_up_stop_on_a_transformed_tree(), true, TreeNodeRecursion::Stop)
    );

    Ok(())
}

#[test]
fn test_transform_f_up_stop_on_e() -> Outcome<()> {
    let tree = test_tree();
    assert_eq!(
        tree.transform_down_up(
            &mut transform_yes("f_down"),
            &mut transform_and_event_on("f_up", "f_down(e)", TreeNodeRecursion::Stop),
        )?,
        Transformed::new(f_up_stop_on_e_transformed_tree(), true, TreeNodeRecursion::Stop)
    );

    Ok(())
}

#[test]
fn test_transform_down() -> Outcome<()> {
    let tree = test_tree();
    assert_eq!(
        tree.transform_down_mut(&mut transform_yes("f_down"))?,
        Transformed::yes(transformed_down_tree())
    );

    Ok(())
}

#[test]
fn test_transform_down_f_down_jump_on_a() -> Outcome<()> {
    let tree = test_tree();
    assert_eq!(
        tree.transform_down_mut(&mut transform_and_event_on("f_down", "a", TreeNodeRecursion::Jump))?,
        Transformed::yes(f_down_jump_on_a_transformed_down_tree())
    );

    Ok(())
}

#[test]
fn test_transform_down_f_down_jump_on_e() -> Outcome<()> {
    let tree = test_tree();
    assert_eq!(
        tree.transform_down_mut(&mut transform_and_event_on("f_down", "e", TreeNodeRecursion::Jump))?,
        Transformed::yes(f_down_jump_on_e_transformed_down_tree())
    );

    Ok(())
}

#[test]
fn test_transform_down_f_down_stop_on_a() -> Outcome<()> {
    let tree = test_tree();
    assert_eq!(
        tree.transform_down_mut(&mut transform_and_event_on("f_down", "a", TreeNodeRecursion::Stop))?,
        Transformed::new(f_down_stop_on_a_transformed_down_tree(), true, TreeNodeRecursion::Stop)
    );

    Ok(())
}

#[test]
fn test_transform_down_f_down_stop_on_e() -> Outcome<()> {
    let tree = test_tree();
    assert_eq!(
        tree.transform_down_mut(&mut transform_and_event_on("f_down", "e", TreeNodeRecursion::Stop))?,
        Transformed::new(f_down_stop_on_e_transformed_down_tree(), true, TreeNodeRecursion::Stop)
    );

    Ok(())
}

#[test]
fn test_transform_up() -> Outcome<()> {
    let tree = test_tree();
    assert_eq!(
        tree.transform_up_mut(&mut transform_yes("f_up"))?,
        Transformed::yes(transformed_up_tree())
    );

    Ok(())
}

#[test]
fn test_transform_up_f_up_jump_on_a() -> Outcome<()> {
    let tree = test_tree();
    assert_eq!(
        tree.transform_up_mut(&mut transform_and_event_on("f_up", "a", TreeNodeRecursion::Jump))?,
        Transformed::yes(f_up_jump_on_a_transformed_up_tree())
    );

    Ok(())
}

#[test]
fn test_transform_up_f_up_jump_on_e() -> Outcome<()> {
    let tree = test_tree();
    assert_eq!(
        tree.transform_up_mut(&mut transform_and_event_on("f_up", "e", TreeNodeRecursion::Jump))?,
        Transformed::yes(f_up_jump_on_e_transformed_up_tree())
    );

    Ok(())
}

#[test]
fn test_transform_up_f_up_stop_on_a() -> Outcome<()> {
    let tree = test_tree();
    assert_eq!(
        tree.transform_up_mut(&mut transform_and_event_on("f_up", "a", TreeNodeRecursion::Stop))?,
        Transformed::new(f_up_stop_on_a_transformed_up_tree(), true, TreeNodeRecursion::Stop)
    );

    Ok(())
}

#[test]
fn test_transform_up_f_up_stop_on_e() -> Outcome<()> {
    let tree = test_tree();
    assert_eq!(
        tree.transform_up_mut(&mut transform_and_event_on("f_up", "e", TreeNodeRecursion::Stop))?,
        Transformed::new(f_up_stop_on_e_transformed_up_tree(), true, TreeNodeRecursion::Stop)
    );

    Ok(())
}

// Renames as `transform_yes` does on the way down and on the way up, and
// keeps the names of the nodes in the order in which the callbacks ran.
struct RenamingRewriter {
    visits: Vec<String>,
}

impl TreeNodeRewriter for RenamingRewriter {
    type Node = TestTreeNode<String>;
    type State = ();

    fn state(&self) {}

    fn f_down_model(_: (), _: ()) -> ((), Result<Transformed<()>, Failure>) {
        unreachable!()
    }

    fn f_up_model(_: (), _: ()) -> ((), Result<Transformed<()>, Failure>) {
        unreachable!()
    }

    fn lemma_f_down_is_no_higher(_: (), _: ()) {}

    fn f_down(&mut self, node: Self::Node) -> Outcome<Transformed<Self::Node>> {
        self.visits.push(format!("f_down({})", node.data));
        Ok(Transformed::yes(TestTreeNode::new(node.children, format!("f_down({})", node.data))))
    }

    fn f_up(&mut self, node: Self::Node) -> Outcome<Transformed<Self::Node>> {
        let seen = node.data.strip_prefix("f_down(").and_then(|d| d.strip_suffix(")")).unwrap_or(&node.data);
        self.visits.push(format!("f_up({})", seen));
        Ok(Transformed::yes(TestTreeNode::new(node.children, format!("f_up({})", node.data))))
    }
}

#[test]
fn test_rewrite_visits() -> Outcome<()> {
    let tree = test_tree();
    let mut rewriter = RenamingRewriter { visits: vec![] };
    assert_eq!(tree.rewrite(&mut rewriter)?, Transformed::yes(transformed_tree()));
    assert_eq!(rewriter.visits, all_visits());

    Ok(())
}
