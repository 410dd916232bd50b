use tree_node::transformed::after_earlier_change;
use tree_node::{Transformed, TransformedResult, TraversalError, TreeNodeRecursion};

type Outcome<T> = Result<T, TraversalError>;

fn failure() -> TraversalError {
    TraversalError::Callback("no".to_string())
}

#[test]
fn new_keeps_its_parts() {
    let t = Transformed::new(7u8, true, TreeNodeRecursion::Jump);
    assert_eq!(t.data, 7);
    assert!(t.transformed);
    assert_eq!(t.tnr, TreeNodeRecursion::Jump);
}

#[test]
fn yes_is_changed_and_continues() {
    assert_eq!(Transformed::yes(1u8), Transformed::new(1u8, true, TreeNodeRecursion::Continue));
}

#[test]
fn no_is_unchanged_and_continues() {
    assert_eq!(Transformed::no(1u8), Transformed::new(1u8, false, TreeNodeRecursion::Continue));
}

#[test]
fn update_data_keeps_flag_and_signal() {
    let t = Transformed::new(20u8, true, TreeNodeRecursion::Stop).update_data(|d| u32::from(d) + 1);
    assert_eq!(t, Transformed::new(21u32, true, TreeNodeRecursion::Stop));
    let t = Transformed::new(20u8, false, TreeNodeRecursion::Jump).update_data(|d| d.to_string());
    assert_eq!(t, Transformed::new("20".to_string(), false, TreeNodeRecursion::Jump));
}

#[test]
fn map_data_keeps_flag_and_signal() {
    let t = Transformed::new(20u8, true, TreeNodeRecursion::Jump).map_data(|d| Ok(u32::from(d) * 2));
    assert_eq!(t, Ok(Transformed::new(40u32, true, TreeNodeRecursion::Jump)));
}

#[test]
fn map_data_hands_on_the_failure() {
    let t: Outcome<Transformed<u8>> =
        Transformed::new(20u8, true, TreeNodeRecursion::Continue).map_data(|_| Err(failure()));
    assert_eq!(t, Err(failure()));
}

#[test]
fn try_transform_node_with_runs_on_continue() {
    let t = Transformed::new(1u8, false, TreeNodeRecursion::Continue)
        .try_transform_node_with(|d| Ok(Transformed::new(d + 1, true, TreeNodeRecursion::Jump)), TreeNodeRecursion::Stop);
    assert_eq!(t, Ok(Transformed::new(2u8, true, TreeNodeRecursion::Jump)));
}

#[test]
fn try_transform_node_with_keeps_an_earlier_change() {
    let t = Transformed::new(1u8, true, TreeNodeRecursion::Continue)
        .try_transform_node_with(|d| Ok(Transformed::no(d + 1)), TreeNodeRecursion::Jump);
    assert_eq!(t, Ok(Transformed::new(2u8, true, TreeNodeRecursion::Continue)));
}

#[test]
fn try_transform_node_with_sets_the_given_signal_on_jump() {
    let mut ran = false;
    let t = Transformed::new(1u8, true, TreeNodeRecursion::Jump).try_transform_node_with(
        |d| {
            ran = true;
            Ok(Transformed::yes(d + 1))
        },
        TreeNodeRecursion::Continue,
    );
    assert_eq!(t, Ok(Transformed::new(1u8, true, TreeNodeRecursion::Continue)));
    assert!(!ran);
    let t = Transformed::new(1u8, false, TreeNodeRecursion::Jump)
        .try_transform_node_with(|d| Ok(Transformed::yes(d + 1)), TreeNodeRecursion::Jump);
    assert_eq!(t, Ok(Transformed::new(1u8, false, TreeNodeRecursion::Jump)));
}

#[test]
fn try_transform_node_with_does_nothing_on_stop() {
    let mut ran = false;
    let t = Transformed::new(1u8, true, TreeNodeRecursion::Stop).try_transform_node_with(
        |d| {
            ran = true;
            Ok(Transformed::no(d + 1))
        },
        TreeNodeRecursion::Continue,
    );
    assert_eq!(t, Ok(Transformed::new(1u8, true, TreeNodeRecursion::Stop)));
    assert!(!ran);
}

#[test]
fn try_transform_node_with_hands_on_the_failure() {
    let t = Transformed::new(1u8, true, TreeNodeRecursion::Continue)
        .try_transform_node_with(|_| Err(failure()), TreeNodeRecursion::Jump);
    assert_eq!(t, Err(failure()));
}

#[test]
fn try_transform_node_runs_on_continue_and_on_jump() {
    let t = Transformed::new(1u8, false, TreeNodeRecursion::Continue)
        .try_transform_node(|d| Ok(Transformed::yes(d + 1)));
    assert_eq!(t, Ok(Transformed::new(2u8, true, TreeNodeRecursion::Continue)));
    let t = Transformed::new(1u8, true, TreeNodeRecursion::Jump)
        .try_transform_node(|d| Ok(Transformed::new(d + 1, false, TreeNodeRecursion::Stop)));
    assert_eq!(t, Ok(Transformed::new(2u8, true, TreeNodeRecursion::Stop)));
}

#[test]
fn try_transform_node_does_nothing_on_stop() {
    let mut ran = false;
    let t = Transformed::new(1u8, false, TreeNodeRecursion::Stop).try_transform_node(|d| {
        ran = true;
        Ok(Transformed::yes(d + 1))
    });
    assert_eq!(t, Ok(Transformed::new(1u8, false, TreeNodeRecursion::Stop)));
    assert!(!ran);
}

#[test]
fn try_transform_node_hands_on_the_failure() {
    let t = Transformed::new(1u8, true, TreeNodeRecursion::Jump).try_transform_node(|_| Err(failure()));
    assert_eq!(t, Err(failure()));
}

#[test]
fn after_earlier_change_never_takes_the_flag_back() {
    let out: Outcome<Transformed<u8>> = Ok(Transformed::new(3, false, TreeNodeRecursion::Jump));
    assert_eq!(after_earlier_change(true, out), Ok(Transformed::new(3, true, TreeNodeRecursion::Jump)));
    let out: Outcome<Transformed<u8>> = Ok(Transformed::new(3, false, TreeNodeRecursion::Stop));
    assert_eq!(after_earlier_change(false, out), Ok(Transformed::new(3, false, TreeNodeRecursion::Stop)));
    let out: Outcome<Transformed<u8>> = Ok(Transformed::new(3, true, TreeNodeRecursion::Continue));
    assert_eq!(after_earlier_change(false, out), Ok(Transformed::yes(3)));
    let out: Outcome<Transformed<u8>> = Err(failure());
    assert_eq!(after_earlier_change(true, out), Err(failure()));
}

#[test]
fn result_parts_of_a_success() {
    let made = || -> Outcome<Transformed<u8>> { Ok(Transformed::new(9, true, TreeNodeRecursion::Jump)) };
    assert_eq!(made().data(), Ok(9));
    assert_eq!(made().transformed(), Ok(true));
    assert_eq!(made().tnr(), Ok(TreeNodeRecursion::Jump));
}

#[test]
fn result_parts_of_a_failure() {
    let failed = || -> Outcome<Transformed<u8>> { Err(TraversalError::Internal("bad".to_string())) };
    assert_eq!(failed().data(), Err(TraversalError::Internal("bad".to_string())));
    assert_eq!(failed().transformed(), Err(TraversalError::Internal("bad".to_string())));
    assert_eq!(failed().tnr(), Err(TraversalError::Internal("bad".to_string())));
}
