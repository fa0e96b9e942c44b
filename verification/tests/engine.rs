//! End-to-end tests of the array engine: pervasive operations, the
//! looping modifiers, and partition/group with their inverses.

use uiua_core::array::{Array, ArrayType, Data};
use uiua_core::env::{Function, Uiua};
use uiua_core::error::{StackRole, UiuaError};
use uiua_core::loops::{
    do_, group, partition, repeat, unpartition_part1, unpartition_part2, INFINITY,
};
use uiua_core::pervade::{pervade, PervasiveOp};

fn nums(v: Vec<i64>) -> Array {
    Array::from_nums(v)
}

fn shaped(shape: Vec<usize>, data: Vec<i64>) -> Array {
    Array { shape, data: Data::Num(data) }
}

#[test]
fn pervade_broadcast_prefix() {
    let a = shaped(vec![2, 3], vec![1, 2, 3, 4, 5, 6]);
    let b = nums(vec![10, 20]);
    let r = pervade(PervasiveOp::Add, &a, &b).unwrap();
    assert!(r.array_eq(&shaped(vec![2, 3], vec![11, 22, 13, 24, 15, 26])));
}

#[test]
fn pervade_cyclic_indexing() {
    let a = nums(vec![1, 2, 3, 4, 5, 6]);
    let b = Array::from_num(10);
    let r = pervade(PervasiveOp::Mul, &a, &b).unwrap();
    assert!(r.array_eq(&nums(vec![10, 20, 30, 40, 50, 60])));
}

#[test]
fn pervade_shape_mismatch() {
    let a = nums(vec![1, 2]);
    let b = nums(vec![1, 2, 3]);
    assert!(matches!(pervade(PervasiveOp::Add, &a, &b), Err(UiuaError::ShapeMismatch)));
}

#[test]
fn pervade_type_table() {
    let a = Array::from_char('h');
    let b = Array::from_char('i');
    // add is not defined for character pairs
    assert!(matches!(
        pervade(PervasiveOp::Add, &a, &b),
        Err(UiuaError::TypeMismatch(ArrayType::Char, ArrayType::Char))
    ));
    // comparisons are
    let r = pervade(PervasiveOp::Lt, &a, &b).unwrap();
    assert!(r.array_eq(&Array::from_num(1)));
}

#[test]
fn pervade_char_offset() {
    let a = Array::from_char('a');
    let b = Array::from_num(2);
    let r = pervade(PervasiveOp::Add, &b, &a).unwrap();
    assert!(r.array_eq(&Array::from_char('c')));
}

#[test]
fn repeat_zero_leaves_stack() {
    let mut env = Uiua::new();
    env.push(Array::from_num(7));
    env.push(Array::from_num(0));
    env.push_function(Function::WithConstRight(PervasiveOp::Add, Array::from_num(1)));
    repeat(&mut env).unwrap();
    assert_eq!(env.stack.len(), 1);
    assert!(env.stack[0].array_eq(&Array::from_num(7)));
}

#[test]
fn repeat_applies_n_times() {
    let mut env = Uiua::new();
    env.push(Array::from_num(0));
    env.push(Array::from_num(5));
    env.push_function(Function::WithConstRight(PervasiveOp::Add, Array::from_num(1)));
    repeat(&mut env).unwrap();
    assert!(env.stack[0].array_eq(&Array::from_num(5)));
}

#[test]
fn repeat_negative_count() {
    let mut env = Uiua::new();
    env.push(Array::from_num(0));
    env.push(Array::from_num(-3));
    env.push_function(Function::Identity);
    assert_eq!(repeat(&mut env), Err(UiuaError::DomainError));
}

#[test]
fn repeat_fixpoint_converges() {
    let mut env = Uiua::new();
    env.push(Array::from_num(5));
    env.push(Array::from_num(INFINITY));
    env.push_function(Function::WithConstRight(PervasiveOp::Mul, Array::from_num(0)));
    repeat(&mut env).unwrap();
    assert_eq!(env.stack.len(), 1);
    assert!(env.stack[0].array_eq(&Array::from_num(0)));
}

#[test]
fn repeat_fixpoint_needs_argument() {
    // a function taking no arguments fails before any call
    let mut env = Uiua::new();
    env.push(Array::from_num(5));
    env.push(Array::from_num(INFINITY));
    env.push_function(Function::PushConst(Array::from_num(1)));
    let r = repeat(&mut env);
    assert_eq!(
        r,
        Err(UiuaError::SignatureError(
            Function::PushConst(Array::from_num(1)).signature()
        ))
    );
    // the initial value was never consumed
    assert_eq!(env.stack.len(), 1);
    assert!(env.stack[0].array_eq(&Array::from_num(5)));
}

#[test]
fn do_loop_counts_to_ten() {
    let mut env = Uiua::new();
    env.push(Array::from_num(0));
    // condition: duplicate-tested value below 10
    env.push_function(Function::WithConstRight(PervasiveOp::Lt, Array::from_num(10)));
    // body: increment
    env.push_function(Function::WithConstRight(PervasiveOp::Add, Array::from_num(1)));
    do_(&mut env).unwrap();
    assert_eq!(env.stack.len(), 1);
    assert!(env.stack[0].array_eq(&Array::from_num(10)));
}

#[test]
fn do_loop_condition_needs_output() {
    let mut env = Uiua::new();
    env.push(Array::from_num(0));
    env.push_function(Function::Pop);
    env.push_function(Function::Identity);
    let r = do_(&mut env);
    assert_eq!(r, Err(UiuaError::SignatureError(Function::Pop.signature())));
}

#[test]
fn partition_identity_groups() {
    let mut env = Uiua::new();
    env.push(nums(vec![10, 20, 30, 40, 50]));
    env.push(nums(vec![1, 1, 0, 2, 2]));
    env.push_function(Function::Identity);
    partition(&mut env).unwrap();
    assert_eq!(env.stack.len(), 1);
    assert!(env.stack[0].array_eq(&shaped(vec![2, 2], vec![10, 20, 40, 50])));
}

#[test]
fn partition_negate_groups() {
    let mut env = Uiua::new();
    env.push(nums(vec![10, 20, 30, 40, 50]));
    env.push(nums(vec![1, 1, 0, 2, 2]));
    env.push_function(Function::WithConstLeft(PervasiveOp::Sub, Array::from_num(0)));
    partition(&mut env).unwrap();
    assert!(env.stack[0].array_eq(&shaped(vec![2, 2], vec![-10, -20, -40, -50])));
}

#[test]
fn partition_reduce_form() {
    // fold the groups with addition: [10,20] + [40,50] = [50,70]
    let mut env = Uiua::new();
    env.push(nums(vec![10, 20, 30, 40, 50]));
    env.push(nums(vec![1, 1, 0, 2, 2]));
    env.push_function(Function::BinOp(PervasiveOp::Add));
    partition(&mut env).unwrap();
    assert_eq!(env.stack.len(), 1);
    assert!(env.stack[0].array_eq(&nums(vec![50, 70])));
}

#[test]
fn partition_no_groups_without_fill() {
    let mut env = Uiua::new();
    env.push(nums(vec![1, 2]));
    env.push(nums(vec![0, 0]));
    env.push_function(Function::BinOp(PervasiveOp::Add));
    assert_eq!(partition(&mut env), Err(UiuaError::DomainError));
}

#[test]
fn partition_reduce_with_fill() {
    let mut env = Uiua::new();
    env.set_fill(Some(nums(vec![1, 1])));
    env.push(nums(vec![10, 20, 30, 40, 50]));
    env.push(nums(vec![1, 1, 0, 2, 2]));
    env.push_function(Function::BinOp(PervasiveOp::Add));
    partition(&mut env).unwrap();
    assert!(env.stack[0].array_eq(&nums(vec![51, 71])));
    // the fill value is restored after masking
    assert!(env.fill.as_ref().unwrap().array_eq(&nums(vec![1, 1])));
}

#[test]
fn partition_marker_runs_split_groups() {
    // equal markers separated by a different marker form separate groups
    let values = nums(vec![1, 2, 3, 4, 5, 6]);
    let markers: Vec<i64> = vec![1, 1, 2, 2, 1, 1];
    let gs = values.partition_groups(&markers).unwrap();
    assert_eq!(gs.len(), 3);
    assert!(gs[0].array_eq(&nums(vec![1, 2])));
    assert!(gs[1].array_eq(&nums(vec![3, 4])));
    assert!(gs[2].array_eq(&nums(vec![5, 6])));
}

#[test]
fn partition_marker_length_mismatch() {
    let values = nums(vec![1, 2, 3]);
    let markers: Vec<i64> = vec![1, 1];
    assert!(matches!(values.partition_groups(&markers), Err(UiuaError::ShapeMismatch)));
}

#[test]
fn group_assigns_by_index() {
    let values = Array::from_chars(vec!['a', 'b', 'c', 'd']);
    let indices = nums(vec![0, 1, 0, 2]);
    let gs = values.group_groups(&indices).unwrap();
    assert_eq!(gs.len(), 3);
    assert!(gs[0].array_eq(&Array::from_chars(vec!['a', 'c'])));
    assert!(gs[1].array_eq(&Array::from_chars(vec!['b'])));
    assert!(gs[2].array_eq(&Array::from_chars(vec!['d'])));
}

#[test]
fn group_drops_negative_indices() {
    let values = nums(vec![10, 20, 30]);
    let indices = nums(vec![-1, 0, -1]);
    let gs = values.group_groups(&indices).unwrap();
    assert_eq!(gs.len(), 1);
    assert!(gs[0].array_eq(&nums(vec![20])));
}

#[test]
fn group_map_form() {
    let mut env = Uiua::new();
    env.push(nums(vec![10, 20, 30, 40]));
    env.push(nums(vec![0, 1, 0, 1]));
    env.push_function(Function::Identity);
    group(&mut env).unwrap();
    assert!(env.stack[0].array_eq(&shaped(vec![2, 2], vec![10, 30, 20, 40])));
}

#[test]
fn unpartition_round_trip() {
    // partition with identity, then undo: the original comes back
    let original = nums(vec![10, 20, 30, 40, 50]);
    let markers = nums(vec![1, 1, 0, 2, 2]);
    let mut env = Uiua::new();
    env.push(original.duplicate());
    env.push(markers.duplicate());
    env.push(original.duplicate());
    env.push(markers.duplicate());
    env.push_function(Function::Identity);
    partition(&mut env).unwrap();
    // stack: original, markers, partitioned
    env.push_function(Function::Identity);
    unpartition_part1(&mut env).unwrap();
    unpartition_part2(&mut env).unwrap();
    assert_eq!(env.stack.len(), 1);
    assert!(env.stack[0].array_eq(&original));
}

#[test]
fn unpartition_row_count_mismatch() {
    let mut env = Uiua::new();
    env.push(nums(vec![1, 2, 3]));
    env.push(nums(vec![1, 0, 1]));
    // a boxed list with only one group where two survived
    env.push(shaped(vec![1, 1], vec![9]));
    env.push_function(Function::Identity);
    unpartition_part1(&mut env).unwrap();
    assert_eq!(unpartition_part2(&mut env), Err(UiuaError::ConsistencyError));
}

#[test]
fn boxes_of_uniform_scalars_normalize() {
    let b = Array::from_boxes(vec![Array::from_char('h'), Array::from_char('i')]);
    assert!(b.array_eq(&Array::from_chars(vec!['h', 'i'])));
    let n = Array::from_boxes(vec![Array::from_num(1), Array::from_num(2)]);
    assert!(n.array_eq(&nums(vec![1, 2])));
}

#[test]
fn pervade_boxed_unwraps_and_rewraps() {
    // a boxed list against a flat scalar: each box is unwrapped, the
    // operation applied inside, and the result boxed again
    let a = Array::from_boxes(vec![nums(vec![1, 2]), nums(vec![10, 20, 30])]);
    let b = Array::from_num(5);
    let r = pervade(PervasiveOp::Add, &a, &b).unwrap();
    let expected = Array::from_boxes(vec![nums(vec![6, 7]), nums(vec![15, 25, 35])]);
    assert!(r.array_eq(&expected));
}

#[test]
fn pervade_boxed_pairs() {
    let a = Array::from_boxes(vec![nums(vec![1, 2])]);
    let b = Array::from_boxes(vec![nums(vec![10, 20])]);
    let r = pervade(PervasiveOp::Add, &a, &b).unwrap();
    assert!(r.array_eq(&Array::from_boxes(vec![nums(vec![11, 22])])));
}

#[test]
fn pervade_boxed_inner_type_error() {
    // the type tables still apply inside the boxes
    let a = Array::from_boxes(vec![Array::from_chars(vec!['h', 'i'])]);
    let b = Array::from_boxes(vec![Array::from_chars(vec!['y', 'z'])]);
    assert!(matches!(
        pervade(PervasiveOp::Add, &a, &b),
        Err(UiuaError::TypeMismatch(ArrayType::Char, ArrayType::Char))
    ));
}

#[test]
fn group_boxing_keeps_unequal_groups() {
    // boxing each group makes the three unequal groups one value
    let mut env = Uiua::new();
    env.push(Array::from_chars(vec!['a', 'b', 'c', 'd']));
    env.push(nums(vec![0, 1, 0, 2]));
    env.push_function(Function::Boxed);
    group(&mut env).unwrap();
    assert_eq!(env.stack.len(), 1);
    let expected = Array::from_boxes(vec![
        Array::from_chars(vec!['a', 'c']),
        Array::from_chars(vec!['b']),
        Array::from_chars(vec!['d']),
    ]);
    assert!(env.stack[0].array_eq(&expected));
}

#[test]
fn deshape_flattens() {
    let mut a = shaped(vec![2, 3], vec![1, 2, 3, 4, 5, 6]);
    a.deshape();
    assert!(a.array_eq(&nums(vec![1, 2, 3, 4, 5, 6])));
}

#[test]
fn reshape_truncates_and_pads() {
    let mut a = shaped(vec![2, 3], vec![1, 2, 3, 4, 5, 6]);
    a.reshape(vec![2, 2]);
    assert!(a.array_eq(&shaped(vec![2, 2], vec![1, 2, 3, 4])));
    a.reshape(vec![6]);
    assert!(a.array_eq(&nums(vec![1, 2, 3, 4, 0, 0])));
}

#[test]
fn range_counts_up() {
    let r = Array::range(5);
    assert!(r.array_eq(&nums(vec![0, 1, 2, 3, 4])));
    assert!(Array::range(0).array_eq(&nums(vec![])));
}

#[test]
fn error_messages_name_the_failure() {
    assert!(!UiuaError::DomainError.message().is_empty());
    assert_eq!(UiuaError::ShapeMismatch.message(), "shapes are not prefix-compatible");
}

#[test]
fn stack_underflow_carries_role() {
    let mut env = Uiua::new();
    assert_eq!(
        repeat(&mut env),
        Err(UiuaError::StackUnderflow(StackRole::Function))
    );
    env.push_function(Function::Identity);
    assert_eq!(
        repeat(&mut env),
        Err(UiuaError::StackUnderflow(StackRole::RepetitionCount))
    );
}
