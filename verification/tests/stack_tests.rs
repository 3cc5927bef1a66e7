use std::collections::hash_map::DefaultHasher;
use std::hash::{Hash, Hasher};

use py_checked_exceptions::call_stack::CallStack;
use py_checked_exceptions::capture_stack::ExceptionCaptureStack;
use py_checked_exceptions::Exception;

fn frame(file: &str, function: &str) -> (String, String) {
    (file.to_string(), function.to_string())
}

fn class(name: &str, bases: Vec<Exception>) -> Exception {
    Exception::new(name.to_string(), bases)
}

fn exception() -> Exception {
    class("Exception", vec![Exception::base_exception()])
}

fn value_error() -> Exception {
    class("ValueError", vec![exception()])
}

fn key_error() -> Exception {
    class("KeyError", vec![class("LookupError", vec![exception()])])
}

#[test]
fn a_new_call_stack_contains_nothing() {
    let stack = CallStack::new();
    assert!(!stack.contains(&frame("a.py", "f")));
}

#[test]
fn push_leaves_the_receiver_as_it_was() {
    let empty = CallStack::new();
    let one = empty.push(frame("a.py", "f"));
    let two = one.push(frame("b.py", "g"));
    assert!(!empty.contains(&frame("a.py", "f")));
    assert!(one.contains(&frame("a.py", "f")));
    assert!(!one.contains(&frame("b.py", "g")));
    assert!(two.contains(&frame("a.py", "f")));
    assert!(two.contains(&frame("b.py", "g")));
}

#[test]
fn a_frame_is_a_file_and_a_function() {
    let stack = CallStack::new().push(frame("a.py", "f"));
    assert!(!stack.contains(&frame("a.py", "g")));
    assert!(!stack.contains(&frame("b.py", "f")));
}

#[test]
fn all_call_stacks_compare_equal() {
    let empty = CallStack::new();
    let one = empty.push(frame("a.py", "f"));
    assert!(empty == one);
    assert!(one == one.push(frame("b.py", "g")));
}

fn hash_of(stack: &CallStack) -> u64 {
    let mut hasher = DefaultHasher::new();
    stack.hash(&mut hasher);
    hasher.finish()
}

#[test]
fn all_call_stacks_hash_alike() {
    let empty = CallStack::new();
    let one = empty.push(frame("a.py", "f"));
    let two = one.push(frame("b.py", "g"));
    assert_eq!(hash_of(&empty), hash_of(&one));
    assert_eq!(hash_of(&one), hash_of(&two));
    assert_eq!(hash_of(&empty), DefaultHasher::new().finish());
}

#[test]
fn a_new_capture_stack_captures_nothing() {
    let stack = ExceptionCaptureStack::new();
    assert!(!stack.is_captured(&value_error()));
    assert!(!stack.in_handler());
    assert!(stack.get_current_handler_exceptions().is_none());
}

#[test]
fn capture_follows_the_class_hierarchy() {
    let stack = ExceptionCaptureStack::new().push(vec![exception()]);
    assert!(stack.is_captured(&value_error()));
    assert!(stack.is_captured(&key_error()));
    assert!(stack.is_captured(&exception()));
    assert!(!stack.is_captured(&Exception::base_exception()));
}

#[test]
fn a_sibling_is_not_captured() {
    let stack = ExceptionCaptureStack::new().push(vec![value_error()]);
    assert!(stack.is_captured(&value_error()));
    assert!(!stack.is_captured(&key_error()));
    assert!(!stack.is_captured(&exception()));
}

#[test]
fn the_root_captures_everything() {
    let stack = ExceptionCaptureStack::new().push(vec![Exception::base_exception()]);
    assert!(stack.is_captured(&value_error()));
    assert!(stack.is_captured(&class("Unrelated", vec![])));
}

#[test]
fn any_frame_of_the_stack_may_capture() {
    let stack = ExceptionCaptureStack::new().push(vec![value_error()]).push(vec![key_error()]);
    assert!(stack.is_captured(&value_error()));
    assert!(stack.is_captured(&key_error()));
    let popped = stack.pop();
    assert!(popped.is_captured(&value_error()));
    assert!(!popped.is_captured(&key_error()));
    assert!(stack.is_captured(&key_error()));
}

#[test]
fn pop_of_an_empty_stack_is_empty() {
    let stack = ExceptionCaptureStack::new().pop().pop_handler_exceptions();
    assert!(stack.try_captures.is_empty());
    assert!(stack.handler_captures.is_empty());
}

#[test]
fn handlers_do_not_capture() {
    let stack = ExceptionCaptureStack::new().push_handler_exceptions(vec![value_error()]);
    assert!(!stack.is_captured(&value_error()));
    assert!(stack.in_handler());
}

#[test]
fn the_current_handler_is_the_innermost() {
    let outer = ExceptionCaptureStack::new().push_handler_exceptions(vec![value_error()]);
    let inner = outer.push_handler_exceptions(vec![key_error(), exception()]);
    let current = inner.get_current_handler_exceptions().unwrap();
    assert_eq!(current.len(), 2);
    assert!(current[0] == key_error());
    assert!(current[1] == exception());
    let back = inner.pop_handler_exceptions();
    let current = back.get_current_handler_exceptions().unwrap();
    assert_eq!(current.len(), 1);
    assert!(current[0] == value_error());
    assert!(!back.pop_handler_exceptions().in_handler());
}

#[test]
fn in_handler_means_a_handler_is_on_the_stack() {
    let mut stack = ExceptionCaptureStack::new();
    for step in 0..4 {
        assert_eq!(stack.in_handler(), !stack.handler_captures.is_empty());
        assert_eq!(stack.in_handler(), step > 0);
        stack = stack.push_handler_exceptions(vec![]);
    }
}
