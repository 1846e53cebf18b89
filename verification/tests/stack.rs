use scarlet::stack::Stack;

#[test]
fn stack_starts_empty() {
    let stack: Stack<u32> = Stack::new();
    assert!(!stack.contains(&3));
    assert_eq!(stack.frames().len(), 0);
}

#[test]
fn frame_is_pushed_for_the_call_and_popped_after() {
    let mut stack: Stack<u32> = Stack::new();
    let r = stack.with_stack_frame(1, |s| {
        let inner = s.with_stack_frame(2, |t| {
            assert_eq!(t.frames(), &[1, 2]);
            t.contains(&2)
        });
        assert_eq!(s.frames(), &[1]);
        (inner, s.contains(&1), s.contains(&2))
    });
    assert_eq!(r, (true, true, false));
    assert_eq!(stack.frames().len(), 0);
}
