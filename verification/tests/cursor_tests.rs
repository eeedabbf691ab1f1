use steel_lexer::cursor::PeekBuffer;

#[test]
fn peek_does_not_advance() {
    let buf = PeekBuffer::new(vec![1u32, 2, 3]);
    assert_eq!(buf.peek(), Some(1));
    assert_eq!(buf.peek(), Some(1));
    assert_eq!(buf.peek_at(2), Some(3));
    assert_eq!(buf.peek_at(3), None);
}

#[test]
fn peek_many_all_or_nothing() {
    let buf = PeekBuffer::new(vec![10u32, 20, 30]);
    assert_eq!(buf.peek_many(3), Some(vec![10, 20, 30]));
    // Fewer than n elements remain: nothing, and the cursor unchanged.
    assert_eq!(buf.peek_many(4), None);
    assert_eq!(buf.peek(), Some(10));
}

#[test]
fn peek_many_stepping_strides() {
    let buf = PeekBuffer::new(vec![0u32, 1, 2, 3, 4, 5]);
    assert_eq!(buf.peek_many_stepping(3, 2), Some(vec![0, 2, 4]));
    assert_eq!(buf.peek_many_stepping(4, 2), None);
    assert_eq!(buf.peek_many_stepping(2, 0), None);
}

#[test]
fn peek_behind_after_advance() {
    let mut buf = PeekBuffer::new(vec![7u32, 8, 9]);
    assert_eq!(buf.peek_behind(), None);
    buf.advance();
    buf.advance();
    assert_eq!(buf.peek_behind(), Some(8));
    assert_eq!(buf.peek_behind_many(2), Some(vec![7, 8]));
    assert_eq!(buf.peek_behind_many(3), None);
}

#[test]
fn advance_saturates_and_rewind_saturates() {
    let mut buf = PeekBuffer::new(vec![1u32, 2]);
    buf.advance_by(10);
    assert_eq!(buf.peek(), None);
    buf.rewind_by(100);
    assert_eq!(buf.peek(), Some(1));
    buf.advance_to_end();
    assert_eq!(buf.peek(), None);
    buf.rewind_to_beginning();
    assert_eq!(buf.peek(), Some(1));
    buf.advance_to(1);
    assert_eq!(buf.peek(), Some(2));
    buf.rewind_to(0);
    assert_eq!(buf.peek(), Some(1));
}

#[test]
fn eat_moves_elements_to_history() {
    let mut buf = PeekBuffer::new(vec![1u32, 2, 3]);
    assert_eq!(buf.eat(), Some(1));
    assert_eq!(buf.eat(), Some(2));
    assert_eq!(buf.peek(), Some(3));
    assert_eq!(buf.eat(), Some(3));
    assert_eq!(buf.eat(), None);
}

#[test]
fn eat_many_is_atomic() {
    let mut buf = PeekBuffer::new(vec![1u32, 2, 3]);
    // A failed batch eat consumes nothing at all.
    assert_eq!(buf.eat_many(4), None);
    assert_eq!(buf.eat_many(2), Some(vec![1, 2]));
    assert_eq!(buf.peek(), Some(3));
}

#[test]
fn eat_many_stepping_strides() {
    let mut buf = PeekBuffer::new(vec![0u32, 1, 2, 3, 4, 5]);
    assert_eq!(buf.eat_many_stepping(3, 2), Some(vec![0, 2, 4]));
    // The skipped elements stay live, in order.
    assert_eq!(buf.eat(), Some(1));
    assert_eq!(buf.eat(), Some(3));
    assert_eq!(buf.eat(), Some(5));
    assert_eq!(buf.eat(), None);
}

#[test]
fn restore_undoes_eat() {
    // Cursor undo: n consumed elements followed by n restores leave the
    // live sequence and index as they were.
    let mut buf = PeekBuffer::new(vec![1u32, 2, 3, 4]);
    assert_eq!(buf.eat(), Some(1));
    assert_eq!(buf.eat(), Some(2));
    assert_eq!(buf.eat(), Some(3));
    assert_eq!(buf.restore(), Some(3));
    assert_eq!(buf.restore(), Some(2));
    assert_eq!(buf.restore(), Some(1));
    assert_eq!(buf.peek_many(4), Some(vec![1, 2, 3, 4]));
    assert_eq!(buf.peek(), Some(1));
}

#[test]
fn restore_many_restores_prior_order() {
    let mut buf = PeekBuffer::new(vec![1u32, 2, 3, 4]);
    assert_eq!(buf.eat_many(3), Some(vec![1, 2, 3]));
    // Returned in pop order, re-inserted in exact prior order.
    assert_eq!(buf.restore_many(3), Some(vec![3, 2, 1]));
    assert_eq!(buf.peek_many(4), Some(vec![1, 2, 3, 4]));
    assert_eq!(buf.restore_many(1), None);
}

#[test]
fn restore_many_stepping_strides() {
    let mut buf = PeekBuffer::new(vec![1u32, 2, 3, 4, 5]);
    assert_eq!(buf.eat_many(3), Some(vec![1, 2, 3]));
    // The chunk goes back in prior order, strided two apart: 1 at the
    // cursor, 2 two further right, 3 two further still.
    assert_eq!(buf.restore_many_stepping(3, 2), Some(vec![3, 2, 1]));
    assert_eq!(buf.peek_many(5), Some(vec![1, 4, 2, 5, 3]));
    // A stride of 0 restores nothing and changes nothing.
    let mut buf = PeekBuffer::new(vec![1u32, 2]);
    buf.eat();
    assert_eq!(buf.restore_many_stepping(1, 0), None);
    assert_eq!(buf.peek(), Some(2));
    // A stride of 1 is a plain batch restore.
    assert_eq!(buf.restore_many_stepping(1, 1), Some(vec![1]));
    assert_eq!(buf.peek_many(2), Some(vec![1, 2]));
}

#[test]
fn restore_without_history_fails() {
    let mut buf = PeekBuffer::new(vec![1u32]);
    assert_eq!(buf.restore(), None);
    buf.eat();
    buf.clear_history();
    assert_eq!(buf.restore(), None);
}

#[test]
fn clear_resets() {
    let mut buf = PeekBuffer::new(vec![1u32, 2]);
    buf.eat();
    buf.clear_data();
    assert_eq!(buf.peek(), None);
    // The history was kept by clear_data: restoring is still possible.
    assert_eq!(buf.restore(), Some(1));
    assert_eq!(buf.peek(), Some(1));
    buf.clear();
    assert_eq!(buf.peek(), None);
    assert_eq!(buf.restore(), None);
}

#[test]
fn acts_as_one_pass_sequence() {
    let mut buf = PeekBuffer::new(vec!['x', 'y']);
    let mut collected = Vec::new();
    while let Some(c) = buf.eat() {
        collected.push(c);
    }
    assert_eq!(collected, vec!['x', 'y']);
}
