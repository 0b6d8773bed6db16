use al::cursor::Cursor;

#[test]
pub fn test_cursor_of_ints() {
    let input = vec![1, 2, 3];
    let mut c = Cursor::new(&input);
    assert_eq!(*c.peek().unwrap(), 1);
    assert_eq!(*c.get().unwrap(), 1);
    assert_eq!(*c.get().unwrap(), 2);
    assert_eq!(*c.get().unwrap(), 3);
    assert!(c.peek().is_none());
    assert!(c.get().is_none());
    c.rewind(); // Undo the get above
    c.rewind(); // Back to 3
    assert_eq!(*c.peek().unwrap(), 3);
    c.rewind();
    assert_eq!(*c.get().unwrap(), 2);
}

#[test]
fn cursor_advance_then_rewind_returns_to_the_same_item() {
    let input = vec![10u8, 20, 30];
    let mut c = Cursor::new(&input);
    c.advance();
    assert_eq!(*c.peek().unwrap(), 20);
    c.advance();
    c.rewind();
    assert_eq!(*c.peek().unwrap(), 20);
}

#[test]
fn cursor_over_empty_slice_finds_nothing() {
    let input: Vec<u8> = Vec::new();
    let mut c = Cursor::new(&input);
    assert!(c.peek().is_none());
    assert!(c.get().is_none());
    assert!(c.peek().is_none());
}
