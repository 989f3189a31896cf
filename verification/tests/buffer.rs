use awildtxt::buffer::Buffer;

#[test]
fn a_new_buffer_has_no_path_and_no_text() {
    let mut buffer = Buffer::new();
    assert!(buffer.path.is_none());
    assert_eq!(buffer.pt.read(), "");
    assert!(buffer.pt.insert("a", 0));
    assert_eq!(buffer.pt.read(), "a");
}

#[test]
fn a_loaded_buffer_holds_the_path_and_the_content() {
    let buffer = Buffer::from("notes.txt", String::from("Hello World"));
    assert_eq!(buffer.path.as_deref(), Some("notes.txt"));
    assert_eq!(buffer.pt.read(), "Hello World");
    assert_eq!(buffer.pt.pieces().len(), 1);
}
