use awildtxt::editor::{Action, Editor, Event};

fn typed(text: &str) -> Event {
    Event::TextInput(String::from(text))
}

fn run(editor: &mut Editor, event: Event) -> Action {
    let content = editor.buffer.pt.read();
    editor.step(&content, event).unwrap()
}

fn editing(text: &str) -> Editor {
    let mut editor = Editor::new((10, 20));
    assert_eq!(run(&mut editor, Event::KeyI), Action::StartTextInput);
    assert_eq!(run(&mut editor, typed(text)), Action::Nothing);
    editor
}

#[test]
fn a_new_session_is_empty_and_in_normal_mode() {
    let editor = Editor::new((10, 20));
    assert_eq!(editor.cursor.index, 0);
    assert_eq!(editor.cursor.font_size, (10, 20));
    assert!(editor.buffer.path.is_none());
    assert_eq!(editor.buffer.pt.read(), "");
    assert!(!editor.render_file_path_input);
    assert!(!editor.text_input_active);
    assert_eq!(editor.mode_label(), "normal");
}

#[test]
fn quit_asks_to_leave() {
    let mut editor = Editor::new((10, 20));
    assert_eq!(run(&mut editor, Event::Quit), Action::Quit);
}

#[test]
fn i_switches_text_input_on_and_escape_off() {
    let mut editor = Editor::new((10, 20));
    assert_eq!(run(&mut editor, Event::Escape), Action::Nothing);
    assert_eq!(run(&mut editor, Event::KeyI), Action::StartTextInput);
    assert!(editor.text_input_active);
    assert_eq!(editor.mode_label(), "insert");
    assert_eq!(run(&mut editor, Event::KeyI), Action::Nothing);
    assert_eq!(run(&mut editor, Event::Escape), Action::StopTextInput);
    assert!(!editor.text_input_active);
}

#[test]
fn typed_text_goes_in_at_the_cursor() {
    let mut editor = editing("Hello");
    assert_eq!(editor.cursor.index, 5);
    assert_eq!(editor.buffer.pt.read(), "Hello");
    editor.cursor.index = 2;
    assert_eq!(run(&mut editor, typed("xy")), Action::Nothing);
    assert_eq!(editor.buffer.pt.read(), "Hexyllo");
    assert_eq!(editor.cursor.index, 4);
}

#[test]
fn typed_text_past_the_end_is_rejected() {
    let mut editor = editing("Hello");
    editor.cursor.index = 9;
    assert_eq!(run(&mut editor, typed("x")), Action::Rejected);
    assert_eq!(editor.buffer.pt.read(), "Hello");
    assert_eq!(editor.cursor.index, 9);
}

#[test]
fn return_inserts_a_newline_in_text_input() {
    let mut editor = editing("ab");
    editor.cursor.index = 1;
    assert_eq!(run(&mut editor, Event::Return), Action::Nothing);
    assert_eq!(editor.buffer.pt.read(), "a\nb");
    assert_eq!(editor.cursor.index, 2);
    assert_eq!(run(&mut editor, Event::Escape), Action::StopTextInput);
    assert_eq!(run(&mut editor, Event::Return), Action::Nothing);
    assert_eq!(editor.buffer.pt.read(), "a\nb");
}

#[test]
fn backspace_deletes_before_the_cursor_in_text_input() {
    let mut editor = editing("Hello");
    assert_eq!(run(&mut editor, Event::Backspace), Action::Nothing);
    assert_eq!(editor.buffer.pt.read(), "Hell");
    assert_eq!(editor.cursor.index, 4);
    editor.cursor.index = 0;
    assert_eq!(run(&mut editor, Event::Backspace), Action::Nothing);
    assert_eq!(editor.buffer.pt.read(), "Hell");
    editor.cursor.index = 7;
    assert_eq!(run(&mut editor, Event::Backspace), Action::Rejected);
    assert_eq!(editor.cursor.index, 7);
}

#[test]
fn backspace_moves_left_in_normal_mode() {
    let mut editor = editing("Hello");
    assert_eq!(run(&mut editor, Event::Escape), Action::StopTextInput);
    assert_eq!(run(&mut editor, Event::Backspace), Action::Nothing);
    assert_eq!(editor.cursor.index, 4);
    assert_eq!(editor.buffer.pt.read(), "Hello");
}

#[test]
fn delete_and_x_remove_the_character_under_the_cursor() {
    let mut editor = editing("Hello");
    editor.cursor.index = 1;
    assert_eq!(run(&mut editor, Event::Delete), Action::Nothing);
    assert_eq!(editor.buffer.pt.read(), "Hllo");
    assert_eq!(editor.cursor.index, 1);
    assert_eq!(run(&mut editor, Event::KeyX), Action::Nothing);
    assert_eq!(editor.buffer.pt.read(), "Hlo");
    editor.cursor.index = 3;
    assert_eq!(run(&mut editor, Event::KeyX), Action::Nothing);
    assert_eq!(editor.buffer.pt.read(), "Hlo");
    assert_eq!(run(&mut editor, Event::Escape), Action::StopTextInput);
    editor.cursor.index = 0;
    assert_eq!(run(&mut editor, Event::Delete), Action::Nothing);
    assert_eq!(editor.buffer.pt.read(), "Hlo");
}

#[test]
fn a_stale_screen_can_ask_for_a_delete_that_is_rejected() {
    let mut editor = editing("Hello");
    let stale = String::from("Hello World");
    editor.cursor.index = 8;
    assert_eq!(editor.step(&stale, Event::KeyX), Some(Action::Rejected));
    assert_eq!(editor.buffer.pt.read(), "Hello");
}

#[test]
fn arrows_move_within_the_text() {
    let mut editor = editing("abc");
    assert_eq!(run(&mut editor, Event::Right), Action::Nothing);
    assert_eq!(editor.cursor.index, 3);
    assert_eq!(run(&mut editor, Event::Left), Action::Nothing);
    assert_eq!(editor.cursor.index, 2);
    editor.cursor.index = 0;
    assert_eq!(run(&mut editor, Event::Left), Action::Nothing);
    assert_eq!(editor.cursor.index, 0);
    assert_eq!(run(&mut editor, Event::Right), Action::Nothing);
    assert_eq!(editor.cursor.index, 1);
}

#[test]
fn h_and_l_move_only_in_normal_mode() {
    let mut editor = editing("abc");
    editor.cursor.index = 1;
    assert_eq!(run(&mut editor, Event::KeyL), Action::Nothing);
    assert_eq!(run(&mut editor, Event::KeyH), Action::Nothing);
    assert_eq!(editor.cursor.index, 1);
    assert_eq!(run(&mut editor, Event::Escape), Action::StopTextInput);
    assert_eq!(run(&mut editor, Event::KeyL), Action::Nothing);
    assert_eq!(editor.cursor.index, 2);
    assert_eq!(run(&mut editor, Event::KeyH), Action::Nothing);
    assert_eq!(run(&mut editor, Event::KeyH), Action::Nothing);
    assert_eq!(run(&mut editor, Event::KeyH), Action::Nothing);
    assert_eq!(editor.cursor.index, 0);
}

#[test]
fn up_and_down_move_between_lines() {
    let mut editor = editing("ab\ncde\n\nf");
    editor.cursor.index = 4;
    assert_eq!(run(&mut editor, Event::Up), Action::Nothing);
    assert_eq!(editor.cursor.index, 1);
    assert_eq!(run(&mut editor, Event::Up), Action::Nothing);
    assert_eq!(editor.cursor.index, 1);
    assert_eq!(run(&mut editor, Event::Down), Action::Nothing);
    assert_eq!(editor.cursor.index, 4);
    assert_eq!(run(&mut editor, Event::Down), Action::Nothing);
    assert_eq!(editor.cursor.index, 7);
    assert_eq!(run(&mut editor, Event::Down), Action::Nothing);
    assert_eq!(editor.cursor.index, 8);
    assert_eq!(run(&mut editor, Event::Down), Action::Nothing);
    assert_eq!(editor.cursor.index, 8);
}

#[test]
fn j_and_k_move_only_in_normal_mode() {
    let mut editor = editing("ab\ncde");
    editor.cursor.index = 4;
    assert_eq!(run(&mut editor, Event::KeyK), Action::Nothing);
    assert_eq!(editor.cursor.index, 4);
    assert_eq!(run(&mut editor, Event::Escape), Action::StopTextInput);
    assert_eq!(run(&mut editor, Event::KeyK), Action::Nothing);
    assert_eq!(editor.cursor.index, 1);
    assert_eq!(run(&mut editor, Event::KeyJ), Action::Nothing);
    assert_eq!(editor.cursor.index, 4);
}

#[test]
fn the_file_prompt_collects_a_path_and_asks_for_the_file() {
    let mut editor = editing("old");
    assert_eq!(run(&mut editor, Event::OpenPrompt), Action::StartTextInput);
    assert!(editor.render_file_path_input);
    assert!(editor.text_input_active);
    assert_eq!(run(&mut editor, typed("notes")), Action::Nothing);
    assert_eq!(run(&mut editor, typed(".txtx")), Action::Nothing);
    assert_eq!(run(&mut editor, Event::Backspace), Action::Nothing);
    assert_eq!(editor.file_path_input.read(), "notes.txt");
    assert_eq!(editor.buffer.pt.read(), "old");
    assert_eq!(run(&mut editor, Event::Return), Action::OpenFile(String::from("notes.txt")));
    assert_eq!(editor.file_read(Some(String::from("new text"))), Action::StopTextInput);
    assert_eq!(editor.buffer.pt.read(), "new text");
    assert_eq!(editor.cursor.index, 0);
    assert!(!editor.render_file_path_input);
    assert!(!editor.text_input_active);
}

#[test]
fn a_file_that_cannot_be_read_leaves_the_document() {
    let mut editor = editing("old");
    assert_eq!(run(&mut editor, Event::OpenPrompt), Action::StartTextInput);
    assert_eq!(run(&mut editor, Event::Backspace), Action::Nothing);
    assert_eq!(run(&mut editor, Event::Return), Action::OpenFile(String::new()));
    assert_eq!(editor.file_read(None), Action::StopTextInput);
    assert_eq!(editor.buffer.pt.read(), "old");
    assert_eq!(editor.cursor.index, 3);
    assert!(!editor.render_file_path_input);
}

#[test]
fn opening_the_prompt_again_clears_it() {
    let mut editor = Editor::new((10, 20));
    assert_eq!(run(&mut editor, Event::OpenPrompt), Action::StartTextInput);
    assert_eq!(run(&mut editor, typed("abc")), Action::Nothing);
    assert_eq!(run(&mut editor, Event::OpenPrompt), Action::StartTextInput);
    assert_eq!(editor.file_path_input.read(), "");
}

#[test]
fn an_event_that_would_overflow_the_index_is_not_handled() {
    let mut editor = editing("abc");
    editor.cursor.index = u32::MAX;
    let content = editor.buffer.pt.read();
    assert!(!editor.can_handle(&content, &Event::Right));
    assert_eq!(editor.step(&content, Event::Right), None);
    assert_eq!(editor.cursor.index, u32::MAX);
    assert!(editor.can_handle(&content, &Event::Left));
    assert!(editor.can_handle(&content, &typed("x")));
}

#[test]
fn a_move_between_lines_without_a_column_is_not_handled() {
    let mut editor = editing("\u{e9}\nx");
    editor.cursor.index = 2;
    let content = editor.buffer.pt.read();
    assert!(!editor.can_handle(&content, &Event::Up));
    assert!(editor.can_handle(&content, &Event::KeyK));
    assert!(editor.can_handle(&content, &Event::Down));
    assert_eq!(editor.step(&content, Event::Up), None);
}

#[test]
fn other_events_change_nothing() {
    let mut editor = editing("abc");
    assert_eq!(run(&mut editor, Event::Other), Action::Nothing);
    assert_eq!(editor.buffer.pt.read(), "abc");
    assert_eq!(editor.cursor.index, 3);
}
