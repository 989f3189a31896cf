//! The editing session: what each input event does to the cursor, the
//! document and the file prompt, and what the front end has to do next.
use crate::buffer::Buffer;
use crate::cursor::{
    can_go_down, can_go_up, down_distance, lemma_moves_stay_in_range, up_distance, Cursor,
};
use crate::edits::{performs, Edit};
use crate::piece_table::PieceTable;
use crate::text::lossy_text;
use vstd::prelude::*;
use vstd::string::StringSliceAdditionalSpecFns;
use vstd::utf8::*;

verus! {

/// An input event, as far as the session tells events apart.
#[derive(Debug)]
pub enum Event {
    /// The window was closed.
    Quit,
    Escape,
    Left,
    Right,
    Up,
    Down,
    Backspace,
    Delete,
    Return,
    /// The key that opens the file prompt.
    OpenPrompt,
    /// Text was typed or pasted.
    TextInput(String),
    KeyI,
    KeyH,
    KeyL,
    KeyJ,
    KeyK,
    KeyX,
    /// Any other event.
    Other,
}

/// What the front end does after an event was handled.
#[derive(Debug, PartialEq, Eq)]
pub enum Action {
    Nothing,
    /// Leave the event loop.
    Quit,
    /// Switch text input on.
    StartTextInput,
    /// Switch text input off.
    StopTextInput,
    /// Read the file at this path and hand what was read to `file_read`.
    OpenFile(String),
    /// An edit was rejected by the document; nothing changed.
    Rejected,
}

/// One editing session: a document, a cursor into it, and the file prompt.
pub struct Editor {
    pub cursor: Cursor,
    pub buffer: Buffer,
    /// What was typed into the file prompt so far.
    pub file_path_input: PieceTable,
    /// The file prompt is open.
    pub render_file_path_input: bool,
    /// Text input is on: keys insert text rather than move the cursor.
    pub text_input_active: bool,
}

/// The index one step to the left, staying at 0.
pub open spec fn step_left(index: u32) -> u32 {
    if index != 0 {
        (index - 1) as u32
    } else {
        index
    }
}

/// The index one step to the right, staying at the end of a text of `len`
/// bytes. The length counts as a `u32`.
pub open spec fn step_right(index: u32, len: nat) -> u32 {
    if index + 1 >= len as u32 {
        len as u32
    } else {
        (index + 1) as u32
    }
}

/// The index one line up, or as it is where there is no line above.
pub open spec fn step_up(index: u32, text: Seq<char>) -> int {
    match up_distance(text, index as int) {
        Some(d) => index - d,
        None => index as int,
    }
}

/// The index one line down, or as it is where there is no line below.
pub open spec fn step_down(index: u32, text: Seq<char>) -> int {
    match down_distance(text, index as int) {
        Some(d) => index + d,
        None => index as int,
    }
}

/// The length in bytes of the text that `read` gives for a table.
pub open spec fn read_len(table: PieceTable) -> nat {
    encode_utf8(lossy_text(table@)).len()
}

impl Editor {
    /// `self` differs from `pre` in the cursor's index alone, which is `index`.
    pub open spec fn moved(self, pre: Editor, index: int) -> bool {
        &&& self.cursor.index == index
        &&& self.cursor.font_size == pre.cursor.font_size
        &&& self.cursor.cursor_line == pre.cursor.cursor_line
        &&& self.buffer == pre.buffer
        &&& self.file_path_input == pre.file_path_input
        &&& self.render_file_path_input == pre.render_file_path_input
        &&& self.text_input_active == pre.text_input_active
    }

    /// `self` differs from `pre` in the document, which went through `edit`,
    /// and in the cursor's index, which is `index`.
    pub open spec fn edited(self, pre: Editor, edit: Edit, index: int) -> bool {
        &&& performs(pre.buffer.pt, edit, self.buffer.pt)
        &&& self.buffer.path == pre.buffer.path
        &&& self.cursor.index == index
        &&& self.cursor.font_size == pre.cursor.font_size
        &&& self.cursor.cursor_line == pre.cursor.cursor_line
        &&& self.file_path_input == pre.file_path_input
        &&& self.render_file_path_input == pre.render_file_path_input
        &&& self.text_input_active == pre.text_input_active
    }

    /// `self` differs from `pre` in what the file prompt holds, which went
    /// through `edit`.
    pub open spec fn prompt_edited(self, pre: Editor, edit: Edit) -> bool {
        &&& performs(pre.file_path_input, edit, self.file_path_input)
        &&& self.cursor == pre.cursor
        &&& self.buffer == pre.buffer
        &&& self.render_file_path_input == pre.render_file_path_input
        &&& self.text_input_active == pre.text_input_active
    }

    /// `self` differs from `pre` in the two mode flags alone.
    pub open spec fn switched(self, pre: Editor, prompt: bool, active: bool) -> bool {
        &&& self.cursor == pre.cursor
        &&& self.buffer == pre.buffer
        &&& self.file_path_input == pre.file_path_input
        &&& self.render_file_path_input == prompt
        &&& self.text_input_active == active
    }

    /// The event can be handled in this state with `content` on screen: no
    /// index leaves the range of a `u32`, and a move between lines is defined.
    pub open spec fn handles(self, content: Seq<char>, event: Event) -> bool {
        let index = self.cursor.index;
        let within = index <= self.buffer.pt@.len();
        match event {
            Event::Right => index < u32::MAX,
            Event::KeyL => self.text_input_active || index < u32::MAX,
            Event::Up => can_go_up(content, index as int),
            Event::KeyK => self.text_input_active || can_go_up(content, index as int),
            Event::Down => can_go_down(content, index as int),
            Event::KeyJ => self.text_input_active || can_go_down(content, index as int),
            Event::Backspace => self.render_file_path_input ==> !(read_len(self.file_path_input)
                > 0 && read_len(self.file_path_input) as u32 == 0),
            Event::Return => !self.render_file_path_input && self.text_input_active && within
                ==> index < u32::MAX,
            Event::TextInput(text) => !self.render_file_path_input && within ==> index
                + encode_utf8(text@).len() as u32 <= u32::MAX,
            _ => true,
        }
    }

    /// What handling `event` makes of the session `pre`, and what it asks of
    /// the front end.
    pub open spec fn handled(
        self,
        pre: Editor,
        content: Seq<char>,
        event: Event,
        action: Action,
    ) -> bool {
        let index = pre.cursor.index;
        let active = pre.text_input_active;
        let prompt = pre.render_file_path_input;
        let len = encode_utf8(content).len();
        match event {
            Event::Quit => self == pre && action == Action::Quit,
            Event::Escape => if active {
                self.switched(pre, prompt, false) && action == Action::StopTextInput
            } else {
                self == pre && action == Action::Nothing
            },
            Event::Left => self.moved(pre, step_left(index) as int) && action == Action::Nothing,
            Event::KeyH => self.moved(
                pre,
                if active {
                    index as int
                } else {
                    step_left(index) as int
                },
            ) && action == Action::Nothing,
            Event::Right => self.moved(pre, step_right(index, len) as int) && action
                == Action::Nothing,
            Event::KeyL => self.moved(
                pre,
                if active {
                    index as int
                } else {
                    step_right(index, len) as int
                },
            ) && action == Action::Nothing,
            Event::Up => self.moved(pre, step_up(index, content)) && action == Action::Nothing,
            Event::KeyK => self.moved(
                pre,
                if active {
                    index as int
                } else {
                    step_up(index, content)
                },
            ) && action == Action::Nothing,
            Event::Down => self.moved(pre, step_down(index, content)) && action
                == Action::Nothing,
            Event::KeyJ => self.moved(
                pre,
                if active {
                    index as int
                } else {
                    step_down(index, content)
                },
            ) && action == Action::Nothing,
            Event::Backspace => if prompt {
                &&& action == Action::Nothing
                &&& if read_len(pre.file_path_input) > 0 {
                    self.prompt_edited(
                        pre,
                        Edit::Delete {
                            offset: (read_len(pre.file_path_input) as u32 - 1) as int,
                            length: 1,
                        },
                    )
                } else {
                    self == pre
                }
            } else if !active {
                self.moved(pre, step_left(index) as int) && action == Action::Nothing
            } else if index == 0 {
                self == pre && action == Action::Nothing
            } else {
                let done = pre.buffer.pt.piece_list().len() > 0 && index <= pre.buffer.pt@.len();
                &&& self.edited(
                    pre,
                    Edit::Delete { offset: index - 1, length: 1 },
                    if done {
                        index - 1
                    } else {
                        index as int
                    },
                )
                &&& action == if done {
                    Action::Nothing
                } else {
                    Action::Rejected
                }
            },
            Event::Delete => if active && index < len as u32 {
                let done = pre.buffer.pt.piece_list().len() > 0 && index + 1
                    <= pre.buffer.pt@.len();
                &&& self.edited(pre, Edit::Delete { offset: index as int, length: 1 }, index as int)
                &&& action == if done {
                    Action::Nothing
                } else {
                    Action::Rejected
                }
            } else {
                self == pre && action == Action::Nothing
            },
            Event::KeyX => if index < len as u32 {
                let done = pre.buffer.pt.piece_list().len() > 0 && index + 1
                    <= pre.buffer.pt@.len();
                &&& self.edited(pre, Edit::Delete { offset: index as int, length: 1 }, index as int)
                &&& action == if done {
                    Action::Nothing
                } else {
                    Action::Rejected
                }
            } else {
                self == pre && action == Action::Nothing
            },
            Event::Return => if prompt {
                &&& self == pre
                &&& action matches Action::OpenFile(path)
                &&& path@ == lossy_text(pre.file_path_input@)
            } else if active {
                let done = index <= pre.buffer.pt@.len();
                &&& self.edited(
                    pre,
                    Edit::Insert { content: "\n".spec_bytes(), offset: index as int },
                    if done {
                        index + 1
                    } else {
                        index as int
                    },
                )
                &&& action == if done {
                    Action::Nothing
                } else {
                    Action::Rejected
                }
            } else {
                self == pre && action == Action::Nothing
            },
            Event::OpenPrompt => {
                &&& self.cursor == pre.cursor
                &&& self.buffer == pre.buffer
                &&& self.file_path_input@ == Seq::<u8>::empty()
                &&& self.render_file_path_input
                &&& self.text_input_active
                &&& action == Action::StartTextInput
            },
            Event::TextInput(text) => if prompt {
                self.prompt_edited(pre, Edit::Append { content: encode_utf8(text@) }) && action
                    == Action::Nothing
            } else {
                let done = index <= pre.buffer.pt@.len();
                &&& self.edited(
                    pre,
                    Edit::Insert { content: encode_utf8(text@), offset: index as int },
                    if done {
                        index + encode_utf8(text@).len() as u32
                    } else {
                        index as int
                    },
                )
                &&& action == if done {
                    Action::Nothing
                } else {
                    Action::Rejected
                }
            },
            Event::KeyI => if active {
                self == pre && action == Action::Nothing
            } else {
                self.switched(pre, prompt, true) && action == Action::StartTextInput
            },
            Event::Other => self == pre && action == Action::Nothing,
        }
    }

    /// A session on a new, empty document: the cursor at 0, no prompt, text
    /// input off.
    pub fn new(font_size: (u32, u32)) -> (editor: Self)
        ensures
            editor.cursor.index == 0,
            editor.cursor.font_size == font_size,
            !editor.cursor.cursor_line,
            editor.buffer.path is None,
            editor.buffer.pt@ == Seq::<u8>::empty(),
            editor.file_path_input@ == Seq::<u8>::empty(),
            !editor.render_file_path_input,
            !editor.text_input_active,
    {
        Editor {
            cursor: Cursor::new(font_size),
            buffer: Buffer::new(),
            file_path_input: PieceTable::new(),
            render_file_path_input: false,
            text_input_active: false,
        }
    }

    /// The name of the mode, as the screen shows it.
    pub fn mode_label(&self) -> (label: &'static str)
        ensures
            label@ == if self.text_input_active {
                "insert"@
            } else {
                "normal"@
            },
    {
        if self.text_input_active {
            "insert"
        } else {
            "normal"
        }
    }

    /// Whether `handle` is defined for this event.
    pub fn can_handle(&self, content: &String, event: &Event) -> (ok: bool)
        ensures
            ok == self.handles(content@, *event),
    {
        let index = self.cursor.index;
        match event {
            Event::Right => index < u32::MAX,
            Event::KeyL => self.text_input_active || index < u32::MAX,
            Event::Up => Cursor::can_move(&self.cursor, content, -1),
            Event::KeyK => self.text_input_active || Cursor::can_move(&self.cursor, content, -1),
            Event::Down => Cursor::can_move(&self.cursor, content, 1),
            Event::KeyJ => self.text_input_active || Cursor::can_move(&self.cursor, content, 1),
            Event::Backspace => {
                if self.render_file_path_input {
                    let data = self.file_path_input.read();
                    let len = data.as_str().as_bytes().len();
                    !(len > 0 && #[verifier::truncate]
                    (len as u32) == 0)
                } else {
                    true
                }
            },
            Event::Return => {
                if !self.render_file_path_input && self.text_input_active
                    && self.buffer.pt.has_offset(index) {
                    index < u32::MAX
                } else {
                    true
                }
            },
            Event::TextInput(text) => {
                if !self.render_file_path_input && self.buffer.pt.has_offset(index) {
                    let len = #[verifier::truncate]
                    (text.as_str().as_bytes().len() as u32);
                    index as u64 + len as u64 <= u32::MAX as u64
                } else {
                    true
                }
            },
            _ => true,
        }
    }

    /// Handles `event` where that is defined; `None`, and nothing changed,
    /// where it is not.
    pub fn step(&mut self, content: &String, event: Event) -> (action: Option<Action>)
        ensures
            match action {
                Some(a) => old(self).handles(content@, event) && final(self).handled(
                    *old(self),
                    content@,
                    event,
                    a,
                ),
                None => !old(self).handles(content@, event) && *final(self) == *old(self),
            },
    {
        if self.can_handle(content, &event) {
            Some(self.handle(content, event))
        } else {
            None
        }
    }

    /// Handles one input event with `content` on screen, the text read from
    /// the document when the frame began. Returns what the front end has to
    /// do next.
    pub fn handle(&mut self, content: &String, event: Event) -> (action: Action)
        requires
            old(self).handles(content@, event),
        ensures
            final(self).handled(*old(self), content@, event, action),
    {
        match event {
            Event::Quit => Action::Quit,
            Event::Escape => {
                if self.text_input_active {
                    self.text_input_active = false;
                    Action::StopTextInput
                } else {
                    Action::Nothing
                }
            },
            Event::Left => {
                self.move_left();
                Action::Nothing
            },
            Event::Right => {
                self.move_right(content);
                Action::Nothing
            },
            Event::Up => {
                self.move_up(content);
                Action::Nothing
            },
            Event::Down => {
                self.move_down(content);
                Action::Nothing
            },
            Event::Backspace => {
                if self.render_file_path_input {
                    let data = self.file_path_input.read();
                    let len = data.as_str().as_bytes().len();
                    if len > 0 {
                        let last = #[verifier::truncate]
                        (len as u32) - 1;
                        self.file_path_input.delete(last, 1);
                    }
                    return Action::Nothing;
                }
                if !self.text_input_active {
                    self.move_left();
                    Action::Nothing
                } else if self.cursor.index != 0 {
                    if !self.buffer.pt.delete(self.cursor.index - 1, 1) {
                        Action::Rejected
                    } else {
                        self.cursor.index = self.cursor.index - 1;
                        Action::Nothing
                    }
                } else {
                    Action::Nothing
                }
            },
            Event::Delete => {
                if self.text_input_active {
                    self.delete_under_cursor(content)
                } else {
                    Action::Nothing
                }
            },
            Event::Return => {
                if self.render_file_path_input {
                    return Action::OpenFile(self.file_path_input.read());
                }
                if self.text_input_active {
                    if !self.buffer.pt.insert("\n", self.cursor.index) {
                        Action::Rejected
                    } else {
                        self.cursor.index = self.cursor.index + 1;
                        Action::Nothing
                    }
                } else {
                    Action::Nothing
                }
            },
            Event::OpenPrompt => {
                self.render_file_path_input = true;
                self.file_path_input = PieceTable::new();
                self.text_input_active = true;
                Action::StartTextInput
            },
            Event::TextInput(text) => {
                if self.render_file_path_input {
                    self.file_path_input.append(text.as_str());
                    return Action::Nothing;
                }
                if !self.buffer.pt.insert(text.as_str(), self.cursor.index) {
                    Action::Rejected
                } else {
                    let len = #[verifier::truncate]
                    (text.as_str().as_bytes().len() as u32);
                    self.cursor.index = self.cursor.index + len;
                    Action::Nothing
                }
            },
            Event::KeyI => {
                if !self.text_input_active {
                    self.text_input_active = true;
                    Action::StartTextInput
                } else {
                    Action::Nothing
                }
            },
            Event::KeyH => {
                if !self.text_input_active {
                    self.move_left();
                }
                Action::Nothing
            },
            Event::KeyL => {
                if !self.text_input_active {
                    self.move_right(content);
                }
                Action::Nothing
            },
            Event::KeyJ => {
                if !self.text_input_active {
                    self.move_down(content);
                }
                Action::Nothing
            },
            Event::KeyK => {
                if !self.text_input_active {
                    self.move_up(content);
                }
                Action::Nothing
            },
            Event::KeyX => self.delete_under_cursor(content),
            Event::Other => Action::Nothing,
        }
    }

    /// Takes what the front end read for `Action::OpenFile`: the file's
    /// content replaces the document and the cursor goes to its start, or
    /// nothing changes where the file could not be read. Either way the
    /// prompt closes and text input goes off.
    pub fn file_read(&mut self, content: Option<String>) -> (action: Action)
        ensures
            action == Action::StopTextInput,
            !final(self).render_file_path_input,
            !final(self).text_input_active,
            final(self).file_path_input == old(self).file_path_input,
            final(self).buffer.path == old(self).buffer.path,
            final(self).cursor.font_size == old(self).cursor.font_size,
            final(self).cursor.cursor_line == old(self).cursor.cursor_line,
            match content {
                Some(text) => {
                    &&& final(self).buffer.pt@ == encode_utf8(text@)
                    &&& final(self).buffer.pt.original() == encode_utf8(text@)
                    &&& final(self).buffer.pt.added() == Seq::<u8>::empty()
                    &&& final(self).cursor.index == 0
                },
                None => {
                    &&& final(self).buffer.pt == old(self).buffer.pt
                    &&& final(self).cursor.index == old(self).cursor.index
                },
            },
    {
        match content {
            Some(text) => {
                self.buffer.pt = PieceTable::init(text);
                self.cursor.index = 0;
            },
            None => {},
        }
        self.render_file_path_input = false;
        self.text_input_active = false;
        Action::StopTextInput
    }

    fn move_left(&mut self)
        ensures
            final(self).moved(*old(self), step_left(old(self).cursor.index) as int),
    {
        if self.cursor.index != 0 {
            self.cursor.index = self.cursor.index - 1;
        }
    }

    fn move_right(&mut self, content: &String)
        requires
            old(self).cursor.index < u32::MAX,
        ensures
            final(self).moved(
                *old(self),
                step_right(old(self).cursor.index, encode_utf8(content@).len()) as int,
            ),
    {
        let len = #[verifier::truncate]
        (content.as_str().as_bytes().len() as u32);
        self.cursor.index = self.cursor.index + 1;
        if self.cursor.index >= len {
            self.cursor.index = len;
        }
    }

    fn move_up(&mut self, content: &String)
        requires
            can_go_up(content@, old(self).cursor.index as int),
        ensures
            final(self).moved(*old(self), step_up(old(self).cursor.index, content@)),
    {
        proof {
            lemma_moves_stay_in_range(content@, self.cursor.index as int);
        }
        if let Some(index_diff) = Cursor::calc_new_index(&self.cursor, content, -1) {
            self.cursor.index = self.cursor.index - index_diff;
        }
    }

    fn move_down(&mut self, content: &String)
        requires
            can_go_down(content@, old(self).cursor.index as int),
        ensures
            final(self).moved(*old(self), step_down(old(self).cursor.index, content@)),
    {
        proof {
            lemma_moves_stay_in_range(content@, self.cursor.index as int);
        }
        if let Some(index_diff) = Cursor::calc_new_index(&self.cursor, content, 1) {
            self.cursor.index = self.cursor.index + index_diff;
        }
    }

    fn delete_under_cursor(&mut self, content: &String) -> (action: Action)
        ensures
            final(self).handled(*old(self), content@, Event::KeyX, action),
    {
        let len = #[verifier::truncate]
        (content.as_str().as_bytes().len() as u32);
        if self.cursor.index < len {
            if !self.buffer.pt.delete(self.cursor.index, 1) {
                return Action::Rejected;
            }
        }
        Action::Nothing
    }
}

} // verus!
