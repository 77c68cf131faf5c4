//! The session: a mode state machine over an input editor, the full
//! skill list and the filtered view. Every key event maps to one
//! transition; the store's file is read and written by the caller, who
//! hands the file text in and writes back what a submit returns.

use vstd::prelude::*;
use vstd::string::{StrSliceExecFns, StringExecFns};
use vstd::utf8::{encode_utf8, is_char_boundary};

use crate::json::spec_serialize;
use crate::store::{add_skill, add_step, store_entries};
use crate::text::{
    char_utf8_len, chars_to_string, lemma_byte_offset_is_boundary, lemma_encode_utf8_append,
    lemma_encode_utf8_singleton,
};
use crate::util::{filter_skills, searchInVector};

verus! {

/// The two modes of a session: navigating, or editing the query text.
#[derive(Clone, Copy, Debug, PartialEq, Eq, Structural)]
pub enum InputMode {
    Normal,
    Editing,
}

/// A discrete key event, as the session understands it.
#[derive(Clone, Copy, Debug)]
pub enum KeyInput {
    Enter,
    Char(char),
    Backspace,
    Left,
    Right,
    Esc,
    Other,
}

/// The mathematical value of an [`App`].
#[verifier::ext_equal]
pub struct AppV {
    pub input: Seq<char>,
    pub cursor: int,
    pub mode: InputMode,
    pub total: Seq<Seq<char>>,
    pub skills: Seq<Seq<char>>,
    pub exit: bool,
}

/// `pos` clamped into `[0, len]`.
pub open spec fn clamped(pos: int, len: int) -> int {
    if pos <= 0 {
        0
    } else if pos > len {
        len
    } else {
        pos
    }
}

/// What inserting one character does: the character is spliced in at
/// the cursor, the cursor moves one place right (clamped), and the
/// filtered view is recomputed from the full list and the new text.
pub open spec fn insert_spec(pre: AppV, c: char) -> AppV {
    let ni = pre.input.take(clamped(pre.cursor, pre.input.len() as int)) + seq![c]
        + pre.input.skip(clamped(pre.cursor, pre.input.len() as int));
    AppV {
        input: ni,
        cursor: clamped(pre.cursor + 1, ni.len() as int),
        skills: filter_skills(pre.total, ni),
        ..pre
    }
}

/// What deleting before the cursor does: nothing at the left edge but
/// a recomputed view; otherwise the character before the cursor goes
/// and the cursor moves one place left.
pub open spec fn delete_spec(pre: AppV) -> AppV {
    if pre.cursor == 0 {
        AppV { skills: filter_skills(pre.total, pre.input), ..pre }
    } else {
        let ni = pre.input.take(pre.cursor - 1) + pre.input.skip(
            clamped(pre.cursor, pre.input.len() as int),
        );
        AppV {
            input: ni,
            cursor: clamped(pre.cursor - 1, ni.len() as int),
            skills: filter_skills(pre.total, ni),
            ..pre
        }
    }
}

/// What a submit does: only when the filtered view is empty is the
/// typed name offered to the store. If the store text is readable, the
/// name is appended to both lists, the editor is cleared, and the new
/// file text to persist is handed back; a store text that cannot be
/// read changes nothing.
pub open spec fn submit_spec(pre: AppV, store_text: Seq<char>) -> (AppV, Option<Seq<char>>) {
    if pre.skills.len() == 0 {
        match store_entries(store_text) {
            Some(es) => (
                AppV {
                    input: Seq::empty(),
                    cursor: 0,
                    total: pre.total.push(pre.input),
                    skills: pre.skills.push(pre.input),
                    ..pre
                },
                Some(spec_serialize(add_step(es, pre.input))),
            ),
            None => (pre, None),
        }
    } else {
        (pre, None)
    }
}

/// The whole state machine: what one key event does to the session,
/// and what (if anything) must be written to the store file.
pub open spec fn step_spec(pre: AppV, key: KeyInput, is_press: bool, store_text: Seq<char>) -> (
    AppV,
    Option<Seq<char>>,
) {
    match pre.mode {
        InputMode::Normal => match key {
            KeyInput::Char(c) => if c == 'e' {
                (AppV { mode: InputMode::Editing, ..pre }, None)
            } else if c == 'q' {
                (AppV { exit: true, ..pre }, None)
            } else {
                (pre, None)
            },
            _ => (pre, None),
        },
        InputMode::Editing => if is_press {
            match key {
                KeyInput::Enter => submit_spec(pre, store_text),
                KeyInput::Char(c) => (insert_spec(pre, c), None),
                KeyInput::Backspace => (delete_spec(pre), None),
                KeyInput::Left => (
                    AppV { cursor: clamped(pre.cursor - 1, pre.input.len() as int), ..pre },
                    None,
                ),
                KeyInput::Right => (
                    AppV { cursor: clamped(pre.cursor + 1, pre.input.len() as int), ..pre },
                    None,
                ),
                KeyInput::Esc => (AppV { mode: InputMode::Normal, ..pre }, None),
                KeyInput::Other => (pre, None),
            }
        } else {
            (pre, None)
        },
    }
}

/// The session state: the editor's text buffer and cursor, the mode,
/// the full skill list, the filtered view, and the exit flag.
pub struct App {
    input_skill: String,
    character_index: usize,
    input_mode: InputMode,
    total_skills: Vec<String>,
    skills: Vec<String>,
    exit: bool,
}

impl View for App {
    type V = AppV;

    closed spec fn view(&self) -> AppV {
        AppV {
            input: self.input_skill@,
            cursor: self.character_index as int,
            mode: self.input_mode,
            total: self.total_skills.deep_view(),
            skills: self.skills.deep_view(),
            exit: self.exit,
        }
    }
}

/// Clones every name of `v`, in order.
fn clone_names(v: &Vec<String>) -> (r: Vec<String>)
    ensures
        r.deep_view() == v.deep_view(),
{
    let mut out: Vec<String> = Vec::new();
    let mut i: usize = 0;
    while i < v.len()
        invariant
            0 <= i <= v.len(),
            out.deep_view() =~= v.deep_view().take(i as int),
        decreases v.len() - i,
    {
        let ghost pre = out.deep_view();
        out.push(v[i].clone());
        proof {
            assert(out.deep_view().len() == pre.len() + 1);
            assert(forall|k: int| 0 <= k < pre.len() ==> out.deep_view()[k] == pre[k]);
            assert(out.deep_view()[pre.len() as int] == v[i as int]@);
            assert(out.deep_view() =~= v.deep_view().take(i + 1));
        }
        i = i + 1;
    }
    proof {
        assert(v.deep_view().take(v.len() as int) =~= v.deep_view());
    }
    out
}

impl App {
    /// The cursor always stays inside the buffer.
    pub open spec fn wf(self) -> bool {
        0 <= self@.cursor <= self@.input.len()
    }

    /// A fresh session: empty buffer, cursor at the start, Normal
    /// mode, no skills loaded, not exiting.
    pub fn new() -> (r: App)
        ensures
            r@ == (AppV {
                input: Seq::<char>::empty(),
                cursor: 0,
                mode: InputMode::Normal,
                total: Seq::<Seq<char>>::empty(),
                skills: Seq::<Seq<char>>::empty(),
                exit: false,
            }),
            r.wf(),
    {
        let r = App {
            input_skill: String::new(),
            character_index: 0,
            input_mode: InputMode::Normal,
            total_skills: Vec::new(),
            skills: Vec::new(),
            exit: false,
        };
        proof {
            assert(r.total_skills.deep_view() =~= Seq::<Seq<char>>::empty());
            assert(r.skills.deep_view() =~= Seq::<Seq<char>>::empty());
            assert(r@ =~= (AppV {
                input: Seq::<char>::empty(),
                cursor: 0,
                mode: InputMode::Normal,
                total: Seq::<Seq<char>>::empty(),
                skills: Seq::<Seq<char>>::empty(),
                exit: false,
            }));
        }
        r
    }

    /// Appends the loaded names to the full list and shows all of them
    /// in the filtered view, as happens once at startup.
    pub fn load_skill_list(&mut self, names: Vec<String>)
        ensures
            final(self)@ == (AppV {
                total: old(self)@.total + names.deep_view(),
                skills: old(self)@.total + names.deep_view(),
                ..old(self)@
            }),
    {
        let mut i: usize = 0;
        while i < names.len()
            invariant
                0 <= i <= names.len(),
                self.total_skills.deep_view() =~= old(self)@.total + names.deep_view().take(
                    i as int,
                ),
                self.input_skill@ == old(self)@.input,
                self.character_index == old(self)@.cursor,
                self.input_mode == old(self)@.mode,
                self.skills.deep_view() == old(self)@.skills,
                self.exit == old(self)@.exit,
            decreases names.len() - i,
        {
            let ghost pre = self.total_skills.deep_view();
            self.total_skills.push(names[i].clone());
            proof {
                assert(self.total_skills.deep_view().len() == pre.len() + 1);
                assert(forall|k: int|
                    0 <= k < pre.len() ==> self.total_skills.deep_view()[k] == pre[k]);
                assert(self.total_skills.deep_view()[pre.len() as int] == names[i as int]@);
                assert(self.total_skills.deep_view() =~= pre.push(names[i as int]@));
                assert(names.deep_view().take(i + 1) =~= names.deep_view().take(i as int).push(
                    names[i as int]@,
                ));
                assert(pre.push(names[i as int]@) =~= old(self)@.total + names.deep_view().take(
                    i as int,
                ).push(names[i as int]@));
                assert(self.total_skills.deep_view() =~= old(self)@.total
                    + names.deep_view().take(i + 1));
            }
            i = i + 1;
        }
        proof {
            assert(names.deep_view().take(names.len() as int) =~= names.deep_view());
        }
        self.skills = clone_names(&self.total_skills);
        proof {
            assert(self@ =~= (AppV {
                total: old(self)@.total + names.deep_view(),
                skills: old(self)@.total + names.deep_view(),
                ..old(self)@
            }));
        }
    }

    /// The editor's current text.
    pub fn input_text(&self) -> (r: &String)
        ensures
            r@ == self@.input,
    {
        &self.input_skill
    }

    /// The cursor's character position.
    pub fn cursor_index(&self) -> (r: usize)
        ensures
            r as int == self@.cursor,
    {
        self.character_index
    }

    /// The current mode.
    pub fn mode(&self) -> (r: InputMode)
        ensures
            r == self@.mode,
    {
        self.input_mode
    }

    /// The filtered view, in the full list's order.
    pub fn skill_list(&self) -> (r: &Vec<String>)
        ensures
            r.deep_view() == self@.skills,
    {
        &self.skills
    }

    /// The full skill list.
    pub fn total_skill_list(&self) -> (r: &Vec<String>)
        ensures
            r.deep_view() == self@.total,
    {
        &self.total_skills
    }

    /// Whether a Normal-mode quit was requested.
    pub fn should_exit(&self) -> (r: bool)
        ensures
            r == self@.exit,
    {
        self.exit
    }

    /// Requests the run loop to end.
    pub fn exit(&mut self)
        ensures
            final(self)@ == (AppV { exit: true, ..old(self)@ }),
    {
        self.exit = true;
        proof {
            assert(self@ =~= (AppV { exit: true, ..old(self)@ }));
        }
    }

    /// Clamps a candidate cursor position into the buffer's bounds.
    pub fn clamp_cursor(&self, new_cursor_pos: usize) -> (r: usize)
        ensures
            r as int == clamped(new_cursor_pos as int, self@.input.len() as int),
            self@.input.len() <= usize::MAX,
    {
        let n = self.input_skill.as_str().unicode_len();
        if new_cursor_pos > n {
            n
        } else {
            new_cursor_pos
        }
    }

    /// Moves the cursor one place left, clamped at the start.
    pub fn move_cursor_left(&mut self)
        ensures
            final(self)@ == (AppV {
                cursor: clamped(old(self)@.cursor - 1, old(self)@.input.len() as int),
                ..old(self)@
            }),
            old(self).wf() ==> final(self).wf(),
    {
        let moved = if self.character_index > 0 {
            self.character_index - 1
        } else {
            0
        };
        self.character_index = self.clamp_cursor(moved);
        proof {
            assert(self@ =~= (AppV {
                cursor: clamped(old(self)@.cursor - 1, old(self)@.input.len() as int),
                ..old(self)@
            }));
        }
    }

    /// Moves the cursor one place right, clamped at the end.
    pub fn move_cursor_right(&mut self)
        ensures
            final(self)@ == (AppV {
                cursor: clamped(old(self)@.cursor + 1, old(self)@.input.len() as int),
                ..old(self)@
            }),
            final(self).wf(),
    {
        let moved = if self.character_index < usize::MAX {
            self.character_index + 1
        } else {
            self.character_index
        };
        self.character_index = self.clamp_cursor(moved);
        proof {
            assert(self@ =~= (AppV {
                cursor: clamped(old(self)@.cursor + 1, old(self)@.input.len() as int),
                ..old(self)@
            }));
        }
    }

    /// Sends the cursor back to the start of the buffer.
    pub fn reset_cursor(&mut self)
        ensures
            final(self)@ == (AppV { cursor: 0, ..old(self)@ }),
            final(self).wf(),
    {
        self.character_index = 0;
        proof {
            assert(self@ =~= (AppV { cursor: 0, ..old(self)@ }));
        }
    }

    /// The byte offset of the cursor in the buffer's UTF-8 encoding.
    /// It never points inside a character's encoding.
    pub fn byte_index(&self) -> (r: usize)
        requires
            self.wf(),
        ensures
            r as int == encode_utf8(self@.input.take(self@.cursor)).len(),
            is_char_boundary(encode_utf8(self@.input), r as int),
    {
        let s = self.input_skill.as_str();
        let total = s.as_bytes().len();
        proof {
            assert(total == encode_utf8(s@).len());
        }
        let mut acc: usize = 0;
        let mut i: usize = 0;
        proof {
            assert(s@.take(0) =~= Seq::<char>::empty());
            assert(encode_utf8(s@.take(0)) =~= Seq::<u8>::empty());
        }
        while i < self.character_index
            invariant
                s@ == self@.input,
                0 <= i <= self.character_index <= s@.len(),
                total == encode_utf8(s@).len(),
                acc == encode_utf8(s@.take(i as int)).len(),
                acc <= total,
            decreases self.character_index - i,
        {
            let c = s.get_char(i);
            let cl = char_utf8_len(c);
            proof {
                assert(s@.take(i + 1) =~= s@.take(i as int) + seq![c]);
                lemma_encode_utf8_append(s@.take(i as int), seq![c]);
                lemma_encode_utf8_singleton(c);
                assert(s@ =~= s@.take(i + 1) + s@.skip(i + 1));
                lemma_encode_utf8_append(s@.take(i + 1), s@.skip(i + 1));
            }
            acc = acc + cl;
            i = i + 1;
        }
        proof {
            lemma_byte_offset_is_boundary(s@, self.character_index as int);
        }
        acc
    }

    /// Splices `new_char` in at the cursor, moves the cursor right,
    /// and recomputes the filtered view from the full list.
    pub fn enter_char(&mut self, new_char: char)
        requires
            old(self).wf(),
        ensures
            final(self)@ == insert_spec(old(self)@, new_char),
            final(self).wf(),
    {
        let ci = self.character_index;
        let len = self.input_skill.as_str().unicode_len();
        let left = self.input_skill.as_str().substring_char(0, ci);
        let mut ns = left.to_owned();
        let mut one: Vec<char> = Vec::new();
        one.push(new_char);
        let mid = chars_to_string(&one);
        ns.append(mid.as_str());
        let right = self.input_skill.as_str().substring_char(ci, len);
        ns.append(right);
        self.input_skill = ns;
        self.move_cursor_right();
        self.skills = searchInVector(&self.total_skills, &self.input_skill);
        proof {
            assert(one@ =~= seq![new_char]);
            assert(self@.input =~= old(self)@.input.take(old(self)@.cursor) + seq![new_char]
                + old(self)@.input.skip(old(self)@.cursor));
            assert(self@ =~= insert_spec(old(self)@, new_char));
        }
    }

    /// Removes the character before the cursor, if there is one, and
    /// recomputes the filtered view from the full list.
    pub fn delete_char(&mut self)
        requires
            old(self).wf(),
        ensures
            final(self)@ == delete_spec(old(self)@),
            final(self).wf(),
    {
        if self.character_index != 0 {
            let ci = self.character_index;
            let len = self.input_skill.as_str().unicode_len();
            let left = self.input_skill.as_str().substring_char(0, ci - 1);
            let mut ns = left.to_owned();
            let right = self.input_skill.as_str().substring_char(ci, len);
            ns.append(right);
            self.input_skill = ns;
            self.move_cursor_left();
        }
        self.skills = searchInVector(&self.total_skills, &self.input_skill);
        proof {
            assert(self@ =~= delete_spec(old(self)@));
        }
    }

    /// Submits the typed name: only when the filtered view is empty is
    /// the store asked to add it; on success both lists gain the name,
    /// the editor is cleared, and the new file text is returned for
    /// the caller to persist.
    pub fn submit_messages(&mut self, store_text: &str) -> (r: Option<String>)
        requires
            old(self).wf(),
        ensures
            final(self)@ == submit_spec(old(self)@, store_text@).0,
            final(self).wf(),
            (match r {
                Some(t) => submit_spec(old(self)@, store_text@).1 == Some(t@),
                None => submit_spec(old(self)@, store_text@).1 is None,
            }),
    {
        if self.skills.len() == 0 {
            proof {
                assert(self@.skills.len() == 0);
            }
            match add_skill(store_text, self.input_skill.as_str()) {
                Ok(t2) => {
                    let ghost pre_total = self.total_skills.deep_view();
                    let ghost pre_skills = self.skills.deep_view();
                    self.total_skills.push(self.input_skill.clone());
                    self.skills.push(self.input_skill.clone());
                    proof {
                        assert(self.total_skills.deep_view() =~= pre_total.push(
                            old(self)@.input,
                        ));
                        assert(self.skills.deep_view() =~= pre_skills.push(old(self)@.input));
                    }
                    self.input_skill = String::new();
                    self.reset_cursor();
                    proof {
                        assert(self@ =~= submit_spec(old(self)@, store_text@).0);
                    }
                    Some(t2)
                },
                Err(_) => {
                    proof {
                        assert(self@ =~= submit_spec(old(self)@, store_text@).0);
                    }
                    None
                },
            }
        } else {
            proof {
                assert(self@ =~= submit_spec(old(self)@, store_text@).0);
            }
            None
        }
    }

    /// Feeds one key event through the state machine. The returned
    /// text, when there is one, is the store file's new content, which
    /// the caller writes back.
    pub fn handle_key_event(&mut self, key: KeyInput, is_press: bool, store_text: &str) -> (r:
        Option<String>)
        requires
            old(self).wf(),
        ensures
            final(self)@ == step_spec(old(self)@, key, is_press, store_text@).0,
            final(self).wf(),
            (match r {
                Some(t) => step_spec(old(self)@, key, is_press, store_text@).1 == Some(t@),
                None => step_spec(old(self)@, key, is_press, store_text@).1 is None,
            }),
    {
        match self.input_mode {
            InputMode::Normal => {
                match key {
                    KeyInput::Char(c) => {
                        if c == 'e' {
                            self.input_mode = InputMode::Editing;
                            proof {
                                assert(self@ =~= (AppV {
                                    mode: InputMode::Editing,
                                    ..old(self)@
                                }));
                            }
                        } else if c == 'q' {
                            self.exit = true;
                            proof {
                                assert(self@ =~= (AppV { exit: true, ..old(self)@ }));
                            }
                        }
                    },
                    _ => {},
                }
                None
            },
            InputMode::Editing => {
                if is_press {
                    match key {
                        KeyInput::Enter => self.submit_messages(store_text),
                        KeyInput::Char(c) => {
                            self.enter_char(c);
                            None
                        },
                        KeyInput::Backspace => {
                            self.delete_char();
                            None
                        },
                        KeyInput::Left => {
                            self.move_cursor_left();
                            None
                        },
                        KeyInput::Right => {
                            self.move_cursor_right();
                            None
                        },
                        KeyInput::Esc => {
                            self.input_mode = InputMode::Normal;
                            proof {
                                assert(self@ =~= (AppV { mode: InputMode::Normal, ..old(self)@ }));
                            }
                            None
                        },
                        KeyInput::Other => None,
                    }
                } else {
                    None
                }
            },
        }
    }
}

} // verus!
