//! What a terminal hands in and shows: keys, and the selection in a table.

use vstd::prelude::*;

verus! {

#[derive(Debug, Clone, Copy, PartialEq, Eq, Structural)]
pub enum KeyCode {
    Up,
    Down,
    PageUp,
    PageDown,
    Home,
    End,
    Tab,
    Enter,
    Esc,
    Backspace,
    Char(char),
    /// A key that nothing is bound to.
    Other,
}

#[derive(Debug, Clone, Copy, PartialEq, Eq, Structural)]
pub struct KeyModifiers {
    pub control: bool,
}

impl KeyModifiers {
    /// No modifier is held.
    pub fn none() -> (m: KeyModifiers)
        ensures
            !m.control,
    {
        KeyModifiers { control: false }
    }
}

#[derive(Debug, Clone, Copy, PartialEq, Eq, Structural)]
pub enum KeyEventKind {
    Press,
    Repeat,
    Release,
}

#[derive(Debug, Clone, Copy, PartialEq, Eq, Structural)]
pub struct KeyEvent {
    pub code: KeyCode,
    pub modifiers: KeyModifiers,
    pub kind: KeyEventKind,
}

impl KeyEvent {
    /// A key that is pressed.
    pub fn new(code: KeyCode, modifiers: KeyModifiers) -> (k: KeyEvent)
        ensures
            k == (KeyEvent { code, modifiers, kind: KeyEventKind::Press }),
    {
        KeyEvent { code, modifiers, kind: KeyEventKind::Press }
    }
}

#[derive(Debug, Clone, Copy, PartialEq, Eq, Structural)]
pub enum Event {
    Key(KeyEvent),
    /// A resize, a paste, a change of focus or a movement of the mouse.
    Other,
}

/// The selected row of a table, and the first row that is shown.
#[derive(Debug, Clone, Copy, PartialEq, Eq, Structural)]
pub struct TableState {
    pub offset: usize,
    pub selected: Option<usize>,
}

impl Default for TableState {
    fn default() -> (s: Self)
        ensures
            s == (TableState { offset: 0, selected: None }),
    {
        TableState { offset: 0, selected: None }
    }
}

impl TableState {
    /// The table with a row selected. Selecting none goes back to the top.
    pub open spec fn with_selected(self, index: Option<usize>) -> TableState {
        TableState {
            selected: index,
            offset: if index is None {
                0
            } else {
                self.offset
            },
        }
    }

    pub fn selected(&self) -> (r: Option<usize>)
        ensures
            r == self.selected,
    {
        self.selected
    }

    /// Selects a row, or none.
    pub fn select(&mut self, index: Option<usize>)
        ensures
            *final(self) == old(self).with_selected(index),
    {
        self.selected = index;
        if index.is_none() {
            self.offset = 0;
        }
    }
}

/// Selecting a row keeps what is scrolled to; selecting none goes back to the top.
pub proof fn lemma_selecting(s: TableState, i: usize)
    ensures
        s.with_selected(Some(i)).selected == Some(i),
        s.with_selected(Some(i)).offset == s.offset,
        s.with_selected(None).selected is None,
        s.with_selected(None).offset == 0,
{
}

} // verus!
