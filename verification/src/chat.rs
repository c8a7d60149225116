//! The state of the chat window: the messages sent so far and how far the history
//! pane is scrolled back from the newest one.

use vstd::prelude::*;

verus! {

/// A key press, as far as the chat window tells them apart.
pub enum ChatKey {
    Esc,
    /// Enter, with the lines typed in the input box.
    Enter(Vec<String>),
    Up,
    Down,
    /// Any other key, which goes to the input box.
    Other,
}

/// What the window does after a key press.
#[derive(Debug, PartialEq, Eq, Structural)]
pub enum ChatAction {
    /// Leave the chat.
    Quit,
    /// Empty the input box.
    ClearInput,
    /// Hand the key to the input box.
    ForwardInput,
    /// Nothing beyond the new scroll position.
    Redraw,
}

/// Where the history pane starts once it is `rows` rows high: the scroll position,
/// unless that would show less than a full pane, in which case as far back as a
/// full pane allows.
pub open spec fn clamped_scrollback(scrollback: int, rows: int, len: int) -> int {
    if scrollback + rows > len {
        if len >= rows {
            len - rows
        } else {
            0
        }
    } else {
        scrollback
    }
}

/// The pane is pulled back only as far as it must be to be full: the scroll
/// position never moves forward; where there are at least `rows` messages the
/// pane ends within the history, so no row is empty while older messages exist;
/// where there are fewer, the pane starts at the newest message; and the position
/// stays put unless it has to move, in which case it moves to the first position
/// that fills the pane.
pub proof fn law_scroll_clamp_fills_pane(scrollback: int, rows: int, len: int)
    requires
        0 <= scrollback,
        0 <= rows,
        0 <= len,
    ensures
        0 <= clamped_scrollback(scrollback, rows, len) <= scrollback,
        len >= rows ==> clamped_scrollback(scrollback, rows, len) + rows <= len,
        len < rows ==> clamped_scrollback(scrollback, rows, len) == 0,
        scrollback + rows <= len ==> clamped_scrollback(scrollback, rows, len) == scrollback,
        scrollback + rows > len && len >= rows ==> clamped_scrollback(scrollback, rows, len) + rows
            == len,
{
}

/// What row `row` (0 is the top) of a pane of `rows` rows shows, scrolled back by
/// `scrollback`: the message that many places before the newest one, or nothing.
pub open spec fn shown_at(history: Seq<String>, scrollback: int, rows: int, row: int) -> Seq<char> {
    let back = scrollback + rows - 1 - row;
    if back < history.len() {
        history[history.len() - 1 - back]@
    } else {
        Seq::<char>::empty()
    }
}

/// A pane that lies within the history shows a window of consecutive messages,
/// oldest at the top: scrolled back by `scrollback`, its bottom row is the message
/// that many places before the newest, and each row above holds the message just
/// before the one below it.
pub proof fn law_pane_is_a_window(history: Seq<String>, scrollback: int, rows: int)
    requires
        0 <= scrollback,
        0 <= rows,
        scrollback + rows <= history.len(),
    ensures
        forall|row: int|
            0 <= row < rows ==> #[trigger] shown_at(history, scrollback, rows, row)
                == history[history.len() - scrollback - rows + row]@,
        rows > 0 ==> shown_at(history, scrollback, rows, rows - 1) == history[history.len() - 1
            - scrollback]@,
        forall|row: int|
            0 < row < rows ==> #[trigger] shown_at(history, scrollback, rows, row - 1)
                == history[history.len() - scrollback - rows + row - 1]@,
{
}

/// The chat history and the scroll position of its pane.
pub struct ChatHistory {
    messages: Vec<String>,
    scrollback: usize,
}

impl ChatHistory {
    /// The messages, oldest first.
    pub closed spec fn history(&self) -> Seq<String> {
        self.messages@
    }

    /// How many messages the pane is scrolled back from the newest.
    pub closed spec fn scrolled(&self) -> usize {
        self.scrollback
    }

    /// No messages, not scrolled.
    pub fn new() -> (r: Self)
        ensures
            r.history().len() == 0,
            r.scrolled() == 0,
    {
        ChatHistory { messages: Vec::new(), scrollback: 0 }
    }

    /// How many messages the pane is scrolled back.
    pub fn scrollback(&self) -> (r: usize)
        ensures
            r == self.scrolled(),
    {
        self.scrollback
    }

    /// The messages, oldest first.
    pub fn messages(&self) -> (r: &Vec<String>)
        ensures
            r@ == self.history(),
    {
        &self.messages
    }

    /// The lines of a history pane `rows` rows high, top first; the scroll position
    /// is first pulled back so that the pane is full where there are enough messages.
    pub fn visible_lines(&mut self, rows: usize) -> (r: Vec<String>)
        requires
            old(self).scrolled() + rows <= usize::MAX,
        ensures
            final(self).history() == old(self).history(),
            final(self).scrolled() == clamped_scrollback(
                old(self).scrolled() as int,
                rows as int,
                old(self).history().len() as int,
            ),
            final(self).scrolled() <= final(self).history().len(),
            final(self).scrolled() <= old(self).scrolled(),
            final(self).history().len() >= rows ==> final(self).scrolled() + rows
                <= final(self).history().len(),
            final(self).history().len() < rows ==> final(self).scrolled() == 0,
            old(self).scrolled() + rows <= old(self).history().len() ==> final(self).scrolled()
                == old(self).scrolled(),
            old(self).scrolled() + rows > old(self).history().len() && old(self).history().len()
                >= rows ==> final(self).scrolled() + rows == final(self).history().len(),
            r@.len() == rows,
            final(self).history().len() >= rows ==> forall|row: int|
                0 <= row < rows ==> #[trigger] r@[row]@ == final(self).history()[
                    final(self).history().len() - final(self).scrolled() - rows + row]@,
            forall|row: int|
                0 <= row < rows ==> #[trigger] r@[row]@ == shown_at(
                    final(self).history(),
                    final(self).scrolled() as int,
                    rows as int,
                    row,
                ),
    {
        let len = self.messages.len();
        self.scrollback = if self.scrollback + rows > len {
            len.saturating_sub(rows)
        } else {
            self.scrollback
        };
        let scrollback = self.scrollback;
        let mut shown: Vec<String> = Vec::new();
        let mut row: usize = 0;
        while row < rows
            invariant
                0 <= row <= rows,
                len == self.messages@.len(),
                scrollback == self.scrollback,
                scrollback + rows <= usize::MAX,
                shown@.len() == row,
                forall|k: int|
                    0 <= k < row ==> #[trigger] shown@[k]@ == shown_at(
                        self.messages@,
                        scrollback as int,
                        rows as int,
                        k,
                    ),
            decreases rows - row,
        {
            let back = scrollback + (rows - 1 - row);
            if back < len {
                shown.push(self.messages[len - back - 1].clone());
            } else {
                shown.push(String::new());
            }
            row = row + 1;
        }
        shown
    }

    /// Reacts to a key press: Esc quits; Enter appends the typed lines to the
    /// history and empties the input box; Up scrolls back one message, no further
    /// than the number of messages; Down scrolls forward one, no further than the
    /// newest; any other key goes to the input box and returns to the newest message.
    pub fn handle_key(&mut self, key: ChatKey) -> (r: ChatAction)
        ensures
            old(self).scrolled() <= old(self).history().len() ==> final(self).scrolled()
                <= final(self).history().len(),
            match key {
                ChatKey::Esc => r == ChatAction::Quit && *final(self) == *old(self),
                ChatKey::Enter(lines) => {
                    &&& r == ChatAction::ClearInput
                    &&& final(self).history() == old(self).history() + lines@
                    &&& final(self).scrolled() == old(self).scrolled()
                },
                ChatKey::Up => {
                    &&& r == ChatAction::Redraw
                    &&& final(self).history() == old(self).history()
                    &&& final(self).scrolled() == (if old(self).scrolled() + 1
                        <= old(self).history().len() {
                        old(self).scrolled() + 1
                    } else {
                        old(self).history().len() as int
                    })
                },
                ChatKey::Down => {
                    &&& r == ChatAction::Redraw
                    &&& final(self).history() == old(self).history()
                    &&& final(self).scrolled() == (if old(self).scrolled() > 0 {
                        old(self).scrolled() - 1
                    } else {
                        0
                    })
                },
                ChatKey::Other => {
                    &&& r == ChatAction::ForwardInput
                    &&& final(self).history() == old(self).history()
                    &&& final(self).scrolled() == 0
                },
            },
    {
        match key {
            ChatKey::Esc => ChatAction::Quit,
            ChatKey::Enter(lines) => {
                let mut lines = lines;
                self.messages.append(&mut lines);
                ChatAction::ClearInput
            },
            ChatKey::Up => {
                let len = self.messages.len();
                self.scrollback = if self.scrollback < len {
                    self.scrollback + 1
                } else {
                    len
                };
                ChatAction::Redraw
            },
            ChatKey::Down => {
                self.scrollback = self.scrollback.saturating_sub(1);
                ChatAction::Redraw
            },
            ChatKey::Other => {
                self.scrollback = 0;
                ChatAction::ForwardInput
            },
        }
    }
}

} // verus!
