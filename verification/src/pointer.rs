//! Scrolling, and what the mouse does.
use crate::app::{App, AppModel};
use crate::screen::{least, most};
use crate::text::{copy_option, decimal, number, text_option};
use crate::theme::Palette;
use crate::view::{spliced, target_from, thought_line, Selection, ViewModel, ViewState};
use vstd::prelude::*;
use vstd::string::*;

verus! {

/// How many lines a notch of the wheel scrolls.
pub const WHEEL_LINES: i32 = 3;

impl ViewModel {
    /// All that could show: the transcript and what is below it, which is one
    /// line while a turn runs and nothing streams.
    pub open spec fn all_lines(self) -> int {
        self.line_count(
            if self.busy {
                1
            } else {
                0
            },
        )
    }

    /// The height of the transcript area, at least one line.
    pub open spec fn height(self) -> int {
        most(self.area_height, 1)
    }

    /// The topmost line that shows.
    pub open spec fn shown_top(self) -> int {
        self.top(self.all_lines(), self.height())
    }

    /// The view held at a line.
    pub open spec fn held_at(self, top: int) -> ViewModel {
        ViewModel { follow: false, scroll_top: top, ..self }
    }

    /// The view `n` lines up from where it is.
    pub open spec fn lines_up(self, n: int) -> ViewModel {
        self.held_at(most(self.shown_top() - n, 0))
    }

    /// The view `n` lines down from where it is held, pinned once the last line
    /// shows.
    pub open spec fn lines_down(self, n: int) -> ViewModel {
        let top = self.scroll_top + n;
        if self.follow {
            self
        } else if top + self.height() >= self.all_lines() {
            self.at_bottom()
        } else {
            ViewModel { scroll_top: top, ..self }
        }
    }

    /// The view moved by `delta` lines, held inside the transcript, and pinned
    /// once the last line shows.
    pub open spec fn scrolled(self, delta: int) -> ViewModel {
        let last = most(self.all_lines() - self.height(), 0);
        let top = least(most(self.shown_top() + delta, 0), last);
        if top >= last {
            self.at_bottom()
        } else {
            self.held_at(top)
        }
    }

    /// No selection.
    pub open spec fn unselected(self) -> ViewModel {
        ViewModel { selection: None, selection_text: None, ..self }
    }

    /// A click: the block whose row is there opens or closes. Reasoning keeps
    /// the topmost line where it is; a tool call brings its row to the top.
    pub open spec fn clicked(self, column: u16, row: u16, p: Palette) -> ViewModel {
        let thought = match target_from(self.reasoning_hitboxes, column, row, 0) {
            Some(b) => self.toggled_reasoning(b, p),
            None => None,
        };
        let call = target_from(self.tool_hitboxes, column, row, 0);
        let tool = match call {
            Some(b) => self.toggled_tool(b),
            None => None,
        };
        match (thought, tool) {
            (Some(m), _) => m.held_at(self.shown_top()),
            (None, Some(m)) => m.held_at(self.tool_blocks[call->0].summary_index),
            (None, None) => self,
        }
    }
}

/// What the mouse did.
#[derive(Debug, Clone, Copy, PartialEq, Eq, Structural)]
pub enum MouseKind {
    ScrollUp,
    ScrollDown,
    LeftDown,
    LeftDrag,
    LeftUp,
    Other,
}

impl ViewModel {
    /// What the mouse does; rows open and close only where `quiet`.
    pub open spec fn moused(
        self,
        kind: MouseKind,
        column: u16,
        row: u16,
        quiet: bool,
        p: Palette,
    ) -> ViewModel {
        match kind {
            MouseKind::ScrollUp => self.unselected().scrolled(0 - WHEEL_LINES),
            MouseKind::ScrollDown => self.unselected().scrolled(WHEEL_LINES as int),
            MouseKind::LeftDown => ViewModel {
                copy_notice: None,
                selection: Some(Selection { anchor: (column, row), head: (column, row) }),
                ..self
            },
            MouseKind::LeftDrag => match self.selection {
                Some(s) => ViewModel {
                    selection: Some(Selection { head: (column, row), ..s }),
                    ..self
                },
                None => self,
            },
            MouseKind::LeftUp => if self.selection is Some && self.selection->0.anchor
                != self.selection->0.head {
                ViewModel { copy_pending: true, ..self }
            } else if quiet {
                self.unselected().clicked(column, row, p)
            } else {
                self.unselected()
            },
            MouseKind::Other => self,
        }
    }
}

impl ViewState {
    /// All that could show.
    pub fn total_lines(&self) -> (n: usize)
        ensures
            n == self@.all_lines(),
    {
        self.shown_line_count(
            if self.busy {
                1
            } else {
                0
            },
        )
    }

    fn shown_height(&self) -> (n: usize)
        ensures
            n == self@.height(),
    {
        if self.area_height > 1 {
            self.area_height
        } else {
            1
        }
    }

    /// The topmost line that shows.
    pub fn current_top(&self) -> (n: usize)
        ensures
            n == self@.shown_top(),
    {
        self.top_line(self.total_lines(), self.shown_height())
    }

    fn hold_at(&mut self, top: usize)
        ensures
            final(self)@ == old(self)@.held_at(top as int),
    {
        self.follow = false;
        self.scroll_top = top;
    }

    pub fn scroll_line_up(&mut self)
        ensures
            final(self)@ == old(self)@.lines_up(1),
    {
        let top: usize = self.current_top();
        self.hold_at(top.saturating_sub(1));
    }

    fn scroll_down(&mut self, n: usize)
        ensures
            final(self)@ == old(self)@.lines_down(n as int),
    {
        if self.follow {
            return;
        }
        let total: usize = self.total_lines();
        let h: usize = self.shown_height();
        let top: usize = self.scroll_top.saturating_add(n);
        if top.saturating_add(h) >= total {
            self.jump_to_bottom();
        } else {
            self.scroll_top = top;
        }
    }

    pub fn scroll_line_down(&mut self)
        ensures
            final(self)@ == old(self)@.lines_down(1),
    {
        self.scroll_down(1);
    }

    pub fn scroll_page_up(&mut self)
        ensures
            final(self)@ == old(self)@.lines_up(old(self)@.height()),
    {
        let top: usize = self.current_top();
        let h: usize = self.shown_height();
        self.hold_at(top.saturating_sub(h));
    }

    pub fn scroll_page_down(&mut self)
        ensures
            final(self)@ == old(self)@.lines_down(old(self)@.height()),
    {
        let h: usize = self.shown_height();
        self.scroll_down(h);
    }

    /// Move the view by `delta` lines, up where it is negative.
    pub fn scroll_by(&mut self, delta: i32)
        ensures
            final(self)@ == old(self)@.scrolled(delta as int),
    {
        let total: usize = self.total_lines();
        let h: usize = self.shown_height();
        let last: usize = total.saturating_sub(h);
        let top: usize = self.current_top();
        let to: i128 = top as i128 + delta as i128;
        if to >= last as i128 || last == 0 {
            self.jump_to_bottom();
        } else if to <= 0 {
            self.hold_at(0);
        } else {
            self.hold_at(to as usize);
        }
    }

    /// Drop any selection and its text.
    pub fn clear_selection(&mut self)
        ensures
            final(self)@ == old(self)@.unselected(),
    {
        self.selection = None;
        self.selection_text = None;
    }

    /// Open or close the block whose row was clicked.
    pub fn toggle_expandable_at(&mut self, column: u16, row: u16, p: Palette)
        ensures
            final(self)@ == old(self)@.clicked(column, row, p),
    {
        let top: usize = self.current_top();
        match self.toggle_reasoning_at(column, row, p) {
            Some(_) => {
                self.hold_at(top);
                return;
            },
            None => {},
        }
        match self.toggle_tool_at(column, row) {
            Some(t) => self.hold_at(t.summary_index),
            None => {},
        }
    }

    /// Do what the mouse asks for.
    fn mouse(&mut self, kind: MouseKind, column: u16, row: u16, quiet: bool, p: Palette)
        ensures
            final(self)@ == old(self)@.moused(kind, column, row, quiet, p),
    {
        match kind {
            MouseKind::ScrollUp => {
                self.clear_selection();
                self.scroll_by(-WHEEL_LINES);
            },
            MouseKind::ScrollDown => {
                self.clear_selection();
                self.scroll_by(WHEEL_LINES);
            },
            MouseKind::LeftDown => {
                self.copy_notice = None;
                self.selection = Some(Selection { anchor: (column, row), head: (column, row) });
            },
            MouseKind::LeftDrag => match self.selection {
                Some(s) => {
                    self.selection = Some(Selection { anchor: s.anchor, head: (column, row) });
                },
                None => {},
            },
            MouseKind::LeftUp => {
                let dragged: bool = match &self.selection {
                    Some(s) => !s.is_empty(),
                    None => false,
                };
                if dragged {
                    self.copy_pending = true;
                } else {
                    self.clear_selection();
                    if quiet {
                        self.toggle_expandable_at(column, row, p);
                    }
                }
            },
            MouseKind::Other => {},
        }
    }

    /// The text of a finished drag, to be copied, once the frame that shows it
    /// has been drawn.
    pub fn flush_copy(&mut self) -> (r: Option<String>)
        ensures
            final(self)@ == (ViewModel { copy_pending: false, ..old(self)@ }),
            text_option(r) == (if old(self)@.copy_pending {
                old(self)@.selection_text
            } else {
                None
            }),
    {
        if !self.copy_pending {
            return None;
        }
        self.copy_pending = false;
        copy_option(&self.selection_text)
    }

    /// A text has been copied: say so for a while.
    pub fn copied(&mut self, text: &str, now: u64)
        ensures
            final(self)@ == (ViewModel {
                copy_notice: Some(("copied "@ + decimal(text@.len()) + " chars"@, now)),
                ..old(self)@
            }),
    {
        let n: usize = text.unicode_len();
        let note: String = "copied ".to_owned().concat(number(n as u64).as_str()).concat(" chars");
        self.copy_notice = Some((note, now));
    }
}

impl App {
    /// Do what the mouse asks for. Rows stay as they are while calls are in
    /// flight.
    pub fn handle_mouse(&mut self, kind: MouseKind, column: u16, row: u16, p: Palette)
        ensures
            final(self)@ == (AppModel {
                view: old(self)@.view.moused(
                    kind,
                    column,
                    row,
                    old(self)@.live_tools.len() == 0,
                    p,
                ),
                ..old(self)@
            }),
    {
        let quiet: bool = self.live_tools.len() == 0;
        self.view.mouse(kind, column, row, quiet, p);
    }
}

/// Opening a thought with a click keeps the topmost line where it is, so that
/// the thought's row does not move on the screen.
pub proof fn a_clicked_thought_opens_downwards(m: ViewModel, column: u16, row: u16, p: Palette)
    requires
        target_from(m.reasoning_hitboxes, column, row, 0) is Some,
        ({
            let b = target_from(m.reasoning_hitboxes, column, row, 0)->0;
            m.toggled_reasoning(b, p) is Some && !m.reasoning_blocks[b].expanded && 0
                <= m.reasoning_blocks[b].summary_index
        }),
    ensures
        m.clicked(column, row, p).shown_top() == m.shown_top(),
{
    let b = target_from(m.reasoning_hitboxes, column, row, 0)->0;
    let n = m.clicked(column, row, p);
    let s = m.reasoning_blocks[b].summary_index;
    let row = thought_line(m.reasoning_blocks[b].elapsed, true, p);
    assert(n.transcript == spliced(
        m.transcript,
        s,
        1,
        seq![row] + m.reasoning_blocks[b].body,
    ));
    assert(n.transcript.len() >= m.transcript.len());
}

/// Scrolling never leaves the transcript, whatever was held before.
pub proof fn scrolling_stays_inside(m: ViewModel, delta: int)
    ensures
        0 <= m.scrolled(delta).shown_top() <= most(m.all_lines() - m.height(), 0),
        m.scrolled(delta).all_lines() == m.all_lines(),
{
}

} // verus!
