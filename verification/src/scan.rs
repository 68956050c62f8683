//! Line classification for a docstring body: fences, blanks, list
//! markers and their continuations.

use vstd::prelude::*;

use crate::docstring::{list_marker_chars, list_marker_spec};
use crate::text::chars_of;

verus! {

/// The classification of a docstring body line by the shared fence,
/// blank and list scanner. Every variant but `Body` is terminal for the
/// line; `Body` hands the line to the walker's own dispatch.
#[derive(Clone, Copy, Debug, PartialEq, Eq, Structural)]
pub enum LineScan {
    Blank,
    Body,
    Fence,
    InFence,
    ListContinuation,
    ListMarker,
}

/// The fence and list state a docstring walker carries across lines.
#[derive(Clone, Copy, Debug, PartialEq, Eq, Structural)]
pub struct LineScanner {
    pub body_indent_chars: usize,
    pub in_fence: bool,
    pub list_indent: Option<usize>,
}

/// True when `t` opens with a code fence, three backticks.
pub open spec fn starts_fence(t: Seq<char>) -> bool {
    t.len() >= 3 && t[0] == '`' && t[1] == '`' && t[2] == '`'
}

/// One step of the scanner: the state after the line whose text past
/// its indentation is `t` and whose indentation is `indent` characters
/// wide, and the class of that line.
///
/// A fence line toggles the fence and ends any list; inside a fence
/// every line is `InFence`; a blank line ends any list; a line indented
/// past the open list marker continues the list; a list marker at or
/// past the body indentation opens a list; anything else is `Body` and
/// ends the list.
pub open spec fn classify_spec(sc: LineScanner, t: Seq<char>, indent: usize) -> (LineScanner, LineScan) {
    if starts_fence(t) {
        (LineScanner { body_indent_chars: sc.body_indent_chars, in_fence: !sc.in_fence, list_indent: None }, LineScan::Fence)
    } else if sc.in_fence {
        (sc, LineScan::InFence)
    } else if t.len() == 0 {
        (LineScanner { body_indent_chars: sc.body_indent_chars, in_fence: sc.in_fence, list_indent: None }, LineScan::Blank)
    } else if sc.list_indent matches Some(m) && indent > m {
        (sc, LineScan::ListContinuation)
    } else if indent >= sc.body_indent_chars && list_marker_spec(t) {
        (LineScanner { body_indent_chars: sc.body_indent_chars, in_fence: sc.in_fence, list_indent: Some(indent) }, LineScan::ListMarker)
    } else {
        (LineScanner { body_indent_chars: sc.body_indent_chars, in_fence: sc.in_fence, list_indent: None }, LineScan::Body)
    }
}

impl LineScanner {
    /// A scanner for a body indented `body_indent_chars` characters,
    /// outside any fence or list.
    pub fn new(body_indent_chars: usize) -> (sc: LineScanner)
        ensures
            sc == (LineScanner { body_indent_chars, in_fence: false, list_indent: None }),
    {
        LineScanner { body_indent_chars, in_fence: false, list_indent: None }
    }

    /// The body indentation this scanner was made with.
    pub fn body_indent_chars(&self) -> (n: usize)
        ensures
            n == self.body_indent_chars,
    {
        self.body_indent_chars
    }

    /// Classifies a line held as characters; see [`classify_spec`].
    pub fn classify_chars(&mut self, t: &Vec<char>, indent_chars: usize) -> (kind: LineScan)
        ensures
            (*final(self), kind) == classify_spec(*old(self), t@, indent_chars),
    {
        if t.len() >= 3 && t[0] == '`' && t[1] == '`' && t[2] == '`' {
            self.in_fence = !self.in_fence;
            self.list_indent = None;
            return LineScan::Fence;
        }
        if self.in_fence {
            return LineScan::InFence;
        }
        if t.len() == 0 {
            self.list_indent = None;
            return LineScan::Blank;
        }
        if let Some(marker) = self.list_indent {
            if indent_chars > marker {
                return LineScan::ListContinuation;
            }
            self.list_indent = None;
        }
        if indent_chars >= self.body_indent_chars && list_marker_chars(t) {
            self.list_indent = Some(indent_chars);
            return LineScan::ListMarker;
        }
        LineScan::Body
    }

    /// Advances the state for one line and returns its class: `trimmed`
    /// is the line past its indentation, `indent_chars` the width of
    /// that indentation.
    pub fn classify(&mut self, trimmed: &str, indent_chars: usize) -> (kind: LineScan)
        ensures
            (*final(self), kind) == classify_spec(*old(self), trimmed@, indent_chars),
    {
        let t = chars_of(trimmed);
        self.classify_chars(&t, indent_chars)
    }
}

} // verus!
