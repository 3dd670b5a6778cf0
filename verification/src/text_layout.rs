//! Judges whether an error message was laid out completely in a narrow area.

use vstd::prelude::*;
use crate::text;
use crate::text::{chars_of, stands_in};

verus! {

/// What was measured of one line.
#[derive(Debug, Clone, Copy, PartialEq, Eq, Structural)]
pub struct LineMeasure {
    /// The number of characters up to the end of the line.
    pub end_index: usize,
    /// The visible part is wider than the area. White space at the end is not visible.
    pub too_wide: bool,
    /// Characters that the font cannot show.
    pub missing_glyphs: usize,
}

/// What was measured of a message in an area.
#[derive(Debug, Clone, PartialEq, Eq)]
pub struct FrameMeasure {
    pub lines: Vec<LineMeasure>,
    /// The height is a number greater than zero.
    pub height_valid: bool,
    /// The area is so narrow that the message has to wrap.
    pub narrow: bool,
}

/// What is wrong with a layout. A frame and a line are named by their positions.
#[derive(Debug, Clone, Copy, PartialEq, Eq, Structural)]
pub enum LayoutFault {
    /// The message is empty, shows its key or still has a placeholder.
    Unresolved,
    /// The last line does not end with the last character.
    Incomplete { frame: usize },
    InvalidHeight { frame: usize },
    NotWrapped { frame: usize },
    TooWide { frame: usize, line: usize },
    MissingGlyphs { frame: usize, line: usize },
}

/// The message was found and all of its placeholders were filled in.
pub open spec fn resolved(message: Seq<char>, key: Seq<char>) -> bool {
    message.len() > 0 && !text::occurs(message, key) && !message.contains('{')
}

pub open spec fn line_fault(line: LineMeasure, frame: int, k: int) -> Option<LayoutFault> {
    if line.too_wide {
        Some(LayoutFault::TooWide { frame: frame as usize, line: k as usize })
    } else if line.missing_glyphs > 0 {
        Some(LayoutFault::MissingGlyphs { frame: frame as usize, line: k as usize })
    } else {
        None
    }
}

/// The first fault among the lines from `k` on.
pub open spec fn lines_fault(lines: Seq<LineMeasure>, frame: int, k: int) -> Option<LayoutFault>
    decreases lines.len() - k,
{
    if k < 0 || k >= lines.len() {
        None
    } else {
        match line_fault(lines[k], frame, k) {
            Some(fault) => Some(fault),
            None => lines_fault(lines, frame, k + 1),
        }
    }
}

/// The first fault of one frame.
pub open spec fn frame_fault(f: FrameMeasure, length: nat, frame: int) -> Option<LayoutFault> {
    if f.lines@.len() == 0 || f.lines@.last().end_index != length {
        Some(LayoutFault::Incomplete { frame: frame as usize })
    } else if !f.height_valid {
        Some(LayoutFault::InvalidHeight { frame: frame as usize })
    } else if f.narrow && f.lines@.len() < 2 {
        Some(LayoutFault::NotWrapped { frame: frame as usize })
    } else {
        lines_fault(f.lines@, frame, 0)
    }
}

/// The first fault among the frames from `k` on.
pub open spec fn frames_fault(frames: Seq<FrameMeasure>, length: nat, k: int) -> Option<LayoutFault>
    decreases frames.len() - k,
{
    if k < 0 || k >= frames.len() {
        None
    } else {
        match frame_fault(frames[k], length, k) {
            Some(fault) => Some(fault),
            None => frames_fault(frames, length, k + 1),
        }
    }
}

/// The first fault of a message.
pub open spec fn layout_fault(
    message: Seq<char>,
    key: Seq<char>,
    frames: Seq<FrameMeasure>,
) -> Option<LayoutFault> {
    if !resolved(message, key) {
        Some(LayoutFault::Unresolved)
    } else {
        frames_fault(frames, message.len(), 0)
    }
}

fn is_resolved(message: &Vec<char>, key: &str) -> (r: bool)
    ensures
        r == resolved(message@, key@),
{
    if message.len() == 0 {
        return false;
    }
    let name: Vec<char> = chars_of(key);
    if stands_in(message, &name) {
        return false;
    }
    let mut i: usize = 0;
    while i < message.len()
        invariant
            i <= message.len(),
            forall|k: int| 0 <= k < i ==> #[trigger] message@[k] != '{',
        decreases message.len() - i,
    {
        if message[i] == '{' {
            assert(message@.contains('{'));
            return false;
        }
        i += 1;
    }
    true
}

fn check_lines(lines: &Vec<LineMeasure>, frame: usize) -> (r: Result<(), LayoutFault>)
    ensures
        match r {
            Ok(_) => lines_fault(lines@, frame as int, 0) is None,
            Err(fault) => lines_fault(lines@, frame as int, 0) == Some(fault),
        },
{
    let mut k: usize = 0;
    while k < lines.len()
        invariant
            k <= lines.len(),
            lines_fault(lines@, frame as int, 0) == lines_fault(lines@, frame as int, k as int),
        decreases lines.len() - k,
    {
        if lines[k].too_wide {
            return Err(LayoutFault::TooWide { frame, line: k });
        }
        if lines[k].missing_glyphs > 0 {
            return Err(LayoutFault::MissingGlyphs { frame, line: k });
        }
        k += 1;
    }
    Ok(())
}

/// Checks the layout of a message in every area it was measured in. `key` is a text that
/// shows only where the message was not found.
pub fn check_text_layout(message: &str, key: &str, frames: &Vec<FrameMeasure>) -> (r: Result<
    (),
    LayoutFault,
>)
    ensures
        match r {
            Ok(_) => layout_fault(message@, key@, frames@) is None,
            Err(fault) => layout_fault(message@, key@, frames@) == Some(fault),
        },
{
    let chars: Vec<char> = chars_of(message);
    if !is_resolved(&chars, key) {
        return Err(LayoutFault::Unresolved);
    }
    let mut frame: usize = 0;
    while frame < frames.len()
        invariant
            frame <= frames.len(),
            chars@ == message@,
            resolved(message@, key@),
            frames_fault(frames@, message@.len(), 0) == frames_fault(
                frames@,
                message@.len(),
                frame as int,
            ),
        decreases frames.len() - frame,
    {
        let f: &FrameMeasure = &frames[frame];
        let count: usize = f.lines.len();
        if count == 0 || f.lines[count - 1].end_index != chars.len() {
            return Err(LayoutFault::Incomplete { frame });
        }
        if !f.height_valid {
            return Err(LayoutFault::InvalidHeight { frame });
        }
        if f.narrow && count < 2 {
            return Err(LayoutFault::NotWrapped { frame });
        }
        check_lines(&f.lines, frame)?;
        frame += 1;
    }
    Ok(())
}

/// A layout is without fault exactly where the message was found, shows neither its key nor a
/// placeholder, and is laid out in every area up to its last character, with a valid height,
/// wrapped where the area is narrow, and with no line too wide or with missing characters.
pub proof fn law_when_a_layout_is_complete(
    message: Seq<char>,
    key: Seq<char>,
    frames: Seq<FrameMeasure>,
)
    ensures
        layout_fault(message, key, frames) is None <==> {
            &&& message.len() > 0
            &&& !exists|at: int|
                0 <= at && at + key.len() <= message.len() && #[trigger] message.subrange(
                    at,
                    at + key.len(),
                ) == key
            &&& forall|i: int| 0 <= i < message.len() ==> #[trigger] message[i] != '{'
            &&& forall|f: int|
                0 <= f < frames.len() ==> {
                    let lines = (#[trigger] frames[f]).lines@;
                    &&& lines.len() > 0
                    &&& lines.last().end_index == message.len()
                    &&& frames[f].height_valid
                    &&& frames[f].narrow ==> lines.len() >= 2
                    &&& forall|l: int|
                        0 <= l < lines.len() ==> !(#[trigger] lines[l]).too_wide
                            && lines[l].missing_glyphs == 0
                }
        },
{
    lemma_frames_clean(frames, message.len(), 0);
    if text::occurs(message, key) {
        let at = choose|at: int| text::occurs_at(message, key, at);
        assert(message.subrange(at, at + key.len()) == key);
    }
    if exists|at: int|
        0 <= at && at + key.len() <= message.len() && #[trigger] message.subrange(
            at,
            at + key.len(),
        ) == key {
        let at = choose|at: int|
            0 <= at && at + key.len() <= message.len() && #[trigger] message.subrange(
                at,
                at + key.len(),
            ) == key;
        assert(text::occurs_at(message, key, at));
    }
}

/// Nothing is wrong with a frame.
spec fn clean(frame: FrameMeasure, length: nat) -> bool {
    let lines = frame.lines@;
    &&& lines.len() > 0
    &&& lines.last().end_index == length
    &&& frame.height_valid
    &&& frame.narrow ==> lines.len() >= 2
    &&& forall|l: int|
        0 <= l < lines.len() ==> !(#[trigger] lines[l]).too_wide && lines[l].missing_glyphs == 0
}

proof fn lemma_lines_clean(lines: Seq<LineMeasure>, frame: int, k: int)
    requires
        0 <= k <= lines.len(),
    ensures
        lines_fault(lines, frame, k) is None <==> forall|l: int|
            k <= l < lines.len() ==> !(#[trigger] lines[l]).too_wide && lines[l].missing_glyphs == 0,
    decreases lines.len() - k,
{
    if k < lines.len() {
        lemma_lines_clean(lines, frame, k + 1);
    }
}

proof fn lemma_frame_clean(frame: FrameMeasure, length: nat, k: int)
    ensures
        frame_fault(frame, length, k) is None <==> clean(frame, length),
{
    lemma_lines_clean(frame.lines@, k, 0);
}

proof fn lemma_frames_clean(frames: Seq<FrameMeasure>, length: nat, k: int)
    requires
        0 <= k <= frames.len(),
    ensures
        frames_fault(frames, length, k) is None <==> forall|f: int|
            k <= f < frames.len() ==> clean(#[trigger] frames[f], length),
    decreases frames.len() - k,
{
    if k < frames.len() {
        lemma_frame_clean(frames[k], length, k);
        lemma_frames_clean(frames, length, k + 1);
    }
}

/// The fault that is named is there, in the frame and the line that are named, and no earlier
/// frame has any.
pub proof fn law_named_fault_is_the_first(
    message: Seq<char>,
    key: Seq<char>,
    frames: Seq<FrameMeasure>,
    fault: LayoutFault,
    earlier: int,
)
    requires
        layout_fault(message, key, frames) == Some(fault),
        frames.len() <= usize::MAX,
        forall|f: int| 0 <= f < frames.len() ==> (#[trigger] frames[f]).lines@.len() <= usize::MAX,
    ensures
        fault is Unresolved <==> message.len() == 0 || text::occurs(message, key)
            || message.contains('{'),
        match fault {
            LayoutFault::Unresolved => true,
            LayoutFault::Incomplete { frame } => frame < frames.len() && (
            frames[frame as int].lines@.len() == 0 || frames[frame as int].lines@.last().end_index
                != message.len()),
            LayoutFault::InvalidHeight { frame } => frame < frames.len()
                && !frames[frame as int].height_valid,
            LayoutFault::NotWrapped { frame } => frame < frames.len() && frames[frame as int].narrow
                && frames[frame as int].lines@.len() < 2,
            LayoutFault::TooWide { frame, line } => frame < frames.len() && line
                < frames[frame as int].lines@.len()
                && frames[frame as int].lines@[line as int].too_wide,
            LayoutFault::MissingGlyphs { frame, line } => frame < frames.len() && line
                < frames[frame as int].lines@.len()
                && frames[frame as int].lines@[line as int].missing_glyphs > 0,
        },
        ({
            let frame = match fault {
                LayoutFault::Unresolved => 0,
                LayoutFault::Incomplete { frame } => frame,
                LayoutFault::InvalidHeight { frame } => frame,
                LayoutFault::NotWrapped { frame } => frame,
                LayoutFault::TooWide { frame, line } => frame,
                LayoutFault::MissingGlyphs { frame, line } => frame,
            };
            0 <= earlier < frame && earlier < frames.len() ==> layout_fault(
                message,
                key,
                seq![frames[earlier]],
            ) is None
        }),
{
    if resolved(message, key) {
        lemma_first_frame(frames, message.len(), 0);
        let frame = choose|f: int|
            0 <= f < frames.len() && frame_fault(#[trigger] frames[f], message.len(), f) == Some(
                fault,
            ) && forall|g: int| 0 <= g < f ==> clean(#[trigger] frames[g], message.len());
        lemma_first_line(frames[frame].lines@, frame, 0);
        if 0 <= earlier < frame {
            let one = seq![frames[earlier]];
            assert(clean(frames[earlier], message.len()));
            assert(clean(one[0], message.len()));
            lemma_frames_clean(one, message.len(), 0);
        }
    }
}

proof fn lemma_first_frame(frames: Seq<FrameMeasure>, length: nat, k: int)
    requires
        0 <= k <= frames.len(),
        frames_fault(frames, length, k) is Some,
    ensures
        exists|f: int|
            k <= f < frames.len() && frame_fault(#[trigger] frames[f], length, f) == frames_fault(
                frames,
                length,
                k,
            ) && forall|g: int| k <= g < f ==> clean(#[trigger] frames[g], length),
    decreases frames.len() - k,
{
    lemma_frame_clean(frames[k], length, k);
    if frame_fault(frames[k], length, k) is None {
        lemma_first_frame(frames, length, k + 1);
        let f = choose|f: int|
            k + 1 <= f < frames.len() && frame_fault(#[trigger] frames[f], length, f)
                == frames_fault(frames, length, k + 1) && forall|g: int|
                k + 1 <= g < f ==> clean(#[trigger] frames[g], length);
        assert(frame_fault(frames[f], length, f) == frames_fault(frames, length, k));
    } else {
        assert(frame_fault(frames[k], length, k) == frames_fault(frames, length, k));
    }
}

proof fn lemma_first_line(lines: Seq<LineMeasure>, frame: int, k: int)
    requires
        0 <= k <= lines.len(),
    ensures
        lines_fault(lines, frame, k) is Some ==> exists|l: int|
            k <= l < lines.len() && line_fault(#[trigger] lines[l], frame, l) == lines_fault(
                lines,
                frame,
                k,
            ),
    decreases lines.len() - k,
{
    if k < lines.len() {
        lemma_first_line(lines, frame, k + 1);
        if line_fault(lines[k], frame, k) is None && lines_fault(lines, frame, k + 1) is Some {
            let l = choose|l: int|
                k + 1 <= l < lines.len() && line_fault(#[trigger] lines[l], frame, l)
                    == lines_fault(lines, frame, k + 1);
            assert(line_fault(lines[l], frame, l) == lines_fault(lines, frame, k));
        } else if line_fault(lines[k], frame, k) is Some {
            assert(line_fault(lines[k], frame, k) == lines_fault(lines, frame, k));
        }
    }
}

} // verus!
