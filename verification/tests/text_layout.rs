use byop_agent::text_layout::{check_text_layout, FrameMeasure, LayoutFault, LineMeasure};

fn line(end_index: usize) -> LineMeasure {
    LineMeasure { end_index, too_wide: false, missing_glyphs: 0 }
}

fn frame(ends: &[usize], narrow: bool) -> FrameMeasure {
    FrameMeasure {
        lines: ends.iter().map(|end| line(*end)).collect(),
        height_valid: true,
        narrow,
    }
}

#[test]
fn complete_layout_passes() {
    let frames = vec![frame(&[2, 4], true), frame(&[4], false)];
    assert_eq!(check_text_layout("上下文满", "ai-error-", &frames), Ok(()));
}

#[test]
fn unresolved_messages_are_refused() {
    let frames = vec![frame(&[1, 2], true)];
    assert_eq!(check_text_layout("", "ai-error-", &frames), Err(LayoutFault::Unresolved));
    assert_eq!(
        check_text_layout("see ai-error-context", "ai-error-", &frames),
        Err(LayoutFault::Unresolved)
    );
    assert_eq!(check_text_layout("{message}", "ai-error-", &frames), Err(LayoutFault::Unresolved));
}

#[test]
fn faults_of_a_frame_are_found_in_order() {
    assert_eq!(
        check_text_layout("abcd", "key", &vec![frame(&[2, 3], true)]),
        Err(LayoutFault::Incomplete { frame: 0 })
    );
    assert_eq!(
        check_text_layout("abcd", "key", &vec![frame(&[], true)]),
        Err(LayoutFault::Incomplete { frame: 0 })
    );
    let mut flat = frame(&[2, 4], true);
    flat.height_valid = false;
    assert_eq!(
        check_text_layout("abcd", "key", &vec![frame(&[4], false), flat]),
        Err(LayoutFault::InvalidHeight { frame: 1 })
    );
    assert_eq!(
        check_text_layout("abcd", "key", &vec![frame(&[4], true)]),
        Err(LayoutFault::NotWrapped { frame: 0 })
    );
    let mut wide = frame(&[2, 4], true);
    wide.lines[1].too_wide = true;
    wide.lines[1].missing_glyphs = 3;
    assert_eq!(
        check_text_layout("abcd", "key", &vec![wide]),
        Err(LayoutFault::TooWide { frame: 0, line: 1 })
    );
    let mut boxes = frame(&[2, 4], true);
    boxes.lines[0].missing_glyphs = 1;
    assert_eq!(
        check_text_layout("abcd", "key", &vec![boxes]),
        Err(LayoutFault::MissingGlyphs { frame: 0, line: 0 })
    );
}
