use termlang::renderer::{load_pixel, write_colors, write_cursor_move, write_u8, RenderError, RenderState};
use termlang::sigma::Sigma;

#[test]
fn numbers_are_written_in_decimal() {
    for (n, text) in [(0u8, "0"), (7, "7"), (42, "42"), (100, "100"), (255, "255")] {
        let mut buf = Vec::new();
        write_u8(&mut buf, n);
        assert_eq!(buf, text.as_bytes());
    }
}

#[test]
fn cursor_moves_are_escape_sequences() {
    let mut buf = b"x".to_vec();
    write_cursor_move(&mut buf, 3, 12);
    assert_eq!(buf, b"x\x1B[3;12H");
}

#[test]
fn colors_set_foreground_and_background() {
    let mut buf = Vec::new();
    write_colors(&mut buf, (1, 2, 3), (255, 0, 10));
    assert_eq!(buf, b"\x1B[38;2;1;2;3;48;2;255;0;10m");
}

#[test]
fn load_pixel_reads_three_channels() {
    let mut sigma = Sigma::new(2, 2);
    sigma.set_cell(1, 0, 0, 10);
    sigma.set_cell(1, 0, 1, 20);
    sigma.set_cell(1, 0, 2, 30);
    assert_eq!(load_pixel(&sigma, 1, 0), (10, 20, 30));
}

#[test]
fn the_first_frame_draws_every_cell_that_is_not_white() {
    let sigma = Sigma::new(1, 3);
    let mut state = RenderState::build_initial(&sigma);
    let mut buf = b"old".to_vec();
    assert_eq!(state.write_changes(&sigma, &mut buf, Some((80, 24)), &b"T".to_vec()), Ok(()));
    let mut expected = Vec::new();
    expected.extend_from_slice(b"\x1B[?2026h");
    expected.extend_from_slice(b"\x1B[1;1H\x1B[38;2;0;0;0;48;2;0;0;0m\xE2\x96\x80");
    expected.extend_from_slice(b"\x1B[2;1H\x1B[38;2;0;0;0;49m\xE2\x96\x80");
    expected.extend_from_slice(b"\x1B[3;1H\x1B[0m\x1B[2KT\x1B[0m\x1B[?2026l");
    assert_eq!(buf, expected);
}

#[test]
fn an_unchanged_memory_redraws_nothing() {
    let sigma = Sigma::new(2, 3);
    let mut state = RenderState::build_initial(&sigma);
    let mut buf = Vec::new();
    assert_eq!(state.write_changes(&sigma, &mut buf, Some((80, 24)), &b"T".to_vec()), Ok(()));
    assert_eq!(state.write_changes(&sigma, &mut buf, Some((80, 24)), &b"T".to_vec()), Ok(()));
    assert_eq!(buf, b"\x1B[?2026h\x1B[3;1H\x1B[0m\x1B[2KT\x1B[0m\x1B[?2026l");
}

#[test]
fn only_the_changed_cell_is_redrawn() {
    let mut sigma = Sigma::new(3, 2);
    let mut state = RenderState::build_initial(&sigma);
    let mut buf = Vec::new();
    assert_eq!(state.write_changes(&sigma, &mut buf, Some((80, 24)), &b"T".to_vec()), Ok(()));
    sigma.set_cell(1, 2, 0, 255);
    assert_eq!(state.write_changes(&sigma, &mut buf, Some((80, 24)), &b"T".to_vec()), Ok(()));
    let mut expected = Vec::new();
    expected.extend_from_slice(b"\x1B[?2026h");
    expected.extend_from_slice(b"\x1B[1;3H\x1B[38;2;0;0;0;48;2;255;0;0m\xE2\x96\x80");
    expected.extend_from_slice(b"\x1B[2;1H\x1B[0m\x1B[2KT\x1B[0m\x1B[?2026l");
    assert_eq!(buf, expected);
}

#[test]
fn a_terminal_too_small_is_reported() {
    let sigma = Sigma::new(10, 4);
    let mut state = RenderState::build_initial(&sigma);
    let mut buf = b"kept".to_vec();
    assert_eq!(state.write_changes(&sigma, &mut buf, Some((9, 24)), &b"T".to_vec()), Err(RenderError::TerminalTooSmall));
    assert_eq!(state.write_changes(&sigma, &mut buf, Some((10, 1)), &b"T".to_vec()), Err(RenderError::TerminalTooSmall));
    assert_eq!(buf, b"kept");
    assert_eq!(state.write_changes(&sigma, &mut buf, Some((10, 2)), &b"T".to_vec()), Ok(()));
}

#[test]
fn an_unknown_terminal_is_reported() {
    let sigma = Sigma::new(1, 1);
    let mut state = RenderState::build_initial(&sigma);
    let mut buf = Vec::new();
    assert_eq!(state.write_changes(&sigma, &mut buf, None, &b"T".to_vec()), Err(RenderError::TerminalUnknown));
    assert!(buf.is_empty());
}

#[test]
fn a_frame_ends_with_its_status_and_the_end_of_the_update() {
    let sigma = Sigma::new(1, 2);
    let mut state = RenderState::build_initial(&sigma);
    let mut buf = Vec::new();
    assert_eq!(state.write_changes(&sigma, &mut buf, Some((80, 24)), &b"Frame Time: 1ms".to_vec()), Ok(()));
    assert!(buf.starts_with(b"\x1B[?2026h"));
    assert!(buf.ends_with(b"\x1B[2;1H\x1B[0m\x1B[2KFrame Time: 1ms\x1B[0m\x1B[?2026l"));
}
