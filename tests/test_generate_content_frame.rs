use stretchbox::geometry::{content_span, generate_content_frame};
use stretchbox::{Fill, FillType, Frame, Padding, Direction, RelativeFrame};

fn horizontal(start_x: u64, end_x: u64) -> Padding {
    Padding { left: start_x, right: end_x, ..Default::default() }
}

#[test]
fn test_generate_content_frame_with_zero_length_x_and_no_padding() {
    let length_x = 0;
    let padding = Padding::default();

    let actual_content_frame = generate_content_frame(padding, length_x, 0);
    let expected_content_frame = Frame { offset_x: 0, length_x: 0, ..Default::default() };

    assert_eq!(actual_content_frame, expected_content_frame);
}

#[test]
fn test_generate_content_frame_with_no_padding() {
    let length_x = 100;
    let padding = Padding::default();

    let actual_content_frame = generate_content_frame(padding, length_x, 0);
    let expected_content_frame = Frame { offset_x: 0, length_x: 100, ..Default::default() };

    assert_eq!(actual_content_frame, expected_content_frame);
}

#[test]
fn test_generate_content_frame_with_zero_length_x() {
    let length_x = 0;
    let padding = horizontal(10, 10);

    let actual_content_frame = generate_content_frame(padding, length_x, 0);
    let expected_content_frame = Frame { offset_x: 0, length_x: 0, ..Default::default() };

    assert_eq!(actual_content_frame, expected_content_frame);
}

#[test]
fn test_generate_content_frame() {
    let length_x = 100;
    let padding = horizontal(10, 10);

    let actual_content_frame = generate_content_frame(padding, length_x, 0);
    let expected_content_frame = Frame { offset_x: 10, length_x: 80, ..Default::default() };

    assert_eq!(actual_content_frame, expected_content_frame);
}

#[test]
fn test_generate_content_frame_with_padding_start_x_greater_than_length_x() {
    let length_x = 100;
    let padding = horizontal(110, 10);

    let actual_content_frame = generate_content_frame(padding, length_x, 0);
    let expected_content_frame = Frame { offset_x: 100, length_x: 0, ..Default::default() };

    assert_eq!(actual_content_frame, expected_content_frame);
}

#[test]
fn test_generate_content_frame_with_padding_end_x_greater_than_length_x() {
    let length_x = 100;
    let padding = horizontal(10, 110);

    let actual_content_frame = generate_content_frame(padding, length_x, 0);
    let expected_content_frame = Frame { offset_x: 10, length_x: 0, ..Default::default() };

    assert_eq!(actual_content_frame, expected_content_frame);
}

#[test]
fn test_generate_content_frame_with_padding_start_x_and_end_x_greater_than_length_x() {
    let length_x = 100;
    let padding = horizontal(110, 110);

    let actual_content_frame = generate_content_frame(padding, length_x, 0);
    let expected_content_frame = Frame { offset_x: 100, length_x: 0, ..Default::default() };

    assert_eq!(actual_content_frame, expected_content_frame);
}

#[test]
fn content_frame_cuts_both_axes() {
    let padding = Padding { left: 1, right: 2, top: 3, bottom: 4 };

    assert_eq!(
        generate_content_frame(padding, 10, 20),
        Frame { offset_x: 1, length_x: 7, offset_y: 3, length_y: 13 }
    );
}

#[test]
fn content_span_clamps_to_the_axis() {
    assert_eq!(content_span(10, 4, 3), (4, 3));
    assert_eq!(content_span(10, 12, 0), (10, 0));
    assert_eq!(content_span(10, 0, 12), (0, 0));
}

#[test]
fn fills_follow_the_flow_direction() {
    let fill = Fill::Absolute { x: FillType::Exact(3), y: FillType::Minimize };
    let horizontal_fill = fill.to_relative_fill(Direction::Horizontal);
    let vertical_fill = fill.to_relative_fill(Direction::Vertical);

    assert_eq!(horizontal_fill.main, FillType::Exact(3));
    assert_eq!(horizontal_fill.cross, FillType::Minimize);
    assert_eq!(vertical_fill.main, FillType::Minimize);
    assert_eq!(vertical_fill.cross, FillType::Exact(3));
    assert_eq!(fill.to_absolute_fill(Direction::Vertical), (FillType::Exact(3), FillType::Minimize));
    assert_eq!(Fill::default(), Fill::Relative { main: FillType::Scale(1), cross: FillType::Scale(1) });
}

#[test]
fn padding_follows_the_flow_direction() {
    let padding = Padding { left: 1, right: 2, top: 3, bottom: 4 };
    let vertical = padding.to_relative_padding(Direction::Vertical);

    assert_eq!((vertical.main_start, vertical.main_end), (3, 4));
    assert_eq!((vertical.cross_start, vertical.cross_end), (1, 2));
}

#[test]
fn relative_frames_convert_back_and_forth() {
    let relative = RelativeFrame { offset_main: 1, length_main: 2, offset_cross: 3, length_cross: 4 };

    assert_eq!(relative.to_frame(Direction::Vertical), Frame { offset_x: 3, length_x: 4, offset_y: 1, length_y: 2 });
    assert_eq!(relative.to_frame(Direction::Horizontal).to_relative_frame(Direction::Horizontal), relative);
}
