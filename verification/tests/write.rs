use bstr::BStr;
use bvh_anim::write::SinkProgress;
use bvh_anim::{
    Builder, Bvh, ChannelType, Decimal, IndentStyle, LineTerminator, WriteError, WriteOptions,
    WriteOptionsIterState,
};
use mint::Vector3;
use std::time::Duration;

fn dec(text: &str) -> Decimal {
    Decimal::parse(text.as_bytes()).unwrap()
}

fn offset(x: &str, y: &str, z: &str) -> Vector3<Decimal> {
    Vector3 { x: dec(x), y: dec(y), z: dec(z) }
}

fn unix() -> WriteOptions {
    WriteOptions::new().with_line_terminator(LineTerminator::Unix)
}

fn text_of(options: &WriteOptions, bvh: &Bvh) -> String {
    assert!(bvh.has_valid_motion());
    let bytes: Vec<u8> = options.write_to_string(bvh).into();
    String::from_utf8(bytes).unwrap()
}

fn three_joints() -> Bvh {
    Builder::with_root_joint(BStr::new("Hips"), offset("0", "0", "0"), &[])
        .push_child_with_parent(1, BStr::new("Left"), offset("1", "0", "0"), &[], 0)
        .push_child_with_parent(1, BStr::new("Right"), offset("-1", "0", "0"), &[], 0)
        .with_motion(0, Duration::from_nanos(0))
        .build()
        .unwrap()
}

#[test]
fn write_empty_document() {
    let empty = Bvh::default();
    assert_eq!(
        text_of(&unix(), &empty),
        "HIERARCHY\nMOTION\nFrames: 0\nFrame Time: 0.0000000\n"
    );
    assert_eq!(
        text_of(&unix().with_line_terminator(LineTerminator::Windows), &empty),
        "HIERARCHY\r\nMOTION\r\nFrames: 0\r\nFrame Time: 0.0000000\r\n"
    );
    let parsed = bvh_anim::from_bytes(b"HIERARCHY\nMOTION\n").unwrap();
    let written = text_of(&unix(), &parsed);
    assert_eq!(written, text_of(&unix(), &empty));
    let again = bvh_anim::from_bytes(written.as_bytes()).unwrap();
    assert_eq!(again.joints().len(), 0);
    assert_eq!(again.num_channels(), 0);
    assert_eq!(again.num_frames(), 0);
    assert_eq!(text_of(&unix(), &again), written);
}

#[test]
fn write_three_joints_at_depths_0_1_1() {
    let text = text_of(&unix().with_offset_significant_figures(1), &three_joints());
    assert_eq!(
        text,
        "HIERARCHY\n\
         ROOT Hips\n\
         {\n\
         \tOFFSET 0.0 0.0 0.0\n\
         \tCHANNELS 0 \n\
         \tJOINT Left\n\
         \t{\n\
         \t\tOFFSET 1.0 0.0 0.0\n\
         \t\tCHANNELS 0 \n\
         \t}\n\
         \tJOINT Right\n\
         \t{\n\
         \t\tOFFSET -1.0 0.0 0.0\n\
         \t\tCHANNELS 0 \n\
         \t}\n\
         }\n\
         MOTION\n\
         Frames: 0\n\
         Frame Time: 0.0000000\n"
    );
    assert_eq!(text.matches('{').count(), 3);
    assert_eq!(text.matches('}').count(), 3);
}

#[test]
fn write_offset_with_two_fractional_digits() {
    let bvh = Builder::with_root_joint(BStr::new("Root"), offset("1.0", "2.5", "-3.333333"), &[])
        .with_motion(0, Duration::from_nanos(0))
        .build()
        .unwrap();
    let text = text_of(&unix().with_offset_significant_figures(2), &bvh);
    assert!(text.contains("OFFSET 1.00 2.50 -3.33\n"), "{}", text);
}

#[test]
fn write_full_document_with_end_sites_and_frames() {
    let kinds = [ChannelType::PositionX, ChannelType::RotationZ];
    let bvh = Builder::with_root_joint(BStr::new("Base"), offset("0", "0", "0"), &kinds)
        .push_child(1, BStr::new("Mid"), offset("0", "0", "15"), &[ChannelType::RotationY])
        .push_child(2, BStr::new("Tip"), offset("0", "0", "30"), &[])
        .push_end(offset("0", "0", "45"))
        .push_child_with_parent(1, BStr::new("Side"), offset("0", "15", "0"), &[], 0)
        .push_end(offset("0", "45", "0"))
        .with_motion(2, Duration::from_nanos(33_333_333))
        .push_frame(&[dec("1"), dec("2.25"), dec("-3.555")])
        .push_frame(&[dec("4"), dec("5"), dec("6")])
        .build()
        .unwrap();
    let options = unix()
        .with_indent(IndentStyle::with_spaces(2))
        .with_offset_significant_figures(1)
        .with_motion_values_significant_figures(2)
        .with_frame_time_significant_figures(7);
    assert_eq!(
        text_of(&options, &bvh),
        "HIERARCHY\n\
         ROOT Base\n\
         {\n\
         \x20 OFFSET 0.0 0.0 0.0\n\
         \x20 CHANNELS 2 Xposition Zrotation\n\
         \x20 JOINT Mid\n\
         \x20 {\n\
         \x20   OFFSET 0.0 0.0 15.0\n\
         \x20   CHANNELS 1 Yrotation\n\
         \x20   JOINT Tip\n\
         \x20   {\n\
         \x20     OFFSET 0.0 0.0 30.0\n\
         \x20     CHANNELS 0 \n\
         \x20     End Site\n\
         \x20     {\n\
         \x20       OFFSET 0.0 0.0 45.0\n\
         \x20     }\n\
         \x20   }\n\
         \x20 }\n\
         \x20 JOINT Side\n\
         \x20 {\n\
         \x20   OFFSET 0.0 15.0 0.0\n\
         \x20   CHANNELS 0 \n\
         \x20   End Site\n\
         \x20   {\n\
         \x20     OFFSET 0.0 45.0 0.0\n\
         \x20   }\n\
         \x20 }\n\
         }\n\
         MOTION\n\
         Frames: 2\n\
         Frame Time: 0.0333333\n\
         1.00 2.25 -3.56\n\
         4.00 5.00 6.00\n"
    );
}

#[test]
fn write_without_indentation() {
    let text = text_of(
        &unix().with_indent(IndentStyle::NoIndentation).with_offset_significant_figures(0),
        &three_joints(),
    );
    assert!(text.starts_with("HIERARCHY\nROOT Hips\n{\nOFFSET 0 0 0\nCHANNELS 0 \nJOINT Left\n{\n"));
    assert!(!text.contains('\t'));
}

#[test]
fn write_chunks_join_to_the_whole_text() {
    let bvh = three_joints();
    let options = unix();
    let mut state = WriteOptionsIterState::new();
    let mut chunk = Vec::new();
    let mut joined = Vec::new();
    let mut steps = 0;
    let mut empty_steps = 0;
    while options.next_chunk(&bvh, &mut chunk, &mut state) {
        steps += 1;
        if chunk.is_empty() {
            empty_steps += 1;
        }
        joined.extend_from_slice(&chunk);
    }
    assert_eq!(steps, 9 + 4 * 3);
    assert_eq!(empty_steps, 6);
    assert_eq!(String::from_utf8(joined).unwrap(), text_of(&options, &bvh));
    assert!(!options.next_chunk(&bvh, &mut chunk, &mut state));
    assert!(chunk.is_empty());
    let mut sink = b"seen: ".to_vec();
    assert_eq!(options.write(&bvh, &mut sink), Ok(()));
    assert!(sink.starts_with(b"seen: HIERARCHY\n"));
}

#[test]
fn write_options_defaults_and_setters() {
    let options = WriteOptions::new();
    assert_eq!(options.indent, IndentStyle::Tabs);
    assert_eq!(options.offset_significant_figures, 5);
    assert_eq!(options.frame_time_significant_figures, 7);
    assert_eq!(options.motion_values_significant_figures, 2);
    assert_eq!(options, WriteOptions::default());
    let changed = options
        .with_indent(IndentStyle::with_spaces(4))
        .with_line_terminator(LineTerminator::Windows)
        .with_offset_significant_figures(1)
        .with_frame_time_significant_figures(2)
        .with_motion_values_significant_figures(3);
    assert_eq!(changed.indent, IndentStyle::Spaces(4));
    assert_eq!(changed.line_terminator, LineTerminator::Windows);
    assert_eq!(changed.offset_significant_figures, 1);
    assert_eq!(changed.frame_time_significant_figures, 2);
    assert_eq!(changed.motion_values_significant_figures, 3);
}

#[test]
fn indent_styles() {
    assert_eq!(IndentStyle::with_spaces(0), IndentStyle::NoIndentation);
    assert_eq!(IndentStyle::with_spaces(3), IndentStyle::Spaces(3));
    assert_eq!(IndentStyle::default(), IndentStyle::Tabs);
    assert_eq!(IndentStyle::Tabs.prefix_chars(3), b"\t\t\t");
    assert_eq!(IndentStyle::Spaces(2).prefix_chars(3), b"      ");
    assert_eq!(IndentStyle::NoIndentation.prefix_chars(3), b"");
    assert_eq!(IndentStyle::Tabs.prefix_chars(0), b"");
}

#[test]
fn line_terminators() {
    assert_eq!(LineTerminator::Unix.as_str(), "\n");
    assert_eq!(LineTerminator::Windows.as_str(), "\r\n");
    assert_eq!(LineTerminator::Unix.as_escaped_str(), "\\n");
    assert_eq!(LineTerminator::Windows.as_escaped_str(), "\\r\\n");
    assert_eq!(LineTerminator::Unix.as_bstr(), BStr::new("\n"));
    assert_eq!(LineTerminator::Windows.as_bstr(), BStr::new("\r\n"));
    assert_eq!(LineTerminator::Unix.as_escaped_bstr(), BStr::new("\\n"));
    assert_eq!(LineTerminator::Windows.as_escaped_bstr(), BStr::new("\\r\\n"));
    assert_eq!(LineTerminator::for_platform(true), LineTerminator::Windows);
    assert_eq!(LineTerminator::for_platform(false), LineTerminator::Unix);
    let native = LineTerminator::native();
    assert_eq!(native, LineTerminator::for_platform(std::path::is_separator('\\')));
    assert_eq!(LineTerminator::default(), native);
}

#[test]
fn sink_progress_reports_dropped_bytes() {
    let mut progress = SinkProgress::new();
    assert_eq!(progress.record(10, 10), Ok(()));
    assert_eq!(progress.record(5, 5), Ok(()));
    assert_eq!(
        progress.record(8, 3),
        Err(WriteError::SinkFailure { produced: 23, accepted: 18 })
    );
}
