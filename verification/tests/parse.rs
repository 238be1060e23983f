use std::time::Duration;

use bvh_anim::{from_bytes, ChannelType, Decimal, Expected, LineTerminator, LoadError, WriteOptions};

const SAMPLE: &str = "HIERARCHY
ROOT Base
{
    OFFSET 0.0 0.0 0.0
    CHANNELS 6 Xposition Yposition Zposition Zrotation Xrotation Yrotation
    JOINT Middle1
    {
        OFFSET 0.0 0.0 15.0
        CHANNELS 3 Zrotation Xrotation Yrotation
        JOINT Tip1
        {
            OFFSET 0.0 0.0 30.0
            CHANNELS 3 Zrotation Xrotation Yrotation
            End Site
            {
                OFFSET 0.0 0.0 45.0
            }
        }
    }
    JOINT Middle2
    {
        OFFSET 0.0 15.0 0.0
        CHANNELS 0
    }
}
MOTION
Frames: 2
Frame Time: 0.033333333333
0.0 0.0 0.0 0.0 0.0 0.0 0.0 0.0 0.0 0.0 0.0 0.5
1.0 1.0 1.0 1.0 1.0 1.0 1.0 1.0 1.0 1.0 1.0 -1.5
";

fn fixed(number: &Decimal, places: usize) -> String {
    let mut out = Vec::new();
    number.append_fixed(places, &mut out);
    String::from_utf8(out).unwrap()
}

#[test]
fn parse_empty_document() {
    let bvh = from_bytes(b"HIERARCHY\nMOTION\n").unwrap();
    assert_eq!(bvh.joints().len(), 0);
    assert_eq!(bvh.num_channels(), 0);
    assert_eq!(bvh.num_frames(), 0);
    assert_eq!(*bvh.frame_time(), Duration::default());
    assert!(from_bytes(b"HIERARCHY\nMOTION\nFrames: 0\n").is_ok());
    assert!(from_bytes(b"HIERARCHY\nMOTION\nFrames: 0\nFrame Time: 0.1\n").is_ok());
    assert!(from_bytes(b"HIERARCHY\nMOTION\nFrame Time: 0.1\n").is_ok());
    assert!(from_bytes(b"HIERARCHY MOTION").is_ok());
}

#[test]
fn parse_sample_document() {
    let bvh = from_bytes(SAMPLE.as_bytes()).unwrap();
    let joints = bvh.joints();
    assert_eq!(joints.len(), 4);
    let names: Vec<&[u8]> = joints.iter().map(|j| j.name.as_slice()).collect();
    assert_eq!(names, [&b"Base"[..], b"Middle1", b"Tip1", b"Middle2"]);
    let depths: Vec<usize> = joints.iter().map(|j| j.depth()).collect();
    assert_eq!(depths, [0, 1, 2, 1]);
    let parents: Vec<Option<usize>> = joints.iter().map(|j| j.parent_index()).collect();
    assert_eq!(parents, [None, Some(0), Some(1), Some(0)]);
    assert_eq!(bvh.num_channels(), 12);
    let mut index = 0;
    for joint in joints.iter() {
        for channel in joint.channels.as_slice() {
            assert_eq!(channel.motion_index(), index);
            index += 1;
        }
    }
    assert_eq!(index, 12);
    assert_eq!(joints[0].channels.as_slice()[3].channel_type(), ChannelType::RotationZ);
    assert_eq!(fixed(&joints[1].offset.z, 1), "15.0");
    assert!(joints[2].is_end_joint());
    assert!(!joints[0].is_end_joint());
    assert_eq!(fixed(&joints[2].end_site().unwrap().z, 1), "45.0");
    assert_eq!(bvh.num_frames(), 2);
    assert_eq!(*bvh.frame_time(), Duration::from_nanos(33_333_333));
    assert_eq!(bvh.frame_time_nanos(), 33_333_333);
    assert!(bvh.has_valid_motion());
    assert_eq!(fixed(&bvh.frame(0)[11], 1), "0.5");
    assert_eq!(fixed(&bvh.frame(1)[11], 1), "-1.5");
    assert_eq!(bvh.root_joint().unwrap().name.as_slice(), b"Base");
}

#[test]
fn parse_ignores_indentation_and_line_breaks_in_the_hierarchy() {
    let flat = "HIERARCHY ROOT a { OFFSET 1 2 3 CHANNELS 1 Xrotation JOINT b {\r\nOFFSET 0 0 0\tCHANNELS 0 End Site { OFFSET 0 0 1 } } } MOTION Frames: 1 Frame Time: 0.5\n7\n";
    let bvh = from_bytes(flat.as_bytes()).unwrap();
    assert_eq!(bvh.joints().len(), 2);
    assert_eq!(bvh.joints()[1].depth(), 1);
    assert_eq!(*bvh.frame_time(), Duration::from_millis(500));
    assert_eq!(fixed(&bvh.frame(0)[0], 0), "7");
}

#[test]
fn parse_rejects_a_frame_line_with_too_few_values() {
    let text = "HIERARCHY\nROOT a\n{\nOFFSET 0 0 0\nCHANNELS 6 Xposition Yposition Zposition Zrotation Xrotation Yrotation\n}\nMOTION\nFrames: 2\nFrame Time: 0.1\n1 2 3 4 5 6\n1 2 3 4 5\n";
    assert_eq!(
        from_bytes(text.as_bytes()).err(),
        Some(LoadError::MotionSizeMismatch { frame: 1, wanted: 6, actual: 5 })
    );
}

#[test]
fn parse_rejects_missing_and_extra_frame_lines() {
    let head = "HIERARCHY\nROOT a\n{\nOFFSET 0 0 0\nCHANNELS 1 Xposition\n}\nMOTION\nFrames: 2\nFrame Time: 0.1\n";
    assert_eq!(
        from_bytes(format!("{}1\n", head).as_bytes()).err(),
        Some(LoadError::MotionSizeMismatch { frame: 1, wanted: 1, actual: 0 })
    );
    assert_eq!(
        from_bytes(format!("{}1\n2\n3\n", head).as_bytes()).err(),
        Some(LoadError::MotionSizeMismatch { frame: 2, wanted: 0, actual: 1 })
    );
    assert_eq!(
        from_bytes(format!("{}1\n2 3\n", head).as_bytes()).err(),
        Some(LoadError::MotionSizeMismatch { frame: 1, wanted: 1, actual: 2 })
    );
    assert!(from_bytes(format!("{}1\n2\n\n  \n", head).as_bytes()).is_ok());
    assert!(from_bytes(format!("{}1\n2", head).as_bytes()).is_ok());
    assert_eq!(
        from_bytes(format!("{}1\nx\n", head).as_bytes()).err(),
        Some(LoadError::MalformedHierarchy { line: 11, expected: Expected::Number })
    );
}

#[test]
fn parse_reports_the_line_and_what_was_expected() {
    let cases: [(&str, usize, Expected); 18] = [
        ("", 0, Expected::Hierarchy),
        ("MOTION\n", 1, Expected::Hierarchy),
        ("HIERARCHY\nJOINT a\n", 2, Expected::RootOrMotion),
        ("HIERARCHY\nROOT\n", 2, Expected::Name),
        ("HIERARCHY\nROOT a\nOFFSET", 3, Expected::OpenBrace),
        ("HIERARCHY\nROOT a\n{\nCHANNELS", 4, Expected::Offset),
        ("HIERARCHY\nROOT a\n{\nOFFSET 1 2 x", 4, Expected::Number),
        ("HIERARCHY\nROOT a\n{\nOFFSET 1 2 3\nJOINT", 5, Expected::Channels),
        ("HIERARCHY\nROOT a\n{\nOFFSET 1 2 3\nCHANNELS -1", 5, Expected::ChannelCount),
        ("HIERARCHY\nROOT a\n{\nOFFSET 1 2 3\nCHANNELS 1 Wrotation", 5, Expected::ChannelKind),
        ("HIERARCHY\nROOT a\n{\nOFFSET 1 2 3\nCHANNELS 0\nMOTION", 6, Expected::JointOrEndOrClose),
        ("HIERARCHY\nROOT a\n{\nOFFSET 1 2 3\nCHANNELS 0\nEnd Point", 6, Expected::Site),
        (
            "HIERARCHY\nROOT a\n{\nOFFSET 1 2 3\nCHANNELS 0\nEnd Site\n{\nOFFSET 1 2 3\nJOINT",
            9,
            Expected::CloseBrace,
        ),
        ("HIERARCHY\nROOT a\n{\nOFFSET 1 2 3\nCHANNELS 0\n}\nROOT b", 7, Expected::Motion),
        ("HIERARCHY\nMOTION\nFrames: many", 3, Expected::FrameCount),
        ("HIERARCHY\nMOTION\nFrame Rate: 1", 3, Expected::Time),
        ("HIERARCHY\nMOTION\nFrames: 0 1 2", 3, Expected::EndOfLine),
        ("HIERARCHY\nMOTION\nFrame Time: 0.1 0.2", 3, Expected::EndOfLine),
    ];
    for (text, line, expected) in cases.iter() {
        assert_eq!(
            from_bytes(text.as_bytes()).err(),
            Some(LoadError::MalformedHierarchy { line: *line, expected: *expected }),
            "{:?}",
            text
        );
    }
}

#[test]
fn parse_rejects_a_second_end_site() {
    let text = "HIERARCHY\nROOT a\n{\nOFFSET 1 2 3\nCHANNELS 0\nEnd Site\n{\nOFFSET 1 2 3\n}\nEnd Site\n{\nOFFSET 1 2 3\n}\n}\nMOTION\n";
    assert_eq!(
        from_bytes(text.as_bytes()).err(),
        Some(LoadError::MalformedHierarchy { line: 10, expected: Expected::JointOrEndOrClose })
    );
}

#[test]
fn parse_then_write_then_parse_gives_the_rounded_document() {
    let bvh = from_bytes(SAMPLE.as_bytes()).unwrap();
    let options = WriteOptions::new()
        .with_line_terminator(LineTerminator::Windows)
        .with_offset_significant_figures(3)
        .with_motion_values_significant_figures(0);
    let written: Vec<u8> = options.write_to_string(&bvh).into();
    let again = from_bytes(&written).unwrap();
    assert_eq!(again.joints().len(), bvh.joints().len());
    for (a, b) in again.joints().iter().zip(bvh.joints().iter()) {
        assert_eq!(a.name.as_slice(), b.name.as_slice());
        assert_eq!(a.depth(), b.depth());
        assert_eq!(a.parent_index(), b.parent_index());
        assert_eq!(a.channels.as_slice(), b.channels.as_slice());
        assert_eq!(fixed(&a.offset.z, 3), fixed(&b.offset.z, 3));
        assert_eq!(a.end_site().is_some(), b.end_site().is_some());
    }
    assert_eq!(again.num_frames(), 2);
    assert_eq!(again.num_channels(), 12);
    assert_eq!(*again.frame_time(), Duration::from_nanos(33_333_300));
    assert_eq!(fixed(&again.frame(0)[11], 1), "0.0");
    assert_eq!(fixed(&again.frame(1)[11], 1), "-2.0");
    let rewritten: Vec<u8> = options.write_to_string(&again).into();
    assert_eq!(rewritten, written);
}

#[test]
fn parse_frames_without_channels() {
    let text = "HIERARCHY\nROOT a\n{\nOFFSET 0 0 0\nCHANNELS 0\n}\nMOTION\nFrames: 2\nFrame Time: 1\n\n\n";
    let bvh = from_bytes(text.as_bytes()).unwrap();
    assert_eq!(bvh.num_frames(), 2);
    assert_eq!(bvh.frame(1).len(), 0);
    let written: Vec<u8> =
        WriteOptions::new().with_line_terminator(LineTerminator::Unix).write_to_string(&bvh).into();
    assert!(written.ends_with(b"Frame Time: 1.0000000\n\n\n"));
    assert_eq!(from_bytes(&written).unwrap().num_frames(), 2);
}

#[test]
fn parsed_documents_are_valid() {
    let bvh = from_bytes(SAMPLE.as_bytes()).unwrap();
    assert!(bvh.is_valid());
    assert!(from_bytes(b"HIERARCHY\nMOTION\n").unwrap().is_valid());
    let mut broken = from_bytes(SAMPLE.as_bytes()).unwrap();
    broken.joints[3].parent_index = Some(2);
    assert!(!broken.is_valid());
    let mut broken = from_bytes(SAMPLE.as_bytes()).unwrap();
    broken.joints[2].depth = 1;
    assert!(!broken.is_valid());
    let mut broken = from_bytes(SAMPLE.as_bytes()).unwrap();
    broken.num_channels = 11;
    assert!(!broken.is_valid());
    let mut broken = from_bytes(SAMPLE.as_bytes()).unwrap();
    broken.num_frames = 3;
    assert!(!broken.is_valid());
    let mut broken = from_bytes(SAMPLE.as_bytes()).unwrap();
    broken.joints[0].parent_index = Some(0);
    assert!(!broken.is_valid());
}
