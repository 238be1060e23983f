use bvh_anim::{Bvh, BvhLiteralBuilder, ChannelType, Decimal, Joint};
use mint::Vector3;
use std::time::Duration;

fn dec(text: &str) -> Decimal {
    Decimal::parse(text.as_bytes()).unwrap()
}

fn offset(x: &str, y: &str, z: &str) -> Vector3<Decimal> {
    Vector3 { x: dec(x), y: dec(y), z: dec(z) }
}

fn as_f32(value: &Decimal) -> f32 {
    let mut text = Vec::new();
    value.append_fixed(10, &mut text);
    String::from_utf8(text).unwrap().parse::<f32>().unwrap()
}

fn check_joint(
    joint: &Joint,
    expected_name: &[u8],
    expected_offset: [f32; 3],
    channels: &[ChannelType],
    end_site: Option<[f32; 3]>,
) {
    assert_eq!(joint.name.as_slice(), expected_name);
    assert_eq!(
        [as_f32(&joint.offset.x), as_f32(&joint.offset.y), as_f32(&joint.offset.z)],
        expected_offset
    );
    for (chan, expected_chan) in
        joint.channels.as_slice().iter().map(|c| c.channel_type()).zip(channels.iter())
    {
        assert_eq!(chan, *expected_chan);
    }
    let found = joint.end_site().map(|e| [as_f32(&e.x), as_f32(&e.y), as_f32(&e.z)]);
    assert_eq!(found, end_site);
}

#[test]
fn macro_create() {
    let mut builder = BvhLiteralBuilder::default();
    builder.push_root("Base");
    builder.current_depth += 1;
    builder.push_joint_offset(offset("0.0", "0.0", "0.0"), false);
    builder.push_channel(ChannelType::PositionX);
    builder.push_channel(ChannelType::PositionY);
    builder.push_channel(ChannelType::PositionZ);
    builder.push_channel(ChannelType::RotationZ);
    builder.push_channel(ChannelType::RotationX);
    builder.push_channel(ChannelType::RotationY);
    builder.push_joint("End");
    builder.current_depth += 1;
    builder.push_joint_offset(offset("0.0", "0.0", "15.0"), false);
    builder.push_channel(ChannelType::RotationZ);
    builder.push_channel(ChannelType::RotationX);
    builder.push_channel(ChannelType::RotationY);
    builder.push_joint_offset(offset("0.0", "0.0", "30.0"), true);
    builder.current_depth -= 1;
    builder.current_depth -= 1;
    builder.set_num_frames(1);
    builder.set_frame_time(&dec("0.033333333333"));
    builder.set_motion_values(vec![
        dec("0.0"),
        dec("0.0"),
        dec("0.0"),
        dec("0.0"),
        dec("0.0"),
        dec("0.0"),
        dec("0.0"),
        dec("0.0"),
        dec("0.0"),
    ]);
    assert!(builder.check_valid_motion());
    let bvh = builder.bvh;

    let mut joints = bvh.joints().iter();
    check_joint(
        joints.next().unwrap(),
        b"Base",
        [0.0, 0.0, 0.0],
        &[
            ChannelType::PositionX,
            ChannelType::PositionY,
            ChannelType::PositionZ,
            ChannelType::RotationZ,
            ChannelType::RotationX,
            ChannelType::RotationY,
        ],
        None,
    );
    check_joint(
        joints.next().unwrap(),
        b"End",
        [0.0, 0.0, 15.0],
        &[ChannelType::RotationZ, ChannelType::RotationX, ChannelType::RotationY],
        Some([0.0, 0.0, 30.0]),
    );

    assert_eq!(*bvh.frame_time(), Duration::from_nanos(33333333));

    let frames = bvh.frames();
    assert_eq!(frames.len(), 1);
    for frame in frames {
        assert_eq!(frame.len(), 9);
        for channel in frame.iter() {
            assert_eq!(as_f32(channel), 0.0);
        }
    }
}

#[test]
fn test_empty_create() {
    let empty = Bvh::default();
    assert!(empty.joints().iter().next().is_none());
    assert_eq!(*empty.frame_time(), Duration::default());
    assert!(empty.frames().iter().next().is_none());

    let empty_2 = Bvh::default();
    assert!(empty_2.joints().iter().next().is_none());
    assert_eq!(*empty_2.frame_time(), Duration::default());
    assert!(empty_2.frames().iter().next().is_none());
}

#[test]
fn literal_builder_places_joints_below_the_last_shallower_joint() {
    let mut builder = BvhLiteralBuilder::default();
    builder.push_root("a");
    builder.current_depth = 1;
    builder.push_joint("b");
    builder.current_depth = 2;
    builder.push_joint("c");
    builder.current_depth = 1;
    builder.push_joint("d");
    let joints = builder.bvh.joints();
    assert_eq!(joints.len(), 4);
    assert_eq!(joints[0].parent_index(), None);
    assert_eq!(joints[1].parent_index(), Some(0));
    assert_eq!(joints[2].parent_index(), Some(1));
    assert_eq!(joints[3].parent_index(), Some(0));
    assert_eq!(joints[3].depth(), 1);
    assert!(joints[0].is_root());
    assert!(!joints[3].is_root());
    assert_eq!(builder.current_index, 4);
}

#[test]
fn literal_builder_frame_time_is_cut_to_nanoseconds() {
    let mut builder = BvhLiteralBuilder::default();
    builder.set_frame_time(&dec("0.0333333339"));
    assert_eq!(*builder.bvh.frame_time(), Duration::from_nanos(33_333_333));
    builder.set_frame_time(&dec("-1.5"));
    assert_eq!(*builder.bvh.frame_time(), Duration::from_nanos(0));
    builder.set_frame_time(&dec("2"));
    assert_eq!(*builder.bvh.frame_time(), Duration::from_secs(2));
    builder.set_frame_time(&dec("99999999999999999999"));
    assert_eq!(*builder.bvh.frame_time(), Duration::from_nanos(u64::MAX));
}

#[test]
fn literal_builder_checks_the_motion_table() {
    let mut builder = BvhLiteralBuilder::default();
    builder.push_root("a");
    builder.push_channel(ChannelType::RotationX);
    builder.push_channel(ChannelType::RotationY);
    builder.set_num_frames(2);
    assert!(!builder.check_valid_motion());
    builder.set_motion_values(vec![dec("1"), dec("2"), dec("3"), dec("4")]);
    assert!(builder.check_valid_motion());
    assert_eq!(builder.bvh.num_channels(), 2);
    let channels = builder.bvh.joints()[0].channels.as_slice();
    assert_eq!(channels[0].motion_index(), 0);
    assert_eq!(channels[1].motion_index(), 1);
}
