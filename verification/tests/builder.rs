use bstr::BStr;
use bvh_anim::builder::{collect_channels, new_joint};
use bvh_anim::{BuildError, Builder, ChannelList, ChannelType, Decimal, JointName};
use mint::Vector3;
use std::time::Duration;

fn dec(text: &str) -> Decimal {
    Decimal::parse(text.as_bytes()).unwrap()
}

fn origin() -> Vector3<Decimal> {
    Vector3 { x: dec("0"), y: dec("0"), z: dec("0") }
}

#[test]
fn builder_numbers_channels_across_joints() {
    let bvh = Builder::with_root_joint(
        BStr::new("a"),
        origin(),
        &[ChannelType::PositionX, ChannelType::PositionY],
    )
    .push_child(1, BStr::new("b"), origin(), &[ChannelType::RotationZ])
    .push_child_with_parent(1, BStr::new("c"), origin(), &[ChannelType::RotationX], 0)
    .with_motion(1, Duration::from_nanos(1_000))
    .push_frame(&[dec("1"), dec("2"), dec("3"), dec("4")])
    .build()
    .unwrap();
    assert_eq!(bvh.num_channels(), 4);
    assert_eq!(bvh.num_frames(), 1);
    assert_eq!(*bvh.frame_time(), Duration::from_micros(1));
    assert!(bvh.has_valid_motion());
    let joints = bvh.joints();
    assert_eq!(joints[1].parent_index(), Some(0));
    assert_eq!(joints[2].parent_index(), Some(0));
    assert_eq!(joints[1].channels.get(0).motion_index(), 2);
    assert_eq!(joints[2].channels.get(0).motion_index(), 3);
    assert_eq!(joints[2].channels.len(), 1);
    assert_eq!(joints[2].name.len(), 1);
}

#[test]
fn builder_push_end_caps_the_last_joint() {
    let builder = Builder::with_root_joint(BStr::new("a"), origin(), &[])
        .push_child(1, BStr::new("b"), origin(), &[])
        .push_end(Vector3 { x: dec("1"), y: dec("2"), z: dec("3") });
    assert!(builder.has_joint(1));
    assert!(!builder.has_joint(2));
    assert!(builder.has_room_for(10));
    let motion = builder.with_motion(0, Duration::default());
    assert!(motion.takes_frame_of(0));
    assert!(!motion.takes_frame_of(1));
    let bvh = motion.build().unwrap();
    assert!(bvh.joints()[0].end_site().is_none());
    assert_eq!(bvh.joints()[1].end_site().unwrap().y, dec("2"));
}

#[test]
fn collect_channels_moves_the_counter() {
    let mut counter = 5;
    let list = collect_channels(&[ChannelType::RotationX, ChannelType::RotationY], &mut counter);
    assert_eq!(counter, 7);
    assert_eq!(list.as_slice()[0].motion_index(), 5);
    assert_eq!(list.as_slice()[1].motion_index(), 6);
    assert_eq!(list.as_slice()[1].channel_type(), ChannelType::RotationY);
    let joint = new_joint(Some(3), BStr::new(&b"\xffname"[..]), origin(), list, 4);
    assert_eq!(joint.name.as_slice(), b"\xffname");
    assert_eq!(joint.parent_index(), Some(3));
    assert_eq!(joint.depth(), 4);
    assert!(joint.end_site().is_none());
}

#[test]
fn small_collections_hold_what_was_put_in() {
    let long = [7u8; 100];
    let name = JointName::from_slice(&long);
    assert_eq!(name.as_slice(), &long[..]);
    assert_eq!(name.clone().as_slice(), &long[..]);
    assert_eq!(JointName::default().len(), 0);
    let mut list = ChannelList::new();
    for index in 0..10 {
        list.push(bvh_anim::Channel::new(ChannelType::PositionZ, index));
    }
    assert_eq!(list.len(), 10);
    assert_eq!(list.get(9).motion_index(), 9);
    assert_eq!(list.clone().as_slice(), list.as_slice());
    assert_eq!(ChannelList::default().len(), 0);
}

#[test]
fn channel_types_have_their_tokens() {
    let all = [
        (ChannelType::RotationX, "Xrotation"),
        (ChannelType::RotationY, "Yrotation"),
        (ChannelType::RotationZ, "Zrotation"),
        (ChannelType::PositionX, "Xposition"),
        (ChannelType::PositionY, "Yposition"),
        (ChannelType::PositionZ, "Zposition"),
    ];
    for (kind, token) in all.iter() {
        assert_eq!(kind.as_str(), *token);
        assert_eq!(&kind.as_bytes()[..], token.as_bytes());
        assert_eq!(ChannelType::from_bytes(token.as_bytes()), Some(*kind));
        assert_eq!(kind.is_rotation(), token.ends_with("rotation"));
        assert_eq!(kind.is_position(), token.ends_with("position"));
    }
    assert_eq!(ChannelType::from_bytes(b"xrotation"), None);
    assert_eq!(ChannelType::from_bytes(b"Xrotatio"), None);
    assert_eq!(ChannelType::from_bytes(b"Wposition"), None);
}

#[test]
fn builder_reports_a_parent_that_is_out_of_range() {
    let builder = Builder::with_root_joint(BStr::new("a"), origin(), &[]);
    let result = builder.try_push_child_with_parent(1, BStr::new("b"), origin(), &[], 1);
    assert_eq!(result.err(), Some(BuildError::OutOfRangeIndex { index: 1, len: 1 }));
    let builder = Builder::with_root_joint(BStr::new("a"), origin(), &[]);
    let result = builder.try_push_child_with_parent(1, BStr::new("b"), origin(), &[], 0);
    let bvh = result.ok().unwrap().with_motion(0, Duration::default()).build().unwrap();
    assert_eq!(bvh.joints().len(), 2);
    assert!(bvh.is_valid());
    assert_eq!(bvh.frames().len(), 0);
}
