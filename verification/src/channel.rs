//! The channels of a joint: which degree of freedom each animates, and which
//! column of a frame holds its value.

use crate::digits::append_bytes;
use vstd::prelude::*;

verus! {

/// The six kinds of channel: rotation about, or position along, an axis.
#[derive(Clone, Copy, Debug, PartialEq, Eq, Hash, Structural)]
pub enum ChannelType {
    /// Rotation about the x axis.
    RotationX,
    /// Rotation about the y axis.
    RotationY,
    /// Rotation about the z axis.
    RotationZ,
    /// Position along the x axis.
    PositionX,
    /// Position along the y axis.
    PositionY,
    /// Position along the z axis.
    PositionZ,
}

pub open spec fn axis_letter(kind: ChannelType) -> u8 {
    match kind {
        ChannelType::RotationX | ChannelType::PositionX => 'X' as u8,
        ChannelType::RotationY | ChannelType::PositionY => 'Y' as u8,
        ChannelType::RotationZ | ChannelType::PositionZ => 'Z' as u8,
    }
}

pub open spec fn is_rotation_kind(kind: ChannelType) -> bool {
    kind == ChannelType::RotationX || kind == ChannelType::RotationY || kind
        == ChannelType::RotationZ
}

/// `rotation`, as bytes.
pub open spec fn rotation_word() -> Seq<u8> {
    seq![
        'r' as u8,
        'o' as u8,
        't' as u8,
        'a' as u8,
        't' as u8,
        'i' as u8,
        'o' as u8,
        'n' as u8,
    ]
}

/// `position`, as bytes.
pub open spec fn position_word() -> Seq<u8> {
    seq![
        'p' as u8,
        'o' as u8,
        's' as u8,
        'i' as u8,
        't' as u8,
        'i' as u8,
        'o' as u8,
        'n' as u8,
    ]
}

/// The token that names a channel kind in the format: the axis letter and
/// then `rotation` or `position`, as in `Zrotation`.
pub open spec fn channel_type_text(kind: ChannelType) -> Seq<u8> {
    seq![axis_letter(kind)] + (if is_rotation_kind(kind) {
        rotation_word()
    } else {
        position_word()
    })
}

/// The channel kind that a token names, if it names one.
pub open spec fn channel_type_of_text(text: Seq<u8>) -> Option<ChannelType> {
    if text == channel_type_text(ChannelType::RotationX) {
        Some(ChannelType::RotationX)
    } else if text == channel_type_text(ChannelType::RotationY) {
        Some(ChannelType::RotationY)
    } else if text == channel_type_text(ChannelType::RotationZ) {
        Some(ChannelType::RotationZ)
    } else if text == channel_type_text(ChannelType::PositionX) {
        Some(ChannelType::PositionX)
    } else if text == channel_type_text(ChannelType::PositionY) {
        Some(ChannelType::PositionY)
    } else if text == channel_type_text(ChannelType::PositionZ) {
        Some(ChannelType::PositionZ)
    } else {
        None
    }
}

/// Every kind is the one that its own token names.
pub proof fn lemma_channel_type_text_names(kind: ChannelType)
    ensures
        channel_type_of_text(channel_type_text(kind)) == Some(kind),
        channel_type_text(kind).len() == 9,
{
    let x = channel_type_text(ChannelType::RotationX);
    let y = channel_type_text(ChannelType::RotationY);
    let z = channel_type_text(ChannelType::RotationZ);
    let px = channel_type_text(ChannelType::PositionX);
    let py = channel_type_text(ChannelType::PositionY);
    let pz = channel_type_text(ChannelType::PositionZ);
    assert(x[0] == 'X' as u8 && y[0] == 'Y' as u8 && z[0] == 'Z' as u8);
    assert(px[0] == 'X' as u8 && py[0] == 'Y' as u8 && pz[0] == 'Z' as u8);
    assert(x[1] == 'r' as u8 && y[1] == 'r' as u8 && z[1] == 'r' as u8);
    assert(px[1] == 'p' as u8 && py[1] == 'p' as u8 && pz[1] == 'p' as u8);
}

impl ChannelType {
    /// Whether this kind is a rotation.
    pub fn is_rotation(&self) -> (rotation: bool)
        ensures
            rotation == is_rotation_kind(*self),
    {
        match self {
            ChannelType::RotationX | ChannelType::RotationY | ChannelType::RotationZ => true,
            _ => false,
        }
    }

    /// Whether this kind is a position.
    pub fn is_position(&self) -> (position: bool)
        ensures
            position == !is_rotation_kind(*self),
    {
        !self.is_rotation()
    }

    /// The token that names this kind in the format.
    pub fn as_bytes(&self) -> (text: [u8; 9])
        ensures
            text@ == channel_type_text(*self),
    {
        let axis: u8 = match self {
            ChannelType::RotationX | ChannelType::PositionX => 'X' as u8,
            ChannelType::RotationY | ChannelType::PositionY => 'Y' as u8,
            ChannelType::RotationZ | ChannelType::PositionZ => 'Z' as u8,
        };
        let text: [u8; 9] = if self.is_rotation() {
            [
                axis,
                'r' as u8,
                'o' as u8,
                't' as u8,
                'a' as u8,
                't' as u8,
                'i' as u8,
                'o' as u8,
                'n' as u8,
            ]
        } else {
            [
                axis,
                'p' as u8,
                'o' as u8,
                's' as u8,
                'i' as u8,
                't' as u8,
                'i' as u8,
                'o' as u8,
                'n' as u8,
            ]
        };
        assert(text@ =~= channel_type_text(*self));
        text
    }

    /// The token that names this kind in the format, as a string.
    pub fn as_str(&self) -> (text: &'static str)
        ensures
            text@ == channel_type_str(*self)@,
    {
        match self {
            ChannelType::RotationX => "Xrotation",
            ChannelType::RotationY => "Yrotation",
            ChannelType::RotationZ => "Zrotation",
            ChannelType::PositionX => "Xposition",
            ChannelType::PositionY => "Yposition",
            ChannelType::PositionZ => "Zposition",
        }
    }

    /// The kind that the token `text` names: `Some` for the six tokens of the
    /// format, `None` for anything else.
    pub fn from_bytes(text: &[u8]) -> (kind: Option<ChannelType>)
        ensures
            kind == channel_type_of_text(text@),
    {
        if text.len() != 9 {
            proof {
                lemma_channel_type_text_names(ChannelType::RotationX);
                lemma_channel_type_text_names(ChannelType::RotationY);
                lemma_channel_type_text_names(ChannelType::RotationZ);
                lemma_channel_type_text_names(ChannelType::PositionX);
                lemma_channel_type_text_names(ChannelType::PositionY);
                lemma_channel_type_text_names(ChannelType::PositionZ);
            }
            return None;
        }
        let rot: bool = text[1] == 'r' as u8 && text[2] == 'o' as u8 && text[3] == 't' as u8
            && text[4] == 'a' as u8 && text[5] == 't' as u8 && text[6] == 'i' as u8 && text[7]
            == 'o' as u8 && text[8] == 'n' as u8;
        let pos: bool = text[1] == 'p' as u8 && text[2] == 'o' as u8 && text[3] == 's' as u8
            && text[4] == 'i' as u8 && text[5] == 't' as u8 && text[6] == 'i' as u8 && text[7]
            == 'o' as u8 && text[8] == 'n' as u8;
        let axis: u8 = text[0];
        let kind: Option<ChannelType> = if rot && axis == 'X' as u8 {
            Some(ChannelType::RotationX)
        } else if rot && axis == 'Y' as u8 {
            Some(ChannelType::RotationY)
        } else if rot && axis == 'Z' as u8 {
            Some(ChannelType::RotationZ)
        } else if pos && axis == 'X' as u8 {
            Some(ChannelType::PositionX)
        } else if pos && axis == 'Y' as u8 {
            Some(ChannelType::PositionY)
        } else if pos && axis == 'Z' as u8 {
            Some(ChannelType::PositionZ)
        } else {
            None
        };
        proof {
            let t = text@;
            match kind {
                Some(k) => {
                    assert(t =~= channel_type_text(k));
                    lemma_channel_type_text_names(k);
                },
                None => {
                    assert(t != channel_type_text(ChannelType::RotationX)) by {
                        let w = channel_type_text(ChannelType::RotationX);
                        assert(w[0] == 'X' as u8 && w[1] == 'r' as u8 && w[2] == 'o' as u8 && w[3]
                            == 't' as u8 && w[4] == 'a' as u8 && w[5] == 't' as u8 && w[6]
                            == 'i' as u8 && w[7] == 'o' as u8 && w[8] == 'n' as u8);
                    }
                    assert(t != channel_type_text(ChannelType::RotationY)) by {
                        let w = channel_type_text(ChannelType::RotationY);
                        assert(w[0] == 'Y' as u8 && w[1] == 'r' as u8 && w[2] == 'o' as u8 && w[3]
                            == 't' as u8 && w[4] == 'a' as u8 && w[5] == 't' as u8 && w[6]
                            == 'i' as u8 && w[7] == 'o' as u8 && w[8] == 'n' as u8);
                    }
                    assert(t != channel_type_text(ChannelType::RotationZ)) by {
                        let w = channel_type_text(ChannelType::RotationZ);
                        assert(w[0] == 'Z' as u8 && w[1] == 'r' as u8 && w[2] == 'o' as u8 && w[3]
                            == 't' as u8 && w[4] == 'a' as u8 && w[5] == 't' as u8 && w[6]
                            == 'i' as u8 && w[7] == 'o' as u8 && w[8] == 'n' as u8);
                    }
                    assert(t != channel_type_text(ChannelType::PositionX)) by {
                        let w = channel_type_text(ChannelType::PositionX);
                        assert(w[0] == 'X' as u8 && w[1] == 'p' as u8 && w[2] == 'o' as u8 && w[3]
                            == 's' as u8 && w[4] == 'i' as u8 && w[5] == 't' as u8 && w[6]
                            == 'i' as u8 && w[7] == 'o' as u8 && w[8] == 'n' as u8);
                    }
                    assert(t != channel_type_text(ChannelType::PositionY)) by {
                        let w = channel_type_text(ChannelType::PositionY);
                        assert(w[0] == 'Y' as u8 && w[1] == 'p' as u8 && w[2] == 'o' as u8 && w[3]
                            == 's' as u8 && w[4] == 'i' as u8 && w[5] == 't' as u8 && w[6]
                            == 'i' as u8 && w[7] == 'o' as u8 && w[8] == 'n' as u8);
                    }
                    assert(t != channel_type_text(ChannelType::PositionZ)) by {
                        let w = channel_type_text(ChannelType::PositionZ);
                        assert(w[0] == 'Z' as u8 && w[1] == 'p' as u8 && w[2] == 'o' as u8 && w[3]
                            == 's' as u8 && w[4] == 'i' as u8 && w[5] == 't' as u8 && w[6]
                            == 'i' as u8 && w[7] == 'o' as u8 && w[8] == 'n' as u8);
                    }
                },
            }
        }
        kind
    }

    /// Appends the token that names this kind to `out`.
    pub fn append_to(&self, out: &mut Vec<u8>)
        ensures
            final(out)@ == old(out)@ + channel_type_text(*self),
    {
        let text: [u8; 9] = self.as_bytes();
        append_bytes(out, text.as_slice());
    }
}

/// The token of a kind, as string.
pub open spec fn channel_type_str(kind: ChannelType) -> &'static str {
    match kind {
        ChannelType::RotationX => "Xrotation",
        ChannelType::RotationY => "Yrotation",
        ChannelType::RotationZ => "Zrotation",
        ChannelType::PositionX => "Xposition",
        ChannelType::PositionY => "Yposition",
        ChannelType::PositionZ => "Zposition",
    }
}

/// One channel of a joint: its kind, and the column of every frame that
/// holds its value.
#[derive(Clone, Copy, Debug, PartialEq, Eq, Hash, Structural)]
pub struct Channel {
    pub channel_type: ChannelType,
    pub motion_index: usize,
}

impl Channel {
    /// A channel of the given kind whose values stand in column
    /// `motion_index` of each frame.
    pub fn new(channel_type: ChannelType, motion_index: usize) -> (channel: Channel)
        ensures
            channel == (Channel { channel_type, motion_index }),
    {
        Channel { channel_type, motion_index }
    }

    /// The kind of the channel.
    pub fn channel_type(&self) -> (kind: ChannelType)
        ensures
            kind == self.channel_type,
    {
        self.channel_type
    }

    /// The column of each frame that holds this channel's value.
    pub fn motion_index(&self) -> (index: usize)
        ensures
            index == self.motion_index,
    {
        self.motion_index
    }
}

} // verus!
