//! Reading a document from format text.

use crate::bvh::{
    channels_before, decimal_views, indices_in_order, joint_placed, joint_views,
    nanos_to_duration, Bvh, BvhView,
};
use crate::channel::{channel_type_of_text, Channel, ChannelType};
use crate::decimal::{parse_decimal, Decimal, DecimalView};
use crate::digits::{all_digits, digits_to_u64, digits_value, is_digit};
use crate::joint::{
    offset_view, zero_offset, zero_offset_view, ChannelList, Joint, JointName, JointView,
};
use crate::lex::{lex, line_views, split_lines, token_views};
use crate::literal::{fraction_seconds_to_nanos, seconds_to_nanos};
use crate::words::{
    bytes_equal, channels_word, close_word, end_word, frame_word, frames_word, hierarchy_word,
    joint_word, motion_word, offset_word, open_word, root_word, site_word, time_word, word_channels, word_close, word_end, word_frame, word_frames, word_hierarchy, word_joint,
    word_motion, word_offset, word_open, word_root, word_site, word_time,
};
use mint::Vector3;
use vstd::prelude::*;

verus! {

/// What the reader wanted where it found something else.
#[derive(Clone, Copy, Debug, PartialEq, Eq, Structural)]
pub enum Expected {
    /// The keyword `HIERARCHY`.
    Hierarchy,
    /// `ROOT` or `MOTION`.
    RootOrMotion,
    /// The name of a joint.
    Name,
    /// An opening brace.
    OpenBrace,
    /// The keyword `OFFSET`.
    Offset,
    /// A decimal number.
    Number,
    /// The keyword `CHANNELS`.
    Channels,
    /// The number of channels.
    ChannelCount,
    /// The name of a channel kind.
    ChannelKind,
    /// `JOINT`, `End` or a closing brace.
    JointOrEndOrClose,
    /// The word `Site`.
    Site,
    /// A closing brace.
    CloseBrace,
    /// The keyword `MOTION`.
    Motion,
    /// The number of frames.
    FrameCount,
    /// The word `Time:`.
    Time,
    /// The end of the line.
    EndOfLine,
}

/// Why a text is no document.
#[derive(Clone, Copy, Debug, PartialEq, Eq, Structural)]
pub enum LoadError {
    /// The token on line `line`, counted from one, is not what the grammar
    /// wants there, or the text ends on that line where more must follow.
    MalformedHierarchy { line: usize, expected: Expected },
    /// The line of frame `frame`, counted from zero, holds `actual` values
    /// where `wanted` are due; a line that is missing holds none, and a
    /// line after the last frame is due none.
    MotionSizeMismatch { frame: usize, wanted: usize, actual: usize },
}

/// The words that the grammar knows; every other token is `Other`.
#[derive(Clone, Copy, Debug, PartialEq, Eq, Structural)]
pub enum Word {
    Hierarchy,
    Root,
    Joint,
    End,
    Site,
    Offset,
    Channels,
    Motion,
    Frames,
    Frame,
    Time,
    Open,
    Close,
    Other,
}

/// Which word of the grammar `token` is.
pub open spec fn word_of(token: Seq<u8>) -> Word {
    if token == word_hierarchy() {
        Word::Hierarchy
    } else if token == word_root() {
        Word::Root
    } else if token == word_joint() {
        Word::Joint
    } else if token == word_end() {
        Word::End
    } else if token == word_site() {
        Word::Site
    } else if token == word_offset() {
        Word::Offset
    } else if token == word_channels() {
        Word::Channels
    } else if token == word_motion() {
        Word::Motion
    } else if token == word_frames() {
        Word::Frames
    } else if token == word_frame() {
        Word::Frame
    } else if token == word_time() {
        Word::Time
    } else if token == word_open() {
        Word::Open
    } else if token == word_close() {
        Word::Close
    } else {
        Word::Other
    }
}

/// The count that `token` denotes: digits only, and no more than the
/// machine can count.
pub open spec fn parse_count(token: Seq<u8>) -> Option<usize> {
    if token.len() > 0 && all_digits(token) && digits_value(token) <= usize::MAX {
        Some(digits_value(token) as usize)
    } else {
        None
    }
}

/// What the reader wants next.
#[derive(Clone, Copy, Debug, PartialEq, Eq, Structural)]
pub enum Stage {
    Hierarchy,
    RootOrMotion,
    Name,
    Open,
    Offset,
    /// A coordinate of a joint's offset: 0, 1 or 2 for x, y or z.
    OffsetValue { axis: u8 },
    Channels,
    ChannelCount,
    /// A channel kind, with `remaining` still to come, this one included.
    ChannelKind { remaining: usize },
    Body,
    Site,
    EndOpen,
    EndOffset,
    /// A coordinate of an end site.
    EndValue { axis: u8 },
    EndClose,
    Motion,
    FramesOrTime,
    FrameCount,
    TimeOrRows,
    Time,
    TimeValue,
    Rows,
}

/// What the reader has gathered from the tokens so far.
pub struct HeaderView {
    pub stage: Stage,
    pub joints: Seq<JointView>,
    /// The number of joints that are open.
    pub depth: nat,
    pub num_channels: nat,
    pub num_frames: nat,
    pub frame_time: nat,
}

/// What a token does to the reader.
pub enum Step {
    /// The token is taken, and the reader moves on.
    Next(HeaderView),
    /// The token is not taken: the header has ended before it.
    Stop,
    /// The token is not what the grammar wants.
    Fail(Expected),
}

/// Where the last joint at `depth` stands, or -1 where there is none.
pub open spec fn last_at_depth(joints: Seq<JointView>, depth: int) -> int
    decreases joints.len(),
{
    if joints.len() == 0 {
        -1
    } else if joints.last().depth == depth {
        joints.len() - 1
    } else {
        last_at_depth(joints.drop_last(), depth)
    }
}

/// `offset` with the coordinate `axis` set to `value`.
pub open spec fn with_axis(offset: Vector3<DecimalView>, axis: u8, value: DecimalView) -> Vector3<
    DecimalView,
> {
    if axis == 0 {
        Vector3 { x: value, ..offset }
    } else if axis == 1 {
        Vector3 { y: value, ..offset }
    } else {
        Vector3 { z: value, ..offset }
    }
}

/// A new joint named `name` at the reader's depth: below the last joint one
/// level less deep, or the root at depth zero.
pub open spec fn opened_joint(h: HeaderView, name: Seq<u8>) -> JointView {
    JointView {
        name,
        offset: zero_offset_view(),
        channels: Seq::empty(),
        end_site: None,
        parent_index: if h.depth == 0 {
            None
        } else {
            Some(last_at_depth(h.joints, h.depth - 1) as usize)
        },
        depth: h.depth as usize,
    }
}

/// `joints` with joint `at` replaced by `joint`; unchanged where there is
/// no such joint.
pub open spec fn replaced(joints: Seq<JointView>, at: int, joint: JointView) -> Seq<JointView> {
    if 0 <= at < joints.len() {
        joints.update(at, joint)
    } else {
        joints
    }
}

/// The stage after coordinate `axis`: the next coordinate, or `done` after
/// the third.
pub open spec fn after_axis(axis: u8, next: Stage, done: Stage) -> Stage {
    if axis < 2 {
        next
    } else {
        done
    }
}

/// What `token` does to the reader inside a joint.
pub open spec fn step_joint(h: HeaderView, token: Seq<u8>) -> Step {
    let word = word_of(token);
    let last = h.joints.len() - 1;
    match h.stage {
        Stage::Name => if h.joints.len() >= usize::MAX {
            Step::Fail(Expected::Name)
        } else {
            Step::Next(
                HeaderView {
                    stage: Stage::Open,
                    joints: h.joints.push(opened_joint(h, token)),
                    ..h
                },
            )
        },
        Stage::Open => if word == Word::Open {
            Step::Next(HeaderView { stage: Stage::Offset, depth: h.depth + 1, ..h })
        } else {
            Step::Fail(Expected::OpenBrace)
        },
        Stage::Offset => if word == Word::Offset {
            Step::Next(HeaderView { stage: Stage::OffsetValue { axis: 0 }, ..h })
        } else {
            Step::Fail(Expected::Offset)
        },
        Stage::OffsetValue { axis } => match parse_decimal(token) {
            Some(value) => Step::Next(
                HeaderView {
                    stage: after_axis(
                        axis,
                        Stage::OffsetValue { axis: (axis + 1) as u8 },
                        Stage::Channels,
                    ),
                    joints: replaced(
                        h.joints,
                        last,
                        JointView {
                            offset: with_axis(h.joints[last].offset, axis, value),
                            ..h.joints[last]
                        },
                    ),
                    ..h
                },
            ),
            None => Step::Fail(Expected::Number),
        },
        Stage::Channels => if word == Word::Channels {
            Step::Next(HeaderView { stage: Stage::ChannelCount, ..h })
        } else {
            Step::Fail(Expected::Channels)
        },
        Stage::ChannelCount => match parse_count(token) {
            Some(count) => Step::Next(
                HeaderView {
                    stage: if count == 0 {
                        Stage::Body
                    } else {
                        Stage::ChannelKind { remaining: count }
                    },
                    ..h
                },
            ),
            None => Step::Fail(Expected::ChannelCount),
        },
        Stage::ChannelKind { remaining } => match channel_type_of_text(token) {
            Some(kind) => if h.num_channels >= usize::MAX {
                Step::Fail(Expected::ChannelKind)
            } else {
                Step::Next(
                HeaderView {
                    stage: if remaining <= 1 {
                        Stage::Body
                    } else {
                        Stage::ChannelKind { remaining: (remaining - 1) as usize }
                    },
                    joints: replaced(
                        h.joints,
                        last,
                        JointView {
                            channels: h.joints[last].channels.push(
                                Channel {
                                    channel_type: kind,
                                    motion_index: h.num_channels as usize,
                                },
                            ),
                            ..h.joints[last]
                        },
                    ),
                    num_channels: h.num_channels + 1,
                    ..h
                },
            )
            },
            None => Step::Fail(Expected::ChannelKind),
        },
        _ => Step::Fail(Expected::JointOrEndOrClose),
    }
}

/// Where the innermost open joint stands.
pub open spec fn open_joint(h: HeaderView) -> int {
    last_at_depth(h.joints, h.depth - 1)
}

/// What `token` does to the reader after the channels of a joint: in the
/// body of the innermost open joint, and inside an end site.
pub open spec fn step_body(h: HeaderView, token: Seq<u8>) -> Step {
    let word = word_of(token);
    let at = open_joint(h);
    match h.stage {
        Stage::Body => if word == Word::Joint {
            Step::Next(HeaderView { stage: Stage::Name, ..h })
        } else if word == Word::End && (0 <= at < h.joints.len() ==> h.joints[at].end_site.is_none()) {
            Step::Next(HeaderView { stage: Stage::Site, ..h })
        } else if word == Word::Close && h.depth >= 1 {
            Step::Next(
                HeaderView {
                    stage: if h.depth == 1 {
                        Stage::Motion
                    } else {
                        Stage::Body
                    },
                    depth: (h.depth - 1) as nat,
                    ..h
                },
            )
        } else {
            Step::Fail(Expected::JointOrEndOrClose)
        },
        Stage::Site => if word == Word::Site {
            Step::Next(HeaderView { stage: Stage::EndOpen, ..h })
        } else {
            Step::Fail(Expected::Site)
        },
        Stage::EndOpen => if word == Word::Open {
            Step::Next(HeaderView { stage: Stage::EndOffset, ..h })
        } else {
            Step::Fail(Expected::OpenBrace)
        },
        Stage::EndOffset => if word == Word::Offset {
            Step::Next(
                HeaderView {
                    stage: Stage::EndValue { axis: 0 },
                    joints: replaced(
                        h.joints,
                        at,
                        JointView { end_site: Some(zero_offset_view()), ..h.joints[at] },
                    ),
                    ..h
                },
            )
        } else {
            Step::Fail(Expected::Offset)
        },
        Stage::EndValue { axis } => match parse_decimal(token) {
            Some(value) => Step::Next(
                HeaderView {
                    stage: after_axis(
                        axis,
                        Stage::EndValue { axis: (axis + 1) as u8 },
                        Stage::EndClose,
                    ),
                    joints: replaced(
                        h.joints,
                        at,
                        JointView {
                            end_site: Some(
                                with_axis(
                                    match h.joints[at].end_site {
                                        Some(offset) => offset,
                                        None => zero_offset_view(),
                                    },
                                    axis,
                                    value,
                                ),
                            ),
                            ..h.joints[at]
                        },
                    ),
                    ..h
                },
            ),
            None => Step::Fail(Expected::Number),
        },
        Stage::EndClose => if word == Word::Close {
            Step::Next(HeaderView { stage: Stage::Body, ..h })
        } else {
            Step::Fail(Expected::CloseBrace)
        },
        _ => Step::Fail(Expected::JointOrEndOrClose),
    }
}

/// What `token` does to the reader outside the joints: before the root, and
/// in the head of the motion section.
pub open spec fn step_outer(h: HeaderView, token: Seq<u8>) -> Step {
    let word = word_of(token);
    match h.stage {
        Stage::Hierarchy => if word == Word::Hierarchy {
            Step::Next(HeaderView { stage: Stage::RootOrMotion, ..h })
        } else {
            Step::Fail(Expected::Hierarchy)
        },
        Stage::RootOrMotion => if word == Word::Root {
            Step::Next(HeaderView { stage: Stage::Name, ..h })
        } else if word == Word::Motion {
            Step::Next(HeaderView { stage: Stage::FramesOrTime, ..h })
        } else {
            Step::Fail(Expected::RootOrMotion)
        },
        Stage::Motion => if word == Word::Motion {
            Step::Next(HeaderView { stage: Stage::FramesOrTime, ..h })
        } else {
            Step::Fail(Expected::Motion)
        },
        Stage::FramesOrTime => if word == Word::Frames {
            Step::Next(HeaderView { stage: Stage::FrameCount, ..h })
        } else if word == Word::Frame {
            Step::Next(HeaderView { stage: Stage::Time, ..h })
        } else {
            Step::Stop
        },
        Stage::FrameCount => match parse_count(token) {
            Some(count) => Step::Next(
                HeaderView { stage: Stage::TimeOrRows, num_frames: count as nat, ..h },
            ),
            None => Step::Fail(Expected::FrameCount),
        },
        Stage::TimeOrRows => if word == Word::Frame {
            Step::Next(HeaderView { stage: Stage::Time, ..h })
        } else {
            Step::Stop
        },
        Stage::Time => if word == Word::Time {
            Step::Next(HeaderView { stage: Stage::TimeValue, ..h })
        } else {
            Step::Fail(Expected::Time)
        },
        Stage::TimeValue => match parse_decimal(token) {
            Some(value) => Step::Next(
                HeaderView { stage: Stage::Rows, frame_time: seconds_to_nanos(value), ..h },
            ),
            None => Step::Fail(Expected::Number),
        },
        _ => Step::Stop,
    }
}

/// Whether `stage` is one of those inside a joint, up to its channels.
pub open spec fn in_joint(stage: Stage) -> bool {
    stage is Name || stage is Open || stage is Offset || stage is OffsetValue || stage is Channels
        || stage is ChannelCount || stage is ChannelKind
}

/// Whether `stage` is one of those after the channels of a joint.
pub open spec fn in_body(stage: Stage) -> bool {
    stage is Body || stage is Site || stage is EndOpen || stage is EndOffset || stage is EndValue
        || stage is EndClose
}

/// What `token` does to the reader.
pub open spec fn step(h: HeaderView, token: Seq<u8>) -> Step {
    if in_joint(h.stage) {
        step_joint(h, token)
    } else if in_body(h.stage) {
        step_body(h, token)
    } else {
        step_outer(h, token)
    }
}

/// What the reader wants at `stage`, for the case that the text ends there.
pub open spec fn expected_at(stage: Stage) -> Expected {
    match stage {
        Stage::Hierarchy => Expected::Hierarchy,
        Stage::RootOrMotion => Expected::RootOrMotion,
        Stage::Name => Expected::Name,
        Stage::Open | Stage::EndOpen => Expected::OpenBrace,
        Stage::Offset | Stage::EndOffset => Expected::Offset,
        Stage::OffsetValue { .. } | Stage::EndValue { .. } | Stage::TimeValue => Expected::Number,
        Stage::Channels => Expected::Channels,
        Stage::ChannelCount => Expected::ChannelCount,
        Stage::ChannelKind { .. } => Expected::ChannelKind,
        Stage::Body => Expected::JointOrEndOrClose,
        Stage::Site => Expected::Site,
        Stage::EndClose => Expected::CloseBrace,
        Stage::Motion => Expected::Motion,
        Stage::FrameCount => Expected::FrameCount,
        Stage::Time => Expected::Time,
        Stage::FramesOrTime | Stage::TimeOrRows | Stage::Rows => Expected::EndOfLine,
    }
}

/// Whether the text may end at `stage`: only once the head of the motion
/// section has begun and holds no half-read entry.
pub open spec fn may_end(stage: Stage) -> bool {
    stage is FramesOrTime || stage is TimeOrRows || stage is Rows
}

/// The reader before the first token.
pub open spec fn initial_header() -> HeaderView {
    HeaderView {
        stage: Stage::Hierarchy,
        joints: Seq::empty(),
        depth: 0,
        num_channels: 0,
        num_frames: 0,
        frame_time: 0,
    }
}

/// How reading the head of a document ends.
pub enum Head {
    /// The head is read; the frames are the lines from `rows_start` on.
    Read { header: HeaderView, rows_start: int },
    /// The text is no document.
    Failed(LoadError),
}

/// Reads the tokens from token `col` of line `line` on, up to the end of
/// the head of the motion section; `last` is the line of the token read
/// before, and the frames begin on the line after the last token read.
pub open spec fn read_head(
    h: HeaderView,
    lines: Seq<Seq<Seq<u8>>>,
    line: int,
    col: int,
    last: int,
) -> Head
    decreases lines.len() - line, lines[line].len() - col,
    when 0 <= line && 0 <= col
{
    if line >= lines.len() {
        if may_end(h.stage) {
            Head::Read { header: h, rows_start: last + 1 }
        } else {
            Head::Failed(
                LoadError::MalformedHierarchy {
                    line: lines.len() as usize,
                    expected: expected_at(h.stage),
                },
            )
        }
    } else if col >= lines[line].len() {
        read_head(h, lines, line + 1, 0, last)
    } else {
        match step(h, lines[line][col]) {
            Step::Next(next) => read_head(next, lines, line, col + 1, line),
            Step::Stop => if line > last {
                Head::Read { header: h, rows_start: last + 1 }
            } else {
                Head::Failed(
                    LoadError::MalformedHierarchy {
                        line: (line + 1) as usize,
                        expected: Expected::EndOfLine,
                    },
                )
            },
            Step::Fail(expected) => Head::Failed(
                LoadError::MalformedHierarchy { line: (line + 1) as usize, expected },
            ),
        }
    }
}

/// The numbers that the tokens of a line denote, where every one of them
/// denotes a number.
pub open spec fn read_values(tokens: Seq<Seq<u8>>) -> Option<Seq<DecimalView>>
    decreases tokens.len(),
{
    if tokens.len() == 0 {
        Some(Seq::empty())
    } else {
        match read_values(tokens.drop_last()) {
            Some(values) => match parse_decimal(tokens.last()) {
                Some(value) => Some(values.push(value)),
                None => None,
            },
            None => None,
        }
    }
}

/// Reads the frames `frame` and later from the lines that begin at
/// `rows_start`: every frame on a line of its own, with one number for each
/// channel.
pub open spec fn read_rows(
    lines: Seq<Seq<Seq<u8>>>,
    rows_start: int,
    num_frames: nat,
    num_channels: nat,
    frame: int,
) -> Result<Seq<DecimalView>, LoadError>
    decreases num_frames - frame,
    when 0 <= frame
{
    if frame >= num_frames {
        Ok(Seq::empty())
    } else if rows_start + frame >= lines.len() {
        Err(
            LoadError::MotionSizeMismatch {
                frame: frame as usize,
                wanted: num_channels as usize,
                actual: 0,
            },
        )
    } else {
        let row = lines[rows_start + frame];
        if row.len() != num_channels {
            Err(
                LoadError::MotionSizeMismatch {
                    frame: frame as usize,
                    wanted: num_channels as usize,
                    actual: row.len() as usize,
                },
            )
        } else {
            match read_values(row) {
                None => Err(
                    LoadError::MalformedHierarchy {
                        line: (rows_start + frame + 1) as usize,
                        expected: Expected::Number,
                    },
                ),
                Some(values) => match read_rows(
                    lines,
                    rows_start,
                    num_frames,
                    num_channels,
                    frame + 1,
                ) {
                    Ok(rest) => Ok(values + rest),
                    Err(error) => Err(error),
                },
            }
        }
    }
}

/// The first line at or after `from` that holds a token, or the number of
/// lines where there is none.
pub open spec fn next_filled(lines: Seq<Seq<Seq<u8>>>, from: int) -> int
    decreases lines.len() - from,
{
    if 0 <= from < lines.len() && lines[from].len() == 0 {
        next_filled(lines, from + 1)
    } else {
        from
    }
}

/// The document that the lines of tokens `lines` hold, or why they hold
/// none: the head is read token by token, then one line for each frame, and
/// after the last frame no token may follow.
pub open spec fn parse_lines(lines: Seq<Seq<Seq<u8>>>) -> Result<BvhView, LoadError> {
    match read_head(initial_header(), lines, 0, 0, -1) {
        Head::Failed(error) => Err(error),
        Head::Read { header, rows_start } => match read_rows(
            lines,
            rows_start,
            header.num_frames,
            header.num_channels,
            0,
        ) {
            Err(error) => Err(error),
            Ok(values) => {
                let extra = next_filled(lines, rows_start + header.num_frames);
                if extra < lines.len() {
                    Err(
                        LoadError::MotionSizeMismatch {
                            frame: (extra - rows_start) as usize,
                            wanted: 0,
                            actual: lines[extra].len() as usize,
                        },
                    )
                } else {
                    Ok(
                        BvhView {
                            joints: header.joints,
                            motion_values: values,
                            num_frames: header.num_frames,
                            num_channels: header.num_channels,
                            frame_time: header.frame_time,
                        },
                    )
                }
            },
        },
    }
}

/// The document that `text` holds, or why it holds none.
pub open spec fn parse_document(text: Seq<u8>) -> Result<BvhView, LoadError> {
    parse_lines(lex(text))
}

/// Which word of the grammar `token` is.
pub fn classify(token: &[u8]) -> (word: Word)
    ensures
        word == word_of(token@),
{
    if bytes_equal(token, hierarchy_word().as_slice()) {
        Word::Hierarchy
    } else if bytes_equal(token, root_word().as_slice()) {
        Word::Root
    } else if bytes_equal(token, joint_word().as_slice()) {
        Word::Joint
    } else if bytes_equal(token, end_word().as_slice()) {
        Word::End
    } else if bytes_equal(token, site_word().as_slice()) {
        Word::Site
    } else if bytes_equal(token, offset_word().as_slice()) {
        Word::Offset
    } else if bytes_equal(token, channels_word().as_slice()) {
        Word::Channels
    } else if bytes_equal(token, motion_word().as_slice()) {
        Word::Motion
    } else if bytes_equal(token, frames_word().as_slice()) {
        Word::Frames
    } else if bytes_equal(token, frame_word().as_slice()) {
        Word::Frame
    } else if bytes_equal(token, time_word().as_slice()) {
        Word::Time
    } else if bytes_equal(token, open_word().as_slice()) {
        Word::Open
    } else if bytes_equal(token, close_word().as_slice()) {
        Word::Close
    } else {
        Word::Other
    }
}

/// The count that `token` denotes, if it denotes one.
pub fn read_count(token: &[u8]) -> (count: Option<usize>)
    ensures
        count == parse_count(token@),
{
    if token.len() == 0 {
        return None;
    }
    let mut i: usize = 0;
    while i < token.len()
        invariant
            i <= token.len(),
            forall|k: int| 0 <= k < i ==> is_digit(#[trigger] token@[k]),
        decreases token.len() - i,
    {
        if token[i] < 48 || token[i] > 57 {
            assert(!is_digit(token@[i as int]));
            return None;
        }
        i += 1;
    }
    match digits_to_u64(token) {
        Some(value) => if value <= usize::MAX as u64 {
            Some(value as usize)
        } else {
            None
        },
        None => None,
    }
}

/// `last_at_depth` after one more joint.
pub proof fn lemma_last_at_depth_push(joints: Seq<JointView>, joint: JointView, depth: int)
    ensures
        last_at_depth(joints.push(joint), depth) == (if joint.depth == depth {
            joints.len() as int
        } else {
            last_at_depth(joints, depth)
        }),
{
    assert(joints.push(joint).drop_last() =~= joints);
}

/// `last_at_depth` does not change where a joint is replaced by one of the
/// same depth.
pub proof fn lemma_last_at_depth_update(
    joints: Seq<JointView>,
    at: int,
    joint: JointView,
    depth: int,
)
    requires
        0 <= at < joints.len(),
        joint.depth == joints[at].depth,
    ensures
        last_at_depth(joints.update(at, joint), depth) == last_at_depth(joints, depth),
    decreases joints.len(),
{
    let updated = joints.update(at, joint);
    if at == joints.len() - 1 {
        assert(updated.drop_last() =~= joints.drop_last());
    } else {
        assert(updated.drop_last() =~= joints.drop_last().update(at, joint));
        lemma_last_at_depth_update(joints.drop_last(), at, joint, depth);
    }
}

/// Where `last_at_depth` points, if anywhere, stands a joint of that depth.
pub proof fn lemma_last_at_depth_bounds(joints: Seq<JointView>, depth: int)
    ensures
        -1 <= last_at_depth(joints, depth) < joints.len(),
        last_at_depth(joints, depth) >= 0 ==> joints[last_at_depth(joints, depth)].depth == depth,
        forall|j: int|
            last_at_depth(joints, depth) < j < joints.len() ==> (#[trigger] joints[j]).depth
                != depth,
    decreases joints.len(),
{
    if joints.len() > 0 && joints.last().depth != depth {
        lemma_last_at_depth_bounds(joints.drop_last(), depth);
        assert forall|j: int| last_at_depth(joints, depth) < j < joints.len() implies (
        #[trigger] joints[j]).depth != depth by {
            if j < joints.len() - 1 {
                assert(joints.drop_last()[j] == joints[j]);
            }
        }
    }
}

/// The reader's state while it reads the head of a document.
pub struct Header {
    pub stage: Stage,
    pub joints: Vec<Joint>,
    /// Where the open joints stand, the outermost first.
    pub open: Vec<usize>,
    pub num_channels: usize,
    pub num_frames: usize,
    pub frame_time: u64,
}

impl View for Header {
    type V = HeaderView;

    open spec fn view(&self) -> HeaderView {
        HeaderView {
            stage: self.stage,
            joints: joint_views(self.joints@),
            depth: self.open@.len(),
            num_channels: self.num_channels as nat,
            num_frames: self.num_frames as nat,
            frame_time: self.frame_time as nat,
        }
    }
}

impl Header {
    /// Whether the list of open joints names, for every open level, the
    /// last joint at that level.
    pub open spec fn in_step(&self) -> bool {
        &&& forall|k: int|
            0 <= k < self.open@.len() ==> #[trigger] self.open@[k] == last_at_depth(
                self@.joints,
                k,
            )
        &&& (self.stage is Open ==> self.joints@.len() >= 1 && self@.joints.last().depth
            == self.open@.len())
    }

    /// The reader before the first token.
    pub fn new() -> (header: Header)
        ensures
            header@ == initial_header(),
            header.in_step(),
    {
        let header = Header {
            stage: Stage::Hierarchy,
            joints: Vec::new(),
            open: Vec::new(),
            num_channels: 0,
            num_frames: 0,
            frame_time: 0,
        };
        assert(header@.joints =~= Seq::<JointView>::empty());
        header
    }
}

/// What a token did to the reader.
#[derive(Clone, Copy, Debug, PartialEq, Eq, Structural)]
pub enum Outcome {
    Next,
    Stop,
    Fail(Expected),
}

/// Whether `outcome`, with the reader's state before and after, is what
/// `step` says of `token`.
pub open spec fn outcome_matches(
    before: Header,
    token: Seq<u8>,
    after: Header,
    outcome: Outcome,
) -> bool {
    match step(before@, token) {
        Step::Next(next) => outcome == Outcome::Next && after@ == next && after.in_step(),
        Step::Stop => outcome == Outcome::Stop && after == before,
        Step::Fail(expected) => outcome == Outcome::Fail(expected),
    }
}

/// Sets coordinate `axis` of `offset` to `value`.
fn set_axis(offset: &mut Vector3<Decimal>, axis: u8, value: Decimal)
    ensures
        offset_view(*final(offset)) == with_axis(offset_view(*old(offset)), axis, value@),
{
    if axis == 0 {
        offset.x = value;
    } else if axis == 1 {
        offset.y = value;
    } else {
        offset.z = value;
    }
}

/// Replaces the joint at `at`.
fn put_joint(h: &mut Header, at: usize, joint: Joint)
    requires
        at < old(h).joints@.len(),
        old(h).in_step(),
        !(old(h).stage is Open),
        joint@.depth == old(h)@.joints[at as int].depth,
    ensures
        final(h)@ == (HeaderView { joints: old(h)@.joints.update(at as int, joint@), ..old(h)@ }),
        final(h).in_step(),
        final(h).open == old(h).open,
{
    let ghost before = h@.joints;
    h.joints.set(at, joint);
    proof {
        assert(h@.joints =~= before.update(at as int, joint@));
        assert forall|k: int| 0 <= k < h.open@.len() implies #[trigger] h.open@[k]
            == last_at_depth(h@.joints, k) by {
            lemma_last_at_depth_update(before, at as int, joint@, k);
        }
    }
}

/// Takes `token` inside a joint.
fn take_in_joint(h: &mut Header, token: &[u8]) -> (outcome: Outcome)
    requires
        old(h).in_step(),
        in_joint(old(h).stage),
    ensures
        outcome_matches(*old(h), token@, *final(h), outcome),
{
    let count: usize = h.joints.len();
    let ghost before = h@.joints;
    match h.stage {
        Stage::Name => {
            if count >= usize::MAX {
                return Outcome::Fail(Expected::Name);
            }
            let depth: usize = h.open.len();
            let parent: Option<usize> = if depth == 0 {
                None
            } else {
                Some(h.open[depth - 1])
            };
            let joint = Joint {
                name: JointName::from_slice(token),
                offset: zero_offset(),
                channels: ChannelList::new(),
                end_site: None,
                parent_index: parent,
                depth,
            };
            assert(joint@ == opened_joint(old(h)@, token@));
            h.joints.push(joint);
            h.stage = Stage::Open;
            proof {
                assert(h@.joints =~= before.push(joint@));
                assert forall|k: int| 0 <= k < h.open@.len() implies #[trigger] h.open@[k]
                    == last_at_depth(h@.joints, k) by {
                    lemma_last_at_depth_push(before, joint@, k);
                }
            }
            Outcome::Next
        },
        Stage::Open => {
            if classify(token) == Word::Open {
                h.open.push(count - 1);
                h.stage = Stage::Offset;
                assert(h@.joints == before);
                Outcome::Next
            } else {
                Outcome::Fail(Expected::OpenBrace)
            }
        },
        Stage::Offset => {
            if classify(token) == Word::Offset {
                h.stage = Stage::OffsetValue { axis: 0 };
                Outcome::Next
            } else {
                Outcome::Fail(Expected::Offset)
            }
        },
        Stage::OffsetValue { axis } => {
            match Decimal::parse(token) {
                Some(value) => {
                    h.stage = if axis < 2 {
                        Stage::OffsetValue { axis: axis + 1 }
                    } else {
                        Stage::Channels
                    };
                    if count > 0 {
                        let mut joint: Joint = h.joints[count - 1].clone();
                        set_axis(&mut joint.offset, axis, value);
                        put_joint(h, count - 1, joint);
                    }
                    Outcome::Next
                },
                None => Outcome::Fail(Expected::Number),
            }
        },
        Stage::Channels => {
            if classify(token) == Word::Channels {
                h.stage = Stage::ChannelCount;
                Outcome::Next
            } else {
                Outcome::Fail(Expected::Channels)
            }
        },
        Stage::ChannelCount => {
            match read_count(token) {
                Some(channels) => {
                    h.stage = if channels == 0 {
                        Stage::Body
                    } else {
                        Stage::ChannelKind { remaining: channels }
                    };
                    Outcome::Next
                },
                None => Outcome::Fail(Expected::ChannelCount),
            }
        },
        Stage::ChannelKind { remaining } => {
            match ChannelType::from_bytes(token) {
                Some(kind) => {
                    if h.num_channels >= usize::MAX {
                        return Outcome::Fail(Expected::ChannelKind);
                    }
                    h.stage = if remaining <= 1 {
                        Stage::Body
                    } else {
                        Stage::ChannelKind { remaining: remaining - 1 }
                    };
                    if count > 0 {
                        let mut joint: Joint = h.joints[count - 1].clone();
                        joint.channels.push(Channel::new(kind, h.num_channels));
                        put_joint(h, count - 1, joint);
                    }
                    h.num_channels = h.num_channels + 1;
                    Outcome::Next
                },
                None => Outcome::Fail(Expected::ChannelKind),
            }
        },
        _ => Outcome::Fail(Expected::JointOrEndOrClose),
    }
}

/// Takes `token` after the channels of a joint.
fn take_in_body(h: &mut Header, token: &[u8]) -> (outcome: Outcome)
    requires
        old(h).in_step(),
        in_body(old(h).stage),
    ensures
        outcome_matches(*old(h), token@, *final(h), outcome),
{
    let depth: usize = h.open.len();
    let count: usize = h.joints.len();
    let ghost before = h@.joints;
    let ghost at = open_joint(h@);
    proof {
        lemma_last_at_depth_bounds(before, depth - 1);
        if depth > 0 {
            assert(h.open@[depth - 1] == at);
        }
    }
    match h.stage {
        Stage::Body => {
            let word: Word = classify(token);
            if word == Word::Joint {
                h.stage = Stage::Name;
                Outcome::Next
            } else if word == Word::End && (depth == 0 || h.open[depth - 1] >= count
                || h.joints[h.open[depth - 1]].end_site.is_none()) {
                h.stage = Stage::Site;
                Outcome::Next
            } else if word == Word::Close && depth >= 1 {
                h.stage = if depth == 1 {
                    Stage::Motion
                } else {
                    Stage::Body
                };
                h.open.pop();
                assert(h@.joints == before);
                Outcome::Next
            } else {
                Outcome::Fail(Expected::JointOrEndOrClose)
            }
        },
        Stage::Site => {
            if classify(token) == Word::Site {
                h.stage = Stage::EndOpen;
                Outcome::Next
            } else {
                Outcome::Fail(Expected::Site)
            }
        },
        Stage::EndOpen => {
            if classify(token) == Word::Open {
                h.stage = Stage::EndOffset;
                Outcome::Next
            } else {
                Outcome::Fail(Expected::OpenBrace)
            }
        },
        Stage::EndOffset => {
            if classify(token) == Word::Offset {
                h.stage = Stage::EndValue { axis: 0 };
                if depth > 0 && h.open[depth - 1] < count {
                    let place: usize = h.open[depth - 1];
                    let mut joint: Joint = h.joints[place].clone();
                    joint.end_site = Some(zero_offset());
                    put_joint(h, place, joint);
                }
                Outcome::Next
            } else {
                Outcome::Fail(Expected::Offset)
            }
        },
        Stage::EndValue { axis } => {
            match Decimal::parse(token) {
                Some(value) => {
                    h.stage = if axis < 2 {
                        Stage::EndValue { axis: axis + 1 }
                    } else {
                        Stage::EndClose
                    };
                    if depth > 0 && h.open[depth - 1] < count {
                        let place: usize = h.open[depth - 1];
                        let mut joint: Joint = h.joints[place].clone();
                        let mut offset: Vector3<Decimal> = match joint.end_site {
                            Some(offset) => offset,
                            None => zero_offset(),
                        };
                        set_axis(&mut offset, axis, value);
                        joint.end_site = Some(offset);
                        put_joint(h, place, joint);
                    }
                    Outcome::Next
                },
                None => Outcome::Fail(Expected::Number),
            }
        },
        Stage::EndClose => {
            if classify(token) == Word::Close {
                h.stage = Stage::Body;
                Outcome::Next
            } else {
                Outcome::Fail(Expected::CloseBrace)
            }
        },
        _ => Outcome::Fail(Expected::JointOrEndOrClose),
    }
}

/// Takes `token` outside the joints.
fn take_outside(h: &mut Header, token: &[u8]) -> (outcome: Outcome)
    requires
        old(h).in_step(),
        !in_joint(old(h).stage),
        !in_body(old(h).stage),
    ensures
        outcome_matches(*old(h), token@, *final(h), outcome),
{
    let word: Word = classify(token);
    match h.stage {
        Stage::Hierarchy => {
            if word == Word::Hierarchy {
                h.stage = Stage::RootOrMotion;
                Outcome::Next
            } else {
                Outcome::Fail(Expected::Hierarchy)
            }
        },
        Stage::RootOrMotion => {
            if word == Word::Root {
                h.stage = Stage::Name;
                Outcome::Next
            } else if word == Word::Motion {
                h.stage = Stage::FramesOrTime;
                Outcome::Next
            } else {
                Outcome::Fail(Expected::RootOrMotion)
            }
        },
        Stage::Motion => {
            if word == Word::Motion {
                h.stage = Stage::FramesOrTime;
                Outcome::Next
            } else {
                Outcome::Fail(Expected::Motion)
            }
        },
        Stage::FramesOrTime => {
            if word == Word::Frames {
                h.stage = Stage::FrameCount;
                Outcome::Next
            } else if word == Word::Frame {
                h.stage = Stage::Time;
                Outcome::Next
            } else {
                Outcome::Stop
            }
        },
        Stage::FrameCount => {
            match read_count(token) {
                Some(frames) => {
                    h.stage = Stage::TimeOrRows;
                    h.num_frames = frames;
                    Outcome::Next
                },
                None => Outcome::Fail(Expected::FrameCount),
            }
        },
        Stage::TimeOrRows => {
            if word == Word::Frame {
                h.stage = Stage::Time;
                Outcome::Next
            } else {
                Outcome::Stop
            }
        },
        Stage::Time => {
            if word == Word::Time {
                h.stage = Stage::TimeValue;
                Outcome::Next
            } else {
                Outcome::Fail(Expected::Time)
            }
        },
        Stage::TimeValue => {
            match Decimal::parse(token) {
                Some(value) => {
                    h.stage = Stage::Rows;
                    h.frame_time = fraction_seconds_to_nanos(&value);
                    Outcome::Next
                },
                None => Outcome::Fail(Expected::Number),
            }
        },
        _ => Outcome::Stop,
    }
}

/// Takes `token`: moves the reader on as `step` says, or reports that the
/// token ends the head or breaks the grammar.
pub fn take(h: &mut Header, token: &[u8]) -> (outcome: Outcome)
    requires
        old(h).in_step(),
    ensures
        outcome_matches(*old(h), token@, *final(h), outcome),
{
    match h.stage {
        Stage::Name | Stage::Open | Stage::Offset | Stage::OffsetValue { .. } | Stage::Channels
        | Stage::ChannelCount | Stage::ChannelKind { .. } => take_in_joint(h, token),
        Stage::Body | Stage::Site | Stage::EndOpen | Stage::EndOffset | Stage::EndValue { .. }
        | Stage::EndClose => take_in_body(h, token),
        _ => take_outside(h, token),
    }
}

/// Whether `result` is what `head` says: the reader's state and the line of
/// the first frame, or the error.
pub open spec fn head_matches(result: Result<(Header, usize), LoadError>, head: Head) -> bool {
    match head {
        Head::Read { header, rows_start } => match result {
            Ok((h, start)) => h@ == header && start == rows_start,
            Err(_) => false,
        },
        Head::Failed(error) => result == Err::<(Header, usize), LoadError>(error),
    }
}

/// Reads the head of a document from its lines of tokens.
pub fn read_head_of(lines: &Vec<Vec<Vec<u8>>>) -> (result: Result<(Header, usize), LoadError>)
    ensures
        head_matches(result, read_head(initial_header(), line_views(lines@), 0, 0, -1)),
        result matches Ok((h, start)) ==> start <= lines@.len(),
{
    let ghost all = line_views(lines@);
    let ghost total = read_head(initial_header(), all, 0, 0, -1);
    let mut h: Header = Header::new();
    let mut rows_start: usize = 0;
    let mut line: usize = 0;
    while line < lines.len()
        invariant
            line <= lines.len(),
            all == line_views(lines@),
            h.in_step(),
            rows_start <= line,
            total == read_head(initial_header(), all, 0, 0, -1),
            read_head(h@, all, line as int, 0, rows_start - 1) == total,
        decreases lines.len() - line,
    {
        let tokens: &Vec<Vec<u8>> = &lines[line];
        assert(all[line as int] == token_views(tokens@));
        let mut col: usize = 0;
        let ghost last: int = rows_start - 1;
        let ghost mut last_now: int = last;
        while col < tokens.len()
            invariant
                col <= tokens.len(),
                line < lines.len(),
                all == line_views(lines@),
                all[line as int] == token_views(tokens@),
                h.in_step(),
                last_now == (if col == 0 {
                    last
                } else {
                    line as int
                }),
                last < line,
                last == rows_start - 1,
                total == read_head(initial_header(), all, 0, 0, -1),
                read_head(h@, all, line as int, col as int, last_now) == total,
            decreases tokens.len() - col,
        {
            assert(all[line as int][col as int] == tokens@[col as int]@);
            let ghost before = h;
            let outcome: Outcome = take(&mut h, tokens[col].as_slice());
            match outcome {
                Outcome::Next => {
                    col += 1;
                    proof {
                        last_now = line as int;
                    }
                },
                Outcome::Stop => {
                    if col == 0 {
                        return Ok((h, rows_start));
                    } else {
                        return Err(
                            LoadError::MalformedHierarchy {
                                line: line + 1,
                                expected: Expected::EndOfLine,
                            },
                        );
                    }
                },
                Outcome::Fail(expected) => {
                    return Err(LoadError::MalformedHierarchy { line: line + 1, expected });
                },
            }
        }
        if col > 0 {
            rows_start = line + 1;
        }
        line += 1;
    }
    if stage_may_end(h.stage) {
        Ok((h, rows_start))
    } else {
        Err(LoadError::MalformedHierarchy { line: lines.len(), expected: expected_for(h.stage) })
    }
}

/// Whether the text may end at `stage`.
pub fn stage_may_end(stage: Stage) -> (may: bool)
    ensures
        may == may_end(stage),
{
    match stage {
        Stage::FramesOrTime | Stage::TimeOrRows | Stage::Rows => true,
        _ => false,
    }
}

/// What the reader wants at `stage`.
pub fn expected_for(stage: Stage) -> (expected: Expected)
    ensures
        expected == expected_at(stage),
{
    match stage {
        Stage::Hierarchy => Expected::Hierarchy,
        Stage::RootOrMotion => Expected::RootOrMotion,
        Stage::Name => Expected::Name,
        Stage::Open | Stage::EndOpen => Expected::OpenBrace,
        Stage::Offset | Stage::EndOffset => Expected::Offset,
        Stage::OffsetValue { .. } | Stage::EndValue { .. } | Stage::TimeValue => Expected::Number,
        Stage::Channels => Expected::Channels,
        Stage::ChannelCount => Expected::ChannelCount,
        Stage::ChannelKind { .. } => Expected::ChannelKind,
        Stage::Body => Expected::JointOrEndOrClose,
        Stage::Site => Expected::Site,
        Stage::EndClose => Expected::CloseBrace,
        Stage::Motion => Expected::Motion,
        Stage::FrameCount => Expected::FrameCount,
        Stage::Time => Expected::Time,
        Stage::FramesOrTime | Stage::TimeOrRows | Stage::Rows => Expected::EndOfLine,
    }
}

/// Whether level `level` is open in `joints`: there is a joint at that
/// depth, and every joint after the last such joint lies deeper.
pub open spec fn level_open(joints: Seq<JointView>, level: int) -> bool {
    &&& last_at_depth(joints, level) >= 0
    &&& forall|j: int|
        last_at_depth(joints, level) < j < joints.len() ==> (#[trigger] joints[j]).depth > level
}

/// What holds of the reader at every token: the joints read so far form a
/// tree in preorder, the open levels are those from zero up to the depth,
/// and the channels are counted and numbered in order.
pub open spec fn sound(h: HeaderView) -> bool {
    let count = h.joints.len();
    &&& count <= usize::MAX
    &&& h.depth <= count
    &&& forall|i: int| 0 <= i < count ==> joint_placed(h.joints, i)
    &&& forall|k: int| 0 <= k < h.depth ==> level_open(h.joints, k)
    &&& h.num_channels == channels_before(h.joints, count as int)
    &&& indices_in_order(h.joints)
    &&& h.num_channels <= usize::MAX
    &&& h.num_frames <= usize::MAX
    &&& (h.stage is Hierarchy || h.stage is RootOrMotion ==> count == 0 && h.depth == 0)
    &&& (h.stage is Name ==> (count == 0 <==> h.depth == 0))
    &&& (h.stage is Open ==> count >= 1 && h.joints.last().depth == h.depth && h.depth < count)
    &&& ((in_joint(h.stage) && !(h.stage is Name) && !(h.stage is Open)) || in_body(h.stage)
        ==> h.depth >= 1 && count >= 1)
}

/// The channels before a joint do not depend on later joints.
pub proof fn lemma_channels_before_prefix(a: Seq<JointView>, b: Seq<JointView>, count: int)
    requires
        count <= a.len(),
        count <= b.len(),
        forall|i: int| 0 <= i < count ==> a[i].channels.len() == b[i].channels.len(),
    ensures
        channels_before(a, count) == channels_before(b, count),
    decreases count,
{
    if count > 0 {
        lemma_channels_before_prefix(a, b, count - 1);
    }
}

/// A joint replaced by one of the same depth and parent leaves the tree
/// and the open levels as they were.
pub proof fn lemma_update_keeps_shape(joints: Seq<JointView>, at: int, joint: JointView)
    requires
        0 <= at < joints.len(),
        joint.depth == joints[at].depth,
        joint.parent_index == joints[at].parent_index,
    ensures
        forall|i: int|
            0 <= i < joints.len() && joint_placed(joints, i) ==> joint_placed(
                joints.update(at, joint),
                i,
            ),
        forall|k: int| level_open(joints, k) ==> level_open(joints.update(at, joint), k),
{
    let updated = joints.update(at, joint);
    assert forall|i: int| 0 <= i < joints.len() && joint_placed(joints, i) implies joint_placed(
        updated,
        i,
    ) by {
        if i > 0 {
            let p = joints[i].parent_index.unwrap();
            assert(updated[i].parent_index == joints[i].parent_index);
            assert(updated[p as int].depth == joints[p as int].depth);
            assert forall|j: int| p < j < i implies updated[j].depth >= updated[i].depth by {
                assert(updated[j].depth == joints[j].depth);
            }
        }
    }
    assert forall|k: int| level_open(joints, k) implies level_open(updated, k) by {
        lemma_last_at_depth_update(joints, at, joint, k);
        assert forall|j: int| last_at_depth(updated, k) < j < updated.len() implies (
        #[trigger] updated[j]).depth > k by {
            assert(updated[j].depth == joints[j].depth);
        }
    }
}

/// One more joint leaves the earlier joints placed as they were.
pub proof fn lemma_push_keeps_placed(joints: Seq<JointView>, joint: JointView)
    ensures
        forall|i: int|
            0 <= i < joints.len() && joint_placed(joints, i) ==> joint_placed(joints.push(joint), i),
{
    let more = joints.push(joint);
    assert forall|i: int| 0 <= i < joints.len() && joint_placed(joints, i) implies joint_placed(
        more,
        i,
    ) by {
        if i > 0 {
            let p = joints[i].parent_index.unwrap();
            assert(more[i] == joints[i]);
            assert(more[p as int] == joints[p as int]);
            assert forall|j: int| p < j < i implies more[j].depth >= more[i].depth by {
                assert(more[j] == joints[j]);
            }
        }
    }
}

/// Reading the name of a joint keeps the reader sound.
proof fn lemma_name_sound(h: HeaderView, token: Seq<u8>)
    requires
        sound(h),
        h.stage is Name,
        h.joints.len() < usize::MAX,
    ensures
        sound(HeaderView { stage: Stage::Open, joints: h.joints.push(opened_joint(h, token)), ..h }),
{
    let joint = opened_joint(h, token);
    let more = h.joints.push(joint);
    let count = h.joints.len() as int;
    lemma_push_keeps_placed(h.joints, joint);
    if h.depth > 0 {
        lemma_last_at_depth_bounds(h.joints, h.depth - 1);
        assert(level_open(h.joints, h.depth - 1));
        let p = last_at_depth(h.joints, h.depth - 1);
        assert(more[p] == h.joints[p]);
        assert forall|j: int| p < j < count implies more[j].depth >= more[count].depth by {
            assert(more[j] == h.joints[j]);
        }
    }
    assert(joint_placed(more, count));
    assert forall|i: int| 0 <= i < more.len() implies joint_placed(more, i) by {
        if i < count {
            assert(joint_placed(h.joints, i));
        }
    }
    assert forall|k: int| 0 <= k < h.depth implies level_open(more, k) by {
        lemma_last_at_depth_push(h.joints, joint, k);
        assert(level_open(h.joints, k));
        assert forall|j: int| last_at_depth(more, k) < j < more.len() implies (
        #[trigger] more[j]).depth > k by {
            if j < count {
                assert(more[j] == h.joints[j]);
            }
        }
    }
    lemma_channels_before_prefix(h.joints, more, count);
    assert(channels_before(more, count + 1) == channels_before(more, count));
    assert(indices_in_order(more)) by {
        assert forall|i: int, c: int|
            0 <= i < more.len() && 0 <= c < more[i].channels.len() implies (
        #[trigger] more[i].channels[c]).motion_index == channels_before(more, i) + c by {
            assert(more[i] == h.joints[i]);
            lemma_channels_before_prefix(h.joints, more, i);
        }
    }
}

/// A new channel for the last joint keeps the reader sound.
proof fn lemma_channel_sound(h: HeaderView, kind: ChannelType, stage: Stage)
    requires
        sound(h),
        h.stage is ChannelKind,
        stage is Body || stage is ChannelKind,
        h.num_channels < usize::MAX,
    ensures
        ({
            let last = h.joints.len() - 1;
            sound(
                HeaderView {
                    stage,
                    joints: replaced(
                        h.joints,
                        last,
                        JointView {
                            channels: h.joints[last].channels.push(
                                Channel {
                                    channel_type: kind,
                                    motion_index: h.num_channels as usize,
                                },
                            ),
                            ..h.joints[last]
                        },
                    ),
                    num_channels: h.num_channels + 1,
                    ..h
                },
            )
        }),
{
    let last = h.joints.len() - 1;
    let channel = Channel { channel_type: kind, motion_index: h.num_channels as usize };
    let joint = JointView { channels: h.joints[last].channels.push(channel), ..h.joints[last] };
    let more = h.joints.update(last, joint);
    lemma_update_keeps_shape(h.joints, last, joint);
    assert forall|i: int| 0 <= i < more.len() implies joint_placed(more, i) by {
        assert(joint_placed(h.joints, i));
    }
    assert forall|k: int| 0 <= k < h.depth implies level_open(more, k) by {
        assert(level_open(h.joints, k));
    }
    lemma_channels_before_prefix(h.joints, more, last);
    assert(channels_before(more, last + 1) == channels_before(h.joints, last + 1) + 1);
    assert(indices_in_order(more)) by {
        assert forall|i: int, c: int|
            0 <= i < more.len() && 0 <= c < more[i].channels.len() implies (
        #[trigger] more[i].channels[c]).motion_index == channels_before(more, i) + c by {
            lemma_channels_before_prefix(h.joints, more, i);
            if i < last {
                assert(more[i] == h.joints[i]);
            } else if c < h.joints[last].channels.len() {
                assert(more[i].channels[c] == h.joints[last].channels[c]);
            }
        }
    }
}

/// New values for a joint, which leave its depth, parent and channels as
/// they were, keep the reader sound.
proof fn lemma_values_sound(h: HeaderView, at: int, joint: JointView, stage: Stage)
    requires
        sound(h),
        (in_joint(h.stage) && !(h.stage is Name) && !(h.stage is Open)) || in_body(h.stage),
        (in_joint(stage) && !(stage is Name) && !(stage is Open)) || in_body(stage),
        0 <= at < h.joints.len() ==> joint.depth == h.joints[at].depth && joint.parent_index
            == h.joints[at].parent_index && joint.channels == h.joints[at].channels,
    ensures
        sound(HeaderView { stage, joints: replaced(h.joints, at, joint), ..h }),
{
    if 0 <= at < h.joints.len() {
        let more = h.joints.update(at, joint);
        lemma_update_keeps_shape(h.joints, at, joint);
        assert forall|i: int| 0 <= i < more.len() implies joint_placed(more, i) by {
            assert(joint_placed(h.joints, i));
        }
        assert forall|k: int| 0 <= k < h.depth implies level_open(more, k) by {
            assert(level_open(h.joints, k));
        }
        lemma_channels_before_prefix(h.joints, more, h.joints.len() as int);
        assert(indices_in_order(more)) by {
            assert forall|i: int, c: int|
                0 <= i < more.len() && 0 <= c < more[i].channels.len() implies (
            #[trigger] more[i].channels[c]).motion_index == channels_before(more, i) + c by {
                lemma_channels_before_prefix(h.joints, more, i);
                assert(more[i].channels == h.joints[i].channels);
                assert(more[i].channels[c] == h.joints[i].channels[c]);
            }
        }
    }
}

/// Every token that the reader takes keeps it sound.
pub proof fn lemma_step_sound(h: HeaderView, token: Seq<u8>)
    requires
        sound(h),
    ensures
        step(h, token) matches Step::Next(next) ==> sound(next),
{
    let last = h.joints.len() - 1;
    match step(h, token) {
        Step::Next(next) => {
            match h.stage {
                Stage::Name => {
                    lemma_name_sound(h, token);
                },
                Stage::Open => {
                    lemma_last_at_depth_bounds(h.joints, h.depth as int);
                    assert(level_open(h.joints, h.depth as int));
                },
                Stage::OffsetValue { axis } => {
                    let value = parse_decimal(token).unwrap();
                    lemma_values_sound(
                        h,
                        last,
                        JointView {
                            offset: with_axis(h.joints[last].offset, axis, value),
                            ..h.joints[last]
                        },
                        next.stage,
                    );
                },
                Stage::ChannelKind { remaining } => {
                    lemma_channel_sound(h, channel_type_of_text(token).unwrap(), next.stage);
                },
                Stage::EndOffset => {
                    let at = open_joint(h);
                    lemma_values_sound(
                        h,
                        at,
                        JointView { end_site: Some(zero_offset_view()), ..h.joints[at] },
                        next.stage,
                    );
                },
                Stage::EndValue { axis } => {
                    let at = open_joint(h);
                    let value = parse_decimal(token).unwrap();
                    lemma_values_sound(
                        h,
                        at,
                        JointView {
                            end_site: Some(
                                with_axis(
                                    match h.joints[at].end_site {
                                        Some(offset) => offset,
                                        None => zero_offset_view(),
                                    },
                                    axis,
                                    value,
                                ),
                            ),
                            ..h.joints[at]
                        },
                        next.stage,
                    );
                },
                _ => {},
            }
        },
        _ => {},
    }
}

/// Where reading the head succeeds from a sound reader, it ends with a
/// sound reader, at a stage at which the text may end.
pub proof fn lemma_head_sound(
    h: HeaderView,
    lines: Seq<Seq<Seq<u8>>>,
    line: int,
    col: int,
    last: int,
)
    requires
        sound(h),
        0 <= line,
        0 <= col,
    ensures
        read_head(h, lines, line, col, last) matches Head::Read { header, rows_start } ==> sound(
            header,
        ) && may_end(header.stage),
    decreases lines.len() - line, lines[line].len() - col,
{
    if line >= lines.len() {
    } else if col >= lines[line].len() {
        lemma_head_sound(h, lines, line + 1, 0, last);
    } else {
        lemma_step_sound(h, lines[line][col]);
        match step(h, lines[line][col]) {
            Step::Next(next) => {
                lemma_head_sound(next, lines, line, col + 1, line);
            },
            _ => {},
        }
    }
}

/// A line read as numbers gives one number for each token.
pub proof fn lemma_read_values_len(tokens: Seq<Seq<u8>>)
    ensures
        read_values(tokens) matches Some(values) ==> values.len() == tokens.len(),
    decreases tokens.len(),
{
    if tokens.len() > 0 {
        lemma_read_values_len(tokens.drop_last());
    }
}

/// The frames read from `frame` on hold one value for each channel of each
/// frame.
pub proof fn lemma_read_rows_len(
    lines: Seq<Seq<Seq<u8>>>,
    rows_start: int,
    num_frames: nat,
    num_channels: nat,
    frame: int,
)
    requires
        0 <= frame <= num_frames,
    ensures
        read_rows(lines, rows_start, num_frames, num_channels, frame) matches Ok(values)
            ==> values.len() == (num_frames - frame) * num_channels,
    decreases num_frames - frame,
{
    if frame < num_frames && rows_start + frame < lines.len() {
        let row = lines[rows_start + frame];
        lemma_read_values_len(row);
        lemma_read_rows_len(lines, rows_start, num_frames, num_channels, frame + 1);
        assert((num_frames - frame) * num_channels == num_channels + (num_frames - frame - 1)
            * num_channels) by (nonlinear_arith);
    } else {
        assert(0 * num_channels == 0);
    }
}

/// Every document that the reader accepts is valid: its joints form a tree
/// in preorder, its channels are counted and numbered in order without a
/// gap, and its motion table has one value for each channel of each frame.
pub proof fn lemma_parsed_well_formed(text: Seq<u8>)
    ensures
        parse_document(text) matches Ok(bvh) ==> bvh.well_formed(),
{
    let lines = lex(text);
    assert(sound(initial_header())) by {
        assert(channels_before(Seq::<JointView>::empty(), 0) == 0);
    }
    lemma_head_sound(initial_header(), lines, 0, 0, -1);
    match read_head(initial_header(), lines, 0, 0, -1) {
        Head::Read { header, rows_start } => {
            lemma_read_rows_len(lines, rows_start, header.num_frames, header.num_channels, 0);
        },
        _ => {},
    }
}

/// A line of which a beginning holds a token that denotes no number holds
/// such a token.
pub proof fn lemma_read_values_fails(tokens: Seq<Seq<u8>>, upto: int)
    requires
        0 <= upto <= tokens.len(),
        read_values(tokens.subrange(0, upto)) is None,
    ensures
        read_values(tokens) is None,
    decreases tokens.len() - upto,
{
    if upto < tokens.len() {
        assert(tokens.subrange(0, upto + 1).drop_last() =~= tokens.subrange(0, upto));
        lemma_read_values_fails(tokens, upto + 1);
    } else {
        assert(tokens.subrange(0, upto) =~= tokens);
    }
}

/// Reads the tokens of a line as numbers and adds them to `out`; returns
/// `false`, with `out` holding what was read so far, where a token denotes
/// no number.
fn read_line_values(tokens: &Vec<Vec<u8>>, out: &mut Vec<Decimal>) -> (ok: bool)
    ensures
        match read_values(token_views(tokens@)) {
            Some(values) => ok && decimal_views(final(out)@) == decimal_views(old(out)@) + values,
            None => !ok,
        },
{
    let ghost all = token_views(tokens@);
    let ghost before = decimal_views(out@);
    let mut i: usize = 0;
    assert(all.subrange(0, 0) =~= Seq::<Seq<u8>>::empty());
    assert(decimal_views(out@) =~= before + Seq::<DecimalView>::empty());
    while i < tokens.len()
        invariant
            i <= tokens.len(),
            all == token_views(tokens@),
            read_values(all.subrange(0, i as int)) is Some,
            decimal_views(out@) == before + read_values(all.subrange(0, i as int)).unwrap(),
        decreases tokens.len() - i,
    {
        let ghost sofar = read_values(all.subrange(0, i as int)).unwrap();
        let ghost held = out@;
        proof {
            assert(all.subrange(0, i + 1).drop_last() =~= all.subrange(0, i as int));
            assert(all.subrange(0, i + 1).last() == tokens@[i as int]@);
        }
        match Decimal::parse(tokens[i].as_slice()) {
            Some(value) => {
                out.push(value);
                proof {
                    let now = decimal_views(out@);
                    let want = before + sofar.push(value@);
                    assert(decimal_views(held).len() == held.len());
                    assert(now.len() == want.len());
                    assert forall|k: int| 0 <= k < now.len() implies now[k] == want[k] by {
                        if k < held.len() {
                            assert(now[k] == decimal_views(held)[k]);
                            assert((before + sofar)[k] == want[k]);
                        }
                    }
                    assert(now =~= want);
                }
            },
            None => {
                proof {
                    lemma_read_values_fails(all, i + 1);
                }
                return false;
            },
        }
        i += 1;
    }
    assert(all.subrange(0, i as int) =~= all);
    true
}

/// What reading the frames from `frame` on adds to the values `read`.
pub open spec fn rows_after(
    read: Seq<DecimalView>,
    rest: Result<Seq<DecimalView>, LoadError>,
) -> Result<Seq<DecimalView>, LoadError> {
    match rest {
        Ok(values) => Ok(read + values),
        Err(error) => Err(error),
    }
}

/// Reads the frames from the lines that begin at `rows_start`.
fn read_rows_of(
    lines: &Vec<Vec<Vec<u8>>>,
    rows_start: usize,
    num_frames: usize,
    num_channels: usize,
) -> (result: Result<Vec<Decimal>, LoadError>)
    requires
        rows_start <= lines@.len(),
    ensures
        match read_rows(
            line_views(lines@),
            rows_start as int,
            num_frames as nat,
            num_channels as nat,
            0,
        ) {
            Ok(values) => result is Ok && decimal_views(result.unwrap()@) == values && rows_start
                + num_frames <= lines@.len(),
            Err(error) => result == Err::<Vec<Decimal>, LoadError>(error),
        },
{
    let ghost all = line_views(lines@);
    let ghost total = read_rows(all, rows_start as int, num_frames as nat, num_channels as nat, 0);
    let mut values: Vec<Decimal> = Vec::new();
    let mut frame: usize = 0;
    assert(decimal_views(values@) =~= Seq::<DecimalView>::empty());
    proof {
        let rest = read_rows(all, rows_start as int, num_frames as nat, num_channels as nat, 0);
        match rest {
            Ok(v) => {
                assert(Seq::<DecimalView>::empty() + v =~= v);
            },
            Err(_) => {},
        }
    }
    while frame < num_frames
        invariant
            frame <= num_frames,
            rows_start <= lines@.len(),
            rows_start + frame <= lines@.len(),
            all == line_views(lines@),
            total == read_rows(all, rows_start as int, num_frames as nat, num_channels as nat, 0),
            total == rows_after(
                decimal_views(values@),
                read_rows(
                    all,
                    rows_start as int,
                    num_frames as nat,
                    num_channels as nat,
                    frame as int,
                ),
            ),
        decreases num_frames - frame,
    {
        if frame >= lines.len() - rows_start {
            return Err(
                LoadError::MotionSizeMismatch { frame, wanted: num_channels, actual: 0 },
            );
        }
        let row: &Vec<Vec<u8>> = &lines[rows_start + frame];
        assert(all[rows_start + frame] == token_views(row@));
        if row.len() != num_channels {
            return Err(
                LoadError::MotionSizeMismatch { frame, wanted: num_channels, actual: row.len() },
            );
        }
        let ghost held = decimal_views(values@);
        let ok: bool = read_line_values(row, &mut values);
        if !ok {
            return Err(
                LoadError::MalformedHierarchy {
                    line: rows_start + frame + 1,
                    expected: Expected::Number,
                },
            );
        }
        proof {
            let row_values = read_values(token_views(row@)).unwrap();
            let rest = read_rows(
                all,
                rows_start as int,
                num_frames as nat,
                num_channels as nat,
                frame + 1,
            );
            match rest {
                Ok(v) => {
                    assert(held + (row_values + v) =~= (held + row_values) + v);
                },
                Err(_) => {},
            }
        }
        frame += 1;
    }
    proof {
        assert(decimal_views(values@) + Seq::<DecimalView>::empty() =~= decimal_views(values@));
    }
    Ok(values)
}

/// Reads a document from format text: the document that `parse_document`
/// gives for the text, which is then valid, or the error that it gives.
pub fn from_bytes(bytes: &[u8]) -> (result: Result<Bvh, LoadError>)
    ensures
        match result {
            Ok(bvh) => parse_document(bytes@) == Ok::<BvhView, LoadError>(bvh@)
                && bvh@.well_formed(),
            Err(error) => parse_document(bytes@) == Err::<BvhView, LoadError>(error),
        },
{
    let lines: Vec<Vec<Vec<u8>>> = split_lines(bytes);
    let ghost all = line_views(lines@);
    proof {
        lemma_parsed_well_formed(bytes@);
    }
    let (h, rows_start) = match read_head_of(&lines) {
        Ok(pair) => pair,
        Err(error) => {
            return Err(error);
        },
    };
    let values: Vec<Decimal> = match read_rows_of(&lines, rows_start, h.num_frames, h.num_channels) {
        Ok(values) => values,
        Err(error) => {
            return Err(error);
        },
    };
    let mut extra: usize = rows_start + h.num_frames;
    while extra < lines.len() && lines[extra].len() == 0
        invariant
            rows_start + h.num_frames <= extra <= lines@.len(),
            all == line_views(lines@),
            next_filled(all, rows_start + h.num_frames) == next_filled(all, extra as int),
        decreases lines@.len() - extra,
    {
        assert(all[extra as int] == token_views(lines@[extra as int]@));
        extra += 1;
    }
    if extra < lines.len() {
        assert(all[extra as int] == token_views(lines@[extra as int]@));
        return Err(
            LoadError::MotionSizeMismatch {
                frame: extra - rows_start,
                wanted: 0,
                actual: lines[extra].len(),
            },
        );
    }
    Ok(
        Bvh {
            joints: h.joints,
            motion_values: values,
            num_frames: h.num_frames,
            num_channels: h.num_channels,
            frame_time: nanos_to_duration(h.frame_time),
        },
    )
}

} // verus!
