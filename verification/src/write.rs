//! Options for formatting a document, and the writer that turns a document
//! into text chunk by chunk.

use crate::bvh::{decimal_views, Bvh, BvhView};
use crate::channel::{channel_type_text, Channel};
use crate::decimal::{fixed_text, Decimal, DecimalView};
use crate::digits::{append_bytes, append_usize, nat_text};
use crate::joint::{offset_view, ChannelList, Joint, JointView};
use crate::words::{
    channels_word, close_word, end_word, frame_word, frames_word, hierarchy_word, joint_word,
    motion_word, offset_word, open_word, root_word, site_word, time_word, word_channels,
    word_close, word_end, word_frame, word_frames, word_hierarchy, word_joint, word_motion,
    word_offset, word_open, word_root, word_site, word_time,
};
use bstr::{BStr, BString};
use mint::Vector3;
use vstd::prelude::*;
use vstd::string::StringSliceAdditionalSpecFns;

verus! {

/// `bstr::BString`, an owned byte string.
#[verifier::external_type_specification]
#[verifier::external_body]
pub struct ExBString(BString);

/// `bstr::BStr`, a borrowed byte string.
#[verifier::external_type_specification]
#[verifier::external_body]
pub struct ExBStr(BStr);

/// The bytes that an owned byte string holds.
pub uninterp spec fn bstring_bytes(text: BString) -> Seq<u8>;

/// The bytes that a borrowed byte string holds.
pub uninterp spec fn bstr_bytes(text: &BStr) -> Seq<u8>;

/// `BString::from` for a `Vec<u8>`: the byte string holds the vector's
/// bytes.
#[verifier::external_body]
fn bstring_from_vec(bytes: Vec<u8>) -> (text: BString)
    ensures
        bstring_bytes(text) == bytes@,
{
    BString::from(bytes)
}

/// `AsRef<[u8]>` for `BStr`: the slice is the content of the byte string.
#[verifier::external_body]
pub(crate) fn bstr_as_bytes(text: &BStr) -> (bytes: &[u8])
    ensures
        bytes@ == bstr_bytes(text),
{
    text.as_ref()
}

/// `AsRef<BStr>` for `str`: the byte string is the UTF-8 encoding of the
/// string.
#[verifier::external_body]
fn str_as_bstr(text: &str) -> (bytes: &BStr)
    ensures
        bstr_bytes(bytes) == text.spec_bytes(),
{
    text.as_ref()
}

/// `std::path::is_separator`: whether the platform that runs the program
/// takes `c` for a path separator. The answer differs between platforms, so
/// nothing is stated of it; only Windows takes the backslash for one.
#[verifier::external_body]
fn is_path_separator(c: char) -> (separator: bool) {
    std::path::is_separator(c)
}

/// Which line terminator to write.
#[derive(Clone, Copy, Debug, PartialEq, Eq, Hash, Structural)]
pub enum LineTerminator {
    /// A line feed.
    Unix,
    /// A carriage return and a line feed.
    Windows,
}

/// The bytes of a line terminator.
pub open spec fn terminator_text(terminator: LineTerminator) -> Seq<u8> {
    match terminator {
        LineTerminator::Unix => seq![10u8],
        LineTerminator::Windows => seq![13u8, 10u8],
    }
}

/// The bytes of a line terminator written with escape sequences.
pub open spec fn escaped_terminator_text(terminator: LineTerminator) -> Seq<u8> {
    match terminator {
        LineTerminator::Unix => seq![92u8, 'n' as u8],
        LineTerminator::Windows => seq![92u8, 'r' as u8, 92u8, 'n' as u8],
    }
}

impl Default for LineTerminator {
    /// The line terminator native to the platform.
    fn default() -> (terminator: LineTerminator)
        ensures
            terminator == LineTerminator::Windows || terminator == LineTerminator::Unix,
    {
        LineTerminator::native()
    }
}

impl LineTerminator {
    /// The line terminator as a string.
    pub fn as_str(&self) -> (text: &'static str)
        ensures
            text@ == (match *self {
                LineTerminator::Unix => "\n"@,
                LineTerminator::Windows => "\r\n"@,
            }),
            text.spec_bytes() == terminator_text(*self),
    {
        proof {
            reveal_strlit("\n");
            reveal_strlit("\r\n");
        }
        let text: &'static str = match *self {
            LineTerminator::Unix => "\n",
            LineTerminator::Windows => "\r\n",
        };
        proof {
            assert(text.is_ascii());
            vstd::string::is_ascii_spec_bytes(text);
            assert(text.spec_bytes() =~= terminator_text(*self));
        }
        text
    }

    /// The line terminator with its control characters written as escape
    /// sequences: a backslash and `n`, after a backslash and `r` for the
    /// Windows terminator.
    pub fn as_escaped_str(&self) -> (text: &'static str)
        ensures
            text@ == (match *self {
                LineTerminator::Unix => "\\n"@,
                LineTerminator::Windows => "\\r\\n"@,
            }),
            text.spec_bytes() == escaped_terminator_text(*self),
    {
        proof {
            reveal_strlit("\\n");
            reveal_strlit("\\r\\n");
        }
        let text: &'static str = match *self {
            LineTerminator::Unix => "\\n",
            LineTerminator::Windows => "\\r\\n",
        };
        proof {
            assert(text.is_ascii());
            vstd::string::is_ascii_spec_bytes(text);
            assert(text.spec_bytes() =~= escaped_terminator_text(*self));
        }
        text
    }

    /// The escaped line terminator as a byte string.
    pub fn as_escaped_bstr(&self) -> (text: &'static BStr)
        ensures
            bstr_bytes(text) == escaped_terminator_text(*self),
    {
        str_as_bstr(self.as_escaped_str())
    }

    /// The line terminator of the platform, given whether the platform is
    /// Windows.
    pub fn for_platform(windows: bool) -> (terminator: LineTerminator)
        ensures
            terminator == (if windows {
                LineTerminator::Windows
            } else {
                LineTerminator::Unix
            }),
    {
        if windows {
            LineTerminator::Windows
        } else {
            LineTerminator::Unix
        }
    }

    /// The line terminator native to the platform that runs the program:
    /// `Windows` on Windows, `Unix` elsewhere.
    pub fn native() -> (terminator: LineTerminator)
        ensures
            terminator == LineTerminator::Windows || terminator == LineTerminator::Unix,
    {
        LineTerminator::for_platform(is_path_separator('\\'))
    }

    /// The line terminator as a byte string.
    pub fn as_bstr(&self) -> (text: &'static BStr)
        ensures
            bstr_bytes(text) == terminator_text(*self),
    {
        str_as_bstr(self.as_str())
    }
}

/// How to indent nested joints.
#[derive(Clone, Copy, Debug, PartialEq, Eq, Hash, Structural)]
pub enum IndentStyle {
    /// No indentation.
    NoIndentation,
    /// One tab for each level.
    Tabs,
    /// The given number of spaces for each level.
    Spaces(usize),
}

/// The indentation of a line at nesting level `depth`.
pub open spec fn indent_text(style: IndentStyle, depth: nat) -> Seq<u8> {
    match style {
        IndentStyle::NoIndentation => Seq::empty(),
        IndentStyle::Tabs => Seq::new(depth, |i: int| 9u8),
        IndentStyle::Spaces(n) => Seq::new((n * depth) as nat, |i: int| 32u8),
    }
}

impl IndentStyle {
    /// Indentation by `n` spaces for each level; no indentation where `n`
    /// is zero.
    pub fn with_spaces(n: usize) -> (style: IndentStyle)
        ensures
            style == (if n == 0 {
                IndentStyle::NoIndentation
            } else {
                IndentStyle::Spaces(n)
            }),
    {
        if n == 0 {
            IndentStyle::NoIndentation
        } else {
            IndentStyle::Spaces(n)
        }
    }

    /// Appends to `out` the indentation of a line at nesting level
    /// `depth + extra`.
    pub fn append_indent(&self, depth: usize, extra: usize, out: &mut Vec<u8>)
        ensures
            final(out)@ == old(out)@ + indent_text(*self, (depth + extra) as nat),
    {
        match *self {
            IndentStyle::NoIndentation => {
                assert(out@ =~= old(out)@ + indent_text(*self, (depth + extra) as nat));
            },
            IndentStyle::Tabs => {
                append_repeated(out, 9u8, 1, depth);
                append_repeated(out, 9u8, 1, extra);
                assert(out@ =~= old(out)@ + indent_text(*self, (depth + extra) as nat));
            },
            IndentStyle::Spaces(n) => {
                append_repeated(out, 32u8, n, depth);
                append_repeated(out, 32u8, n, extra);
                assert(n * (depth + extra) == n * depth + n * extra) by (nonlinear_arith);
                assert(out@ =~= old(out)@ + indent_text(*self, (depth + extra) as nat));
            },
        }
    }

    /// The indentation of a line at nesting level `depth`.
    pub fn prefix_chars(&self, depth: usize) -> (prefix: Vec<u8>)
        ensures
            prefix@ == indent_text(*self, depth as nat),
    {
        let mut prefix: Vec<u8> = Vec::new();
        self.append_indent(depth, 0, &mut prefix);
        assert(prefix@ =~= indent_text(*self, depth as nat));
        prefix
    }
}

/// Appends `width * times` copies of `byte` to `out`.
fn append_repeated(out: &mut Vec<u8>, byte: u8, width: usize, times: usize)
    ensures
        final(out)@ == old(out)@ + Seq::new((width * times) as nat, |i: int| byte),
{
    let mut round: usize = 0;
    assert(width * 0 == 0);
    while round < times
        invariant
            round <= times,
            out@ == old(out)@ + Seq::new((width * round) as nat, |i: int| byte),
        decreases times - round,
    {
        let ghost before = out@;
        let mut i: usize = 0;
        while i < width
            invariant
                i <= width,
                out@ == before + Seq::new(i as nat, |k: int| byte),
            decreases width - i,
        {
            out.push(byte);
            i += 1;
            assert(out@ =~= before + Seq::new(i as nat, |k: int| byte));
        }
        round += 1;
        proof {
            assert(width * round == width * (round - 1) + width) by (nonlinear_arith);
            assert(width * (round - 1) >= 0) by (nonlinear_arith)
                requires
                    round >= 1,
            ;
            assert(out@ =~= old(out)@ + Seq::new((width * round) as nat, |i: int| byte));
        }
    }
}

impl Default for IndentStyle {
    /// One tab for each level.
    fn default() -> (style: IndentStyle)
        ensures
            style == IndentStyle::Tabs,
    {
        IndentStyle::Tabs
    }
}

/// Formatting options for writing a document.
#[derive(Clone, Copy, Debug, PartialEq, Eq, Hash, Structural)]
pub struct WriteOptions {
    /// How to indent nested joints.
    pub indent: IndentStyle,
    /// Which line terminator to write.
    pub line_terminator: LineTerminator,
    /// The number of fractional digits of an `OFFSET` value.
    pub offset_significant_figures: usize,
    /// The number of fractional digits of the `Frame Time` value.
    pub frame_time_significant_figures: usize,
    /// The number of fractional digits of a motion value.
    pub motion_values_significant_figures: usize,
}

impl Default for WriteOptions {
    /// Tabs, the platform's line terminator, five fractional digits for
    /// offsets, seven for the frame time and two for motion values.
    fn default() -> (options: WriteOptions)
        ensures
            options.indent == IndentStyle::Tabs,
            options.line_terminator == LineTerminator::Windows || options.line_terminator
                == LineTerminator::Unix,
            options.offset_significant_figures == 5,
            options.frame_time_significant_figures == 7,
            options.motion_values_significant_figures == 2,
    {
        WriteOptions {
            indent: IndentStyle::default(),
            line_terminator: LineTerminator::default(),
            offset_significant_figures: 5,
            frame_time_significant_figures: 7,
            motion_values_significant_figures: 2,
        }
    }
}

impl WriteOptions {
    /// The default options.
    pub fn new() -> (options: WriteOptions)
        ensures
            options.indent == IndentStyle::Tabs,
            options.line_terminator == LineTerminator::Windows || options.line_terminator
                == LineTerminator::Unix,
            options.offset_significant_figures == 5,
            options.frame_time_significant_figures == 7,
            options.motion_values_significant_figures == 2,
    {
        WriteOptions::default()
    }

    /// The options with `indent` replaced.
    pub fn with_indent(self, indent: IndentStyle) -> (options: WriteOptions)
        ensures
            options == (WriteOptions { indent, ..self }),
    {
        WriteOptions { indent, ..self }
    }

    /// The options with `line_terminator` replaced.
    pub fn with_line_terminator(self, line_terminator: LineTerminator) -> (options: WriteOptions)
        ensures
            options == (WriteOptions { line_terminator, ..self }),
    {
        WriteOptions { line_terminator, ..self }
    }

    /// The options with `offset_significant_figures` replaced.
    pub fn with_offset_significant_figures(self, offset_significant_figures: usize) -> (options:
        WriteOptions)
        ensures
            options == (WriteOptions { offset_significant_figures, ..self }),
    {
        WriteOptions { offset_significant_figures, ..self }
    }

    /// The options with `frame_time_significant_figures` replaced.
    pub fn with_frame_time_significant_figures(
        self,
        frame_time_significant_figures: usize,
    ) -> (options: WriteOptions)
        ensures
            options == (WriteOptions { frame_time_significant_figures, ..self }),
    {
        WriteOptions { frame_time_significant_figures, ..self }
    }

    /// The options with `motion_values_significant_figures` replaced.
    pub fn with_motion_values_significant_figures(
        self,
        motion_values_significant_figures: usize,
    ) -> (options: WriteOptions)
        ensures
            options == (WriteOptions { motion_values_significant_figures, ..self }),
    {
        WriteOptions { motion_values_significant_figures, ..self }
    }
}

/// One space.
pub open spec fn space() -> Seq<u8> {
    seq![32u8]
}

/// A line without indentation: `body` and the line terminator.
pub open spec fn plain_line(options: WriteOptions, body: Seq<u8>) -> Seq<u8> {
    body + terminator_text(options.line_terminator)
}

/// A line at nesting level `depth`: indentation, `body` and the line
/// terminator.
pub open spec fn line(options: WriteOptions, depth: nat, body: Seq<u8>) -> Seq<u8> {
    indent_text(options.indent, depth) + plain_line(options, body)
}

/// `OFFSET` and the three coordinates, each with the configured number of
/// fractional digits.
pub open spec fn offset_body(options: WriteOptions, offset: Vector3<DecimalView>) -> Seq<u8> {
    let places = options.offset_significant_figures as nat;
    word_offset() + space() + fixed_text(offset.x, places) + space() + fixed_text(
        offset.y,
        places,
    ) + space() + fixed_text(offset.z, places)
}

/// The kind tokens of `channels`, with one space between neighbours.
pub open spec fn joined_kinds(channels: Seq<Channel>) -> Seq<u8>
    decreases channels.len(),
{
    if channels.len() == 0 {
        Seq::empty()
    } else if channels.len() == 1 {
        channel_type_text(channels[0].channel_type)
    } else {
        joined_kinds(channels.drop_last()) + space() + channel_type_text(
            channels.last().channel_type,
        )
    }
}

/// `CHANNELS`, the number of channels, and the kind tokens; the space after
/// the number is written also where no token follows.
pub open spec fn channels_body(channels: Seq<Channel>) -> Seq<u8> {
    word_channels() + space() + nat_text(channels.len()) + space() + joined_kinds(channels)
}

/// The texts of `values` with `places` fractional digits, with one space
/// between neighbours.
pub open spec fn joined_values(values: Seq<DecimalView>, places: nat) -> Seq<u8>
    decreases values.len(),
{
    if values.len() == 0 {
        Seq::empty()
    } else if values.len() == 1 {
        fixed_text(values[0], places)
    } else {
        joined_values(values.drop_last(), places) + space() + fixed_text(values.last(), places)
    }
}

/// The first chunk of a joint: `ROOT` or `JOINT` with the name, and the
/// opening brace, both at the joint's depth.
pub open spec fn name_chunk(options: WriteOptions, joint: JointView) -> Seq<u8> {
    let keyword = if joint.parent_index.is_none() {
        word_root()
    } else {
        word_joint()
    };
    line(options, joint.depth as nat, keyword + space() + joint.name) + line(
        options,
        joint.depth as nat,
        word_open(),
    )
}

/// The second chunk of a joint: its `OFFSET` line, one level deeper.
pub open spec fn offset_chunk(options: WriteOptions, joint: JointView) -> Seq<u8> {
    line(options, (joint.depth + 1) as nat, offset_body(options, joint.offset))
}

/// The third chunk of a joint: its `CHANNELS` line, one level deeper.
pub open spec fn channels_chunk(options: WriteOptions, joint: JointView) -> Seq<u8> {
    line(options, (joint.depth + 1) as nat, channels_body(joint.channels))
}

/// The `End Site` block of a joint that has an end site; nothing for one
/// that has none.
pub open spec fn end_site_text(options: WriteOptions, joint: JointView) -> Seq<u8> {
    match joint.end_site {
        Some(offset) => {
            let inner = (joint.depth + 1) as nat;
            line(options, inner, word_end() + space() + word_site()) + line(
                options,
                inner,
                word_open(),
            ) + line(options, inner + 1, offset_body(options, offset)) + line(
                options,
                inner,
                word_close(),
            )
        },
        None => Seq::empty(),
    }
}

/// Closing braces, one to a line, at the levels from `from` down to
/// `down_to`, both included; none where `from` is below `down_to`.
pub open spec fn closers(options: WriteOptions, from: nat, down_to: nat) -> Seq<u8>
    decreases from,
{
    if from < down_to {
        Seq::empty()
    } else if from == down_to {
        line(options, from, word_close())
    } else {
        line(options, from, word_close()) + closers(options, (from - 1) as nat, down_to)
    }
}

/// The depth of the joint after joint `i`, or zero where `i` is the last.
pub open spec fn next_depth(joints: Seq<JointView>, i: int) -> nat {
    if i + 1 < joints.len() {
        joints[i + 1].depth as nat
    } else {
        0
    }
}

/// The last chunk of joint `i`: its end site, if any, and the closing
/// braces of the joint and of every ancestor that the next joint does not
/// share.
pub open spec fn close_chunk(options: WriteOptions, joints: Seq<JointView>, i: int) -> Seq<u8> {
    end_site_text(options, joints[i]) + closers(
        options,
        joints[i].depth as nat,
        next_depth(joints, i),
    )
}

/// The `Frame Time` value: the frame time in seconds.
pub open spec fn frame_time_view(nanos: nat) -> DecimalView {
    DecimalView { negative: false, mantissa: nanos, scale: 9 }
}

/// The `HIERARCHY` line.
pub open spec fn hierarchy_chunk(options: WriteOptions) -> Seq<u8> {
    plain_line(options, word_hierarchy())
}

/// The `MOTION` line.
pub open spec fn motion_chunk(options: WriteOptions) -> Seq<u8> {
    plain_line(options, word_motion())
}

/// The `Frames:` line.
pub open spec fn num_frames_chunk(options: WriteOptions, num_frames: nat) -> Seq<u8> {
    plain_line(options, word_frames() + space() + nat_text(num_frames))
}

/// The `Frame Time:` line.
pub open spec fn frame_time_chunk(options: WriteOptions, nanos: nat) -> Seq<u8> {
    plain_line(
        options,
        word_frame() + space() + word_time() + space() + fixed_text(
            frame_time_view(nanos),
            options.frame_time_significant_figures as nat,
        ),
    )
}

/// The line of one frame.
pub open spec fn frame_chunk(options: WriteOptions, values: Seq<DecimalView>) -> Seq<u8> {
    plain_line(options, joined_values(values, options.motion_values_significant_figures as nat))
}

/// Appends one space to `out`.
fn put_space(out: &mut Vec<u8>)
    ensures
        final(out)@ == old(out)@ + space(),
{
    out.push(32u8);
    assert(out@ =~= old(out)@ + space());
}

impl WriteOptions {
    /// Appends `body` and the line terminator to `out`.
    fn put_plain_line(&self, body: &[u8], out: &mut Vec<u8>)
        ensures
            final(out)@ == old(out)@ + plain_line(*self, body@),
    {
        append_bytes(out, body);
        match self.line_terminator {
            LineTerminator::Unix => {
                out.push(10u8);
            },
            LineTerminator::Windows => {
                out.push(13u8);
                out.push(10u8);
            },
        }
        assert(out@ =~= old(out)@ + plain_line(*self, body@));
    }

    /// Appends to `out` the line that holds `body` at nesting level
    /// `depth + extra`.
    fn put_line(&self, depth: usize, extra: usize, body: &[u8], out: &mut Vec<u8>)
        ensures
            final(out)@ == old(out)@ + line(*self, (depth + extra) as nat, body@),
    {
        self.indent.append_indent(depth, extra, out);
        self.put_plain_line(body, out);
        assert(out@ =~= old(out)@ + line(*self, (depth + extra) as nat, body@));
    }

    /// The body of an `OFFSET` line.
    fn offset_body_bytes(&self, offset: &Vector3<Decimal>) -> (body: Vec<u8>)
        ensures
            body@ == offset_body(*self, offset_view(*offset)),
    {
        let places: usize = self.offset_significant_figures;
        let mut body: Vec<u8> = Vec::new();
        append_bytes(&mut body, offset_word().as_slice());
        put_space(&mut body);
        offset.x.append_fixed(places, &mut body);
        put_space(&mut body);
        offset.y.append_fixed(places, &mut body);
        put_space(&mut body);
        offset.z.append_fixed(places, &mut body);
        assert(body@ =~= offset_body(*self, offset_view(*offset)));
        body
    }

    /// The body of a frame line.
    fn values_body_bytes(&self, values: &[Decimal]) -> (body: Vec<u8>)
        ensures
            body@ == joined_values(
                decimal_views(values@),
                self.motion_values_significant_figures as nat,
            ),
    {
        let places: usize = self.motion_values_significant_figures;
        let ghost views = decimal_views(values@);
        let mut body: Vec<u8> = Vec::new();
        let mut i: usize = 0;
        while i < values.len()
            invariant
                i <= values.len(),
                views == decimal_views(values@),
                places == self.motion_values_significant_figures,
                body@ == joined_values(views.subrange(0, i as int), places as nat),
            decreases values.len() - i,
        {
            if i > 0 {
                put_space(&mut body);
            }
            values[i].append_fixed(places, &mut body);
            i += 1;
            proof {
                let now = views.subrange(0, i as int);
                assert(now.drop_last() =~= views.subrange(0, i - 1));
                assert(now.last() == values@[i - 1]@);
                if i == 1 {
                    assert(body@ =~= fixed_text(now[0], places as nat));
                }
            }
        }
        assert(views.subrange(0, i as int) =~= views);
        body
    }

    /// Appends closing braces, one to a line, at the levels from `from` down
    /// to `down_to`.
    fn put_closers(&self, from: usize, down_to: usize, out: &mut Vec<u8>)
        ensures
            final(out)@ == old(out)@ + closers(*self, from as nat, down_to as nat),
    {
        if from < down_to {
            assert(out@ =~= old(out)@ + closers(*self, from as nat, down_to as nat));
            return ;
        }
        let mut level: usize = from;
        loop
            invariant_except_break
                out@ + closers(*self, level as nat, down_to as nat) == old(out)@ + closers(
                    *self,
                    from as nat,
                    down_to as nat,
                ),
            invariant
                down_to <= level <= from,
            ensures
                out@ == old(out)@ + closers(*self, from as nat, down_to as nat),
            decreases level,
        {
            let ghost before = out@;
            self.put_line(level, 0, close_word().as_slice(), out);
            if level == down_to {
                proof {
                    assert(before + closers(*self, level as nat, down_to as nat) =~= out@);
                }
                break ;
            }
            proof {
                assert(before + closers(*self, level as nat, down_to as nat) =~= out@ + closers(
                    *self,
                    (level - 1) as nat,
                    down_to as nat,
                ));
            }
            level -= 1;
        }
    }
}

/// The body of a `CHANNELS` line.
fn channels_body_bytes(channels: &ChannelList) -> (body: Vec<u8>)
    ensures
        body@ == channels_body(channels@),
{
    let items: &[Channel] = channels.as_slice();
    let mut body: Vec<u8> = Vec::new();
    append_bytes(&mut body, channels_word().as_slice());
    put_space(&mut body);
    append_usize(&mut body, items.len());
    put_space(&mut body);
    let ghost head = body@;
    let mut i: usize = 0;
    assert(body@ =~= head + joined_kinds(items@.subrange(0, 0)));
    while i < items.len()
        invariant
            i <= items.len(),
            body@ == head + joined_kinds(items@.subrange(0, i as int)),
        decreases items.len() - i,
    {
        if i > 0 {
            put_space(&mut body);
        }
        items[i].channel_type.append_to(&mut body);
        i += 1;
        proof {
            let now = items@.subrange(0, i as int);
            assert(now.drop_last() =~= items@.subrange(0, i - 1));
            assert(now.last() == items@[i - 1]);
            assert(body@ =~= head + joined_kinds(now));
        }
    }
    assert(items@.subrange(0, i as int) =~= items@);
    body
}

/// Where the writer stands in a document: which part comes next, and how
/// much of it has been written.
#[derive(Clone, Copy, Debug, PartialEq, Eq, Structural)]
pub enum WriteOptionsIterState {
    /// The `HIERARCHY` line.
    WriteHierarchy { written: bool },
    /// The joint at `current_joint`, of which the chunks flagged have been
    /// written.
    WriteJoints { current_joint: usize, wrote_name: bool, wrote_offset: bool, wrote_channels: bool },
    /// The `MOTION` line.
    WriteMotion { written: bool },
    /// The `Frames:` line.
    WriteNumFrames { written: bool },
    /// The `Frame Time:` line.
    WriteFrameTime { written: bool },
    /// The line of the frame at `current_frame`.
    WriteFrames { current_frame: usize },
}

/// The chunk that a step from `state` produces. A step that only moves on to
/// the next part produces the empty chunk.
pub open spec fn chunk_text(options: WriteOptions, bvh: BvhView, state: WriteOptionsIterState) -> Seq<
    u8,
> {
    match state {
        WriteOptionsIterState::WriteHierarchy { written } => if written {
            Seq::empty()
        } else {
            hierarchy_chunk(options)
        },
        WriteOptionsIterState::WriteJoints {
            current_joint,
            wrote_name,
            wrote_offset,
            wrote_channels,
        } => if current_joint >= bvh.joints.len() {
            Seq::empty()
        } else if !wrote_name {
            name_chunk(options, bvh.joints[current_joint as int])
        } else if !wrote_offset {
            offset_chunk(options, bvh.joints[current_joint as int])
        } else if !wrote_channels {
            channels_chunk(options, bvh.joints[current_joint as int])
        } else {
            close_chunk(options, bvh.joints, current_joint as int)
        },
        WriteOptionsIterState::WriteMotion { written } => if written {
            Seq::empty()
        } else {
            motion_chunk(options)
        },
        WriteOptionsIterState::WriteNumFrames { written } => if written {
            Seq::empty()
        } else {
            num_frames_chunk(options, bvh.num_frames)
        },
        WriteOptionsIterState::WriteFrameTime { written } => if written {
            Seq::empty()
        } else {
            frame_time_chunk(options, bvh.frame_time)
        },
        WriteOptionsIterState::WriteFrames { current_frame } => if current_frame >= bvh.num_frames {
            Seq::empty()
        } else {
            frame_chunk(options, bvh.frame(current_frame as int))
        },
    }
}

/// The state after a step from `state`.
pub open spec fn next_state(bvh: BvhView, state: WriteOptionsIterState) -> WriteOptionsIterState {
    match state {
        WriteOptionsIterState::WriteHierarchy { written } => if written {
            WriteOptionsIterState::WriteJoints {
                current_joint: 0,
                wrote_name: false,
                wrote_offset: false,
                wrote_channels: false,
            }
        } else {
            WriteOptionsIterState::WriteHierarchy { written: true }
        },
        WriteOptionsIterState::WriteJoints {
            current_joint,
            wrote_name,
            wrote_offset,
            wrote_channels,
        } => if current_joint >= bvh.joints.len() {
            WriteOptionsIterState::WriteMotion { written: false }
        } else if !wrote_name {
            WriteOptionsIterState::WriteJoints {
                current_joint,
                wrote_name: true,
                wrote_offset,
                wrote_channels,
            }
        } else if !wrote_offset {
            WriteOptionsIterState::WriteJoints {
                current_joint,
                wrote_name,
                wrote_offset: true,
                wrote_channels,
            }
        } else if !wrote_channels {
            WriteOptionsIterState::WriteJoints {
                current_joint,
                wrote_name,
                wrote_offset,
                wrote_channels: true,
            }
        } else {
            WriteOptionsIterState::WriteJoints {
                current_joint: (current_joint + 1) as usize,
                wrote_name: false,
                wrote_offset: false,
                wrote_channels: false,
            }
        },
        WriteOptionsIterState::WriteMotion { written } => if written {
            WriteOptionsIterState::WriteNumFrames { written: false }
        } else {
            WriteOptionsIterState::WriteMotion { written: true }
        },
        WriteOptionsIterState::WriteNumFrames { written } => if written {
            WriteOptionsIterState::WriteFrameTime { written: false }
        } else {
            WriteOptionsIterState::WriteNumFrames { written: true }
        },
        WriteOptionsIterState::WriteFrameTime { written } => if written {
            WriteOptionsIterState::WriteFrames { current_frame: 0 }
        } else {
            WriteOptionsIterState::WriteFrameTime { written: true }
        },
        WriteOptionsIterState::WriteFrames { current_frame } => if current_frame >= bvh.num_frames {
            state
        } else {
            WriteOptionsIterState::WriteFrames { current_frame: (current_frame + 1) as usize }
        },
    }
}

/// Whether a step from `state` still produces something: false only once
/// every frame has been written.
pub open spec fn has_more(bvh: BvhView, state: WriteOptionsIterState) -> bool {
    match state {
        WriteOptionsIterState::WriteFrames { current_frame } => current_frame < bvh.num_frames,
        _ => true,
    }
}

impl WriteOptionsIterState {
    /// The state before anything has been written.
    pub fn new() -> (state: WriteOptionsIterState)
        ensures
            state == (WriteOptionsIterState::WriteHierarchy { written: false }),
    {
        WriteOptionsIterState::WriteHierarchy { written: false }
    }
}

impl Default for WriteOptionsIterState {
    fn default() -> (state: WriteOptionsIterState)
        ensures
            state == (WriteOptionsIterState::WriteHierarchy { written: false }),
    {
        WriteOptionsIterState::new()
    }
}

impl WriteOptions {
    /// Appends the first chunk of `joint` to `out`.
    fn put_name_chunk(&self, joint: &Joint, out: &mut Vec<u8>)
        ensures
            final(out)@ == old(out)@ + name_chunk(*self, joint@),
    {
        let mut body: Vec<u8> = Vec::new();
        if joint.is_root() {
            append_bytes(&mut body, root_word().as_slice());
        } else {
            append_bytes(&mut body, joint_word().as_slice());
        }
        put_space(&mut body);
        append_bytes(&mut body, joint.name.as_slice());
        self.put_line(joint.depth, 0, body.as_slice(), out);
        self.put_line(joint.depth, 0, open_word().as_slice(), out);
        assert(out@ =~= old(out)@ + name_chunk(*self, joint@));
    }

    /// Appends the `End Site` block of `joint`, if it has one, to `out`.
    fn put_end_site(&self, joint: &Joint, out: &mut Vec<u8>)
        ensures
            final(out)@ == old(out)@ + end_site_text(*self, joint@),
    {
        match &joint.end_site {
            Some(offset) => {
                let mut title: Vec<u8> = Vec::new();
                append_bytes(&mut title, end_word().as_slice());
                put_space(&mut title);
                append_bytes(&mut title, site_word().as_slice());
                self.put_line(joint.depth, 1, title.as_slice(), out);
                self.put_line(joint.depth, 1, open_word().as_slice(), out);
                let body: Vec<u8> = self.offset_body_bytes(offset);
                self.put_line(joint.depth, 2, body.as_slice(), out);
                self.put_line(joint.depth, 1, close_word().as_slice(), out);
                assert(out@ =~= old(out)@ + end_site_text(*self, joint@));
            },
            None => {
                assert(out@ =~= old(out)@ + end_site_text(*self, joint@));
            },
        }
    }

    /// Appends the last chunk of the joint at `index` to `out`.
    fn put_close_chunk(&self, joints: &Vec<Joint>, index: usize, out: &mut Vec<u8>)
        requires
            index < joints.len(),
        ensures
            final(out)@ == old(out)@ + close_chunk(*self, crate::bvh::joint_views(joints@), index as int),
    {
        let ghost views = crate::bvh::joint_views(joints@);
        assert(views[index as int] == joints@[index as int]@);
        self.put_end_site(&joints[index], out);
        let down_to: usize = if index + 1 < joints.len() {
            assert(views[index + 1] == joints@[index + 1]@);
            joints[index + 1].depth
        } else {
            0
        };
        self.put_closers(joints[index].depth, down_to, out);
        assert(out@ =~= old(out)@ + close_chunk(*self, views, index as int));
    }
}

impl WriteOptions {
    /// Produces the next chunk of the document in `chunk`, replacing what it
    /// held, and moves `iter_state` one step on. Returns `false`, with an
    /// empty chunk and the state unchanged, once every frame has been
    /// written.
    pub fn next_chunk(
        &self,
        bvh: &Bvh,
        chunk: &mut Vec<u8>,
        iter_state: &mut WriteOptionsIterState,
    ) -> (more: bool)
        requires
            bvh@.motion_ok(),
        ensures
            more == has_more(bvh@, *old(iter_state)),
            final(chunk)@ == chunk_text(*self, bvh@, *old(iter_state)),
            *final(iter_state) == next_state(bvh@, *old(iter_state)),
    {
        chunk.clear();
        let state: WriteOptionsIterState = *iter_state;
        let ghost text = chunk_text(*self, bvh@, state);
        let ghost empty = Seq::<u8>::empty();
        assert(chunk@ =~= empty);
        assert(bvh@.joints.len() == bvh.joints@.len());
        match state {
            WriteOptionsIterState::WriteHierarchy { written } => {
                if !written {
                    self.put_plain_line(hierarchy_word().as_slice(), chunk);
                    *iter_state = WriteOptionsIterState::WriteHierarchy { written: true };
                } else {
                    *iter_state = WriteOptionsIterState::WriteJoints {
                        current_joint: 0,
                        wrote_name: false,
                        wrote_offset: false,
                        wrote_channels: false,
                    };
                }
            },
            WriteOptionsIterState::WriteJoints {
                current_joint,
                wrote_name,
                wrote_offset,
                wrote_channels,
            } => {
                if current_joint >= bvh.joints.len() {
                    *iter_state = WriteOptionsIterState::WriteMotion { written: false };
                } else {
                    let joint: &Joint = &bvh.joints[current_joint];
                    assert(bvh@.joints[current_joint as int] == joint@);
                    if !wrote_name {
                        self.put_name_chunk(joint, chunk);
                        *iter_state = WriteOptionsIterState::WriteJoints {
                            current_joint,
                            wrote_name: true,
                            wrote_offset,
                            wrote_channels,
                        };
                    } else if !wrote_offset {
                        let body: Vec<u8> = self.offset_body_bytes(&joint.offset);
                        self.put_line(joint.depth, 1, body.as_slice(), chunk);
                        *iter_state = WriteOptionsIterState::WriteJoints {
                            current_joint,
                            wrote_name,
                            wrote_offset: true,
                            wrote_channels,
                        };
                    } else if !wrote_channels {
                        let body: Vec<u8> = channels_body_bytes(&joint.channels);
                        self.put_line(joint.depth, 1, body.as_slice(), chunk);
                        *iter_state = WriteOptionsIterState::WriteJoints {
                            current_joint,
                            wrote_name,
                            wrote_offset,
                            wrote_channels: true,
                        };
                    } else {
                        self.put_close_chunk(&bvh.joints, current_joint, chunk);
                        *iter_state = WriteOptionsIterState::WriteJoints {
                            current_joint: current_joint + 1,
                            wrote_name: false,
                            wrote_offset: false,
                            wrote_channels: false,
                        };
                    }
                }
            },
            WriteOptionsIterState::WriteMotion { written } => {
                if !written {
                    self.put_plain_line(motion_word().as_slice(), chunk);
                    *iter_state = WriteOptionsIterState::WriteMotion { written: true };
                } else {
                    *iter_state = WriteOptionsIterState::WriteNumFrames { written: false };
                }
            },
            WriteOptionsIterState::WriteNumFrames { written } => {
                if !written {
                    let mut body: Vec<u8> = Vec::new();
                    append_bytes(&mut body, frames_word().as_slice());
                    put_space(&mut body);
                    append_usize(&mut body, bvh.num_frames);
                    self.put_plain_line(body.as_slice(), chunk);
                    *iter_state = WriteOptionsIterState::WriteNumFrames { written: true };
                } else {
                    *iter_state = WriteOptionsIterState::WriteFrameTime { written: false };
                }
            },
            WriteOptionsIterState::WriteFrameTime { written } => {
                if !written {
                    let mut body: Vec<u8> = Vec::new();
                    append_bytes(&mut body, frame_word().as_slice());
                    put_space(&mut body);
                    append_bytes(&mut body, time_word().as_slice());
                    put_space(&mut body);
                    let seconds: Decimal = Decimal::from_units(false, bvh.frame_time_nanos(), 9);
                    seconds.append_fixed(self.frame_time_significant_figures, &mut body);
                    self.put_plain_line(body.as_slice(), chunk);
                    *iter_state = WriteOptionsIterState::WriteFrameTime { written: true };
                } else {
                    *iter_state = WriteOptionsIterState::WriteFrames { current_frame: 0 };
                }
            },
            WriteOptionsIterState::WriteFrames { current_frame } => {
                if current_frame >= bvh.num_frames {
                    return false;
                }
                let body: Vec<u8> = self.values_body_bytes(bvh.frame(current_frame));
                self.put_plain_line(body.as_slice(), chunk);
                *iter_state = WriteOptionsIterState::WriteFrames { current_frame: current_frame + 1 };
            },
        }
        assert(chunk@ =~= text);
        true
    }
}

/// The four chunks of joint `i`, one after the other.
pub open spec fn joint_text(options: WriteOptions, joints: Seq<JointView>, i: int) -> Seq<u8> {
    name_chunk(options, joints[i]) + offset_chunk(options, joints[i]) + channels_chunk(
        options,
        joints[i],
    ) + close_chunk(options, joints, i)
}

/// The text of the joints from `from` on.
pub open spec fn joints_text(options: WriteOptions, joints: Seq<JointView>, from: int) -> Seq<u8>
    decreases joints.len() - from,
{
    if from < 0 || from >= joints.len() {
        Seq::empty()
    } else {
        joint_text(options, joints, from) + joints_text(options, joints, from + 1)
    }
}

/// The lines of the frames from `from` on.
pub open spec fn frames_text(options: WriteOptions, bvh: BvhView, from: int) -> Seq<u8>
    decreases bvh.num_frames - from,
{
    if from < 0 || from >= bvh.num_frames {
        Seq::empty()
    } else {
        frame_chunk(options, bvh.frame(from)) + frames_text(options, bvh, from + 1)
    }
}

/// The motion section: the `MOTION`, `Frames:` and `Frame Time:` lines and
/// one line for each frame.
pub open spec fn motion_text(options: WriteOptions, bvh: BvhView) -> Seq<u8> {
    motion_chunk(options) + num_frames_chunk(options, bvh.num_frames) + frame_time_chunk(
        options,
        bvh.frame_time,
    ) + frames_text(options, bvh, 0)
}

/// The whole text of a document: the `HIERARCHY` line, every joint with its
/// braces, and the motion section.
pub open spec fn document_text(options: WriteOptions, bvh: BvhView) -> Seq<u8> {
    hierarchy_chunk(options) + joints_text(options, bvh.joints, 0) + motion_text(options, bvh)
}

/// `text`, or nothing where `done` says that it has been written.
pub open spec fn unless(done: bool, text: Seq<u8>) -> Seq<u8> {
    if done {
        Seq::empty()
    } else {
        text
    }
}

/// The text that the steps from `state` on produce, all chunks joined.
pub open spec fn remaining_text(
    options: WriteOptions,
    bvh: BvhView,
    state: WriteOptionsIterState,
) -> Seq<u8> {
    match state {
        WriteOptionsIterState::WriteHierarchy { written } => unless(
            written,
            hierarchy_chunk(options),
        ) + joints_text(options, bvh.joints, 0) + motion_text(options, bvh),
        WriteOptionsIterState::WriteJoints {
            current_joint,
            wrote_name,
            wrote_offset,
            wrote_channels,
        } => if current_joint >= bvh.joints.len() {
            motion_text(options, bvh)
        } else {
            let joint = bvh.joints[current_joint as int];
            unless(wrote_name, name_chunk(options, joint)) + unless(
                wrote_offset,
                offset_chunk(options, joint),
            ) + unless(wrote_channels, channels_chunk(options, joint)) + close_chunk(
                options,
                bvh.joints,
                current_joint as int,
            ) + joints_text(options, bvh.joints, current_joint + 1) + motion_text(options, bvh)
        },
        WriteOptionsIterState::WriteMotion { written } => unless(written, motion_chunk(options))
            + num_frames_chunk(options, bvh.num_frames) + frame_time_chunk(
            options,
            bvh.frame_time,
        ) + frames_text(options, bvh, 0),
        WriteOptionsIterState::WriteNumFrames { written } => unless(
            written,
            num_frames_chunk(options, bvh.num_frames),
        ) + frame_time_chunk(options, bvh.frame_time) + frames_text(options, bvh, 0),
        WriteOptionsIterState::WriteFrameTime { written } => unless(
            written,
            frame_time_chunk(options, bvh.frame_time),
        ) + frames_text(options, bvh, 0),
        WriteOptionsIterState::WriteFrames { current_frame } => frames_text(
            options,
            bvh,
            current_frame as int,
        ),
    }
}

/// The number of steps from `state` until the writer reports the end.
pub open spec fn steps_left(bvh: BvhView, state: WriteOptionsIterState) -> nat {
    let frames = bvh.num_frames;
    let joints = bvh.joints.len();
    match state {
        WriteOptionsIterState::WriteHierarchy { written } => ((if written {
            8nat
        } else {
            9nat
        }) + 4 * joints + frames) as nat,
        WriteOptionsIterState::WriteJoints {
            current_joint,
            wrote_name,
            wrote_offset,
            wrote_channels,
        } => if current_joint >= joints {
            7nat + frames
        } else {
            (8nat + 4 * (joints - current_joint - 1) + frames + (if !wrote_name {
                1nat
            } else {
                0nat
            }) + (if !wrote_offset {
                1nat
            } else {
                0nat
            }) + (if !wrote_channels {
                1nat
            } else {
                0nat
            })) as nat
        },
        WriteOptionsIterState::WriteMotion { written } => ((if written {
            5nat
        } else {
            6nat
        }) + frames) as nat,
        WriteOptionsIterState::WriteNumFrames { written } => ((if written {
            3nat
        } else {
            4nat
        }) + frames) as nat,
        WriteOptionsIterState::WriteFrameTime { written } => ((if written {
            1nat
        } else {
            2nat
        }) + frames) as nat,
        WriteOptionsIterState::WriteFrames { current_frame } => if current_frame >= frames {
            0nat
        } else {
            (frames - current_frame) as nat
        },
    }
}

/// Taking the first of six parts off the front.
proof fn lemma_peel_first(a: Seq<u8>, b: Seq<u8>, c: Seq<u8>, d: Seq<u8>, e: Seq<u8>, f: Seq<u8>)
    ensures
        a + b + c + d + e + f == a + (Seq::<u8>::empty() + b + c + d + e + f),
{
    assert(a + b + c + d + e + f =~= a + (Seq::<u8>::empty() + b + c + d + e + f));
}

/// Taking the second of six parts off the front, the first being empty.
proof fn lemma_peel_second(b: Seq<u8>, c: Seq<u8>, d: Seq<u8>, e: Seq<u8>, f: Seq<u8>)
    ensures
        Seq::<u8>::empty() + b + c + d + e + f == b + (Seq::<u8>::empty() + Seq::<u8>::empty() + c
            + d + e + f),
{
    let z = Seq::<u8>::empty();
    assert(z + b + c + d + e + f =~= b + (z + z + c + d + e + f));
}

/// Taking the third of six parts off the front, the first two being empty.
proof fn lemma_peel_third(c: Seq<u8>, d: Seq<u8>, e: Seq<u8>, f: Seq<u8>)
    ensures
        Seq::<u8>::empty() + Seq::<u8>::empty() + c + d + e + f == c + (Seq::<u8>::empty()
            + Seq::<u8>::empty() + Seq::<u8>::empty() + d + e + f),
{
    let z = Seq::<u8>::empty();
    assert(z + z + c + d + e + f =~= c + (z + z + z + d + e + f));
}

/// Taking the fourth of six parts off the front, the first three being
/// empty.
proof fn lemma_peel_fourth(d: Seq<u8>, e: Seq<u8>, f: Seq<u8>)
    ensures
        Seq::<u8>::empty() + Seq::<u8>::empty() + Seq::<u8>::empty() + d + e + f == d + (e + f),
{
    let z = Seq::<u8>::empty();
    assert(z + z + z + d + e + f =~= d + (e + f));
}

/// The text of the joints from `from` on and what follows them, seen from
/// the state that stands before joint `from`.
proof fn lemma_joints_ahead(options: WriteOptions, bvh: BvhView, from: usize)
    ensures
        remaining_text(
            options,
            bvh,
            WriteOptionsIterState::WriteJoints {
                current_joint: from,
                wrote_name: false,
                wrote_offset: false,
                wrote_channels: false,
            },
        ) == joints_text(options, bvh.joints, from as int) + motion_text(options, bvh),
{
    let state = WriteOptionsIterState::WriteJoints {
        current_joint: from,
        wrote_name: false,
        wrote_offset: false,
        wrote_channels: false,
    };
    let m = motion_text(options, bvh);
    if from >= bvh.joints.len() {
        assert(remaining_text(options, bvh, state) =~= joints_text(
            options,
            bvh.joints,
            from as int,
        ) + m);
    } else {
        let joint = bvh.joints[from as int];
        let a = name_chunk(options, joint);
        let b = offset_chunk(options, joint);
        let c = channels_chunk(options, joint);
        let d = close_chunk(options, bvh.joints, from as int);
        let e = joints_text(options, bvh.joints, from + 1);
        assert(remaining_text(options, bvh, state) == a + b + c + d + e + m);
        assert(joints_text(options, bvh.joints, from as int) == (a + b + c + d) + e);
        assert(a + b + c + d + e + m =~= ((a + b + c + d) + e) + m);
    }
}

impl BvhView {
    /// Whether the counts of the document fit the machine's integers, as
    /// those of every document in memory do.
    pub open spec fn countable(self) -> bool {
        self.joints.len() <= usize::MAX && self.num_frames <= usize::MAX
    }
}

/// Every step of the writer but the last brings the end nearer.
pub proof fn lemma_writer_progress(bvh: BvhView, state: WriteOptionsIterState)
    requires
        bvh.countable(),
    ensures
        has_more(bvh, state) ==> steps_left(bvh, next_state(bvh, state)) < steps_left(bvh, state),
{
}

/// A step within the joints.
proof fn lemma_joint_step(
    options: WriteOptions,
    bvh: BvhView,
    current_joint: usize,
    wrote_name: bool,
    wrote_offset: bool,
    wrote_channels: bool,
)
    requires
        bvh.countable(),
    ensures
        ({
            let state = WriteOptionsIterState::WriteJoints {
                current_joint,
                wrote_name,
                wrote_offset,
                wrote_channels,
            };
            remaining_text(options, bvh, state) == chunk_text(options, bvh, state) + remaining_text(
                options,
                bvh,
                next_state(bvh, state),
            )
        }),
{
    let state = WriteOptionsIterState::WriteJoints {
        current_joint,
        wrote_name,
        wrote_offset,
        wrote_channels,
    };
    let z = Seq::<u8>::empty();
    let m = motion_text(options, bvh);
    if current_joint < bvh.joints.len() {
        let joint = bvh.joints[current_joint as int];
        let a = name_chunk(options, joint);
        let b = unless(wrote_offset, offset_chunk(options, joint));
        let c = unless(wrote_channels, channels_chunk(options, joint));
        let d = close_chunk(options, bvh.joints, current_joint as int);
        let e = joints_text(options, bvh.joints, current_joint + 1);
        if !wrote_name {
            lemma_peel_first(a, b, c, d, e, m);
        } else if !wrote_offset {
            lemma_peel_second(b, c, d, e, m);
        } else if !wrote_channels {
            lemma_peel_third(c, d, e, m);
        } else {
            lemma_peel_fourth(d, e, m);
            lemma_joints_ahead(options, bvh, (current_joint + 1) as usize);
        }
    } else {
        let n = num_frames_chunk(options, bvh.num_frames);
        let t = frame_time_chunk(options, bvh.frame_time);
        let f = frames_text(options, bvh, 0);
        let c = motion_chunk(options);
        assert(c + n + t + f =~= z + (c + n + t + f));
    }
}

/// A step before or after the joints.
proof fn lemma_header_step(options: WriteOptions, bvh: BvhView, state: WriteOptionsIterState)
    requires
        !(state is WriteJoints),
        !(state is WriteFrames),
    ensures
        remaining_text(options, bvh, state) == chunk_text(options, bvh, state) + remaining_text(
            options,
            bvh,
            next_state(bvh, state),
        ),
{
    let z = Seq::<u8>::empty();
    let n = num_frames_chunk(options, bvh.num_frames);
    let t = frame_time_chunk(options, bvh.frame_time);
    let f = frames_text(options, bvh, 0);
    match state {
        WriteOptionsIterState::WriteHierarchy { written } => {
            lemma_joints_ahead(options, bvh, 0);
            let m = motion_text(options, bvh);
            let j = joints_text(options, bvh.joints, 0);
            let h = hierarchy_chunk(options);
            if written {
                assert(z + j + m =~= z + (j + m));
            } else {
                assert(h + j + m =~= h + (z + j + m));
            }
        },
        WriteOptionsIterState::WriteMotion { written } => {
            let c = motion_chunk(options);
            if written {
                assert(z + n + t + f =~= z + (n + t + f));
            } else {
                assert(c + n + t + f =~= c + (z + n + t + f));
            }
        },
        WriteOptionsIterState::WriteNumFrames { written } => {
            if written {
                assert(z + t + f =~= z + (t + f));
            } else {
                assert(n + t + f =~= n + (z + t + f));
            }
        },
        WriteOptionsIterState::WriteFrameTime { written } => {
            if !written {
                assert(t + f =~= t + (z + f));
            }
        },
        _ => {},
    }
}

/// One step of the writer: the chunk it produces, followed by what the
/// later steps produce, is what was left before it. At the end nothing is
/// left.
pub proof fn lemma_writer_step(options: WriteOptions, bvh: BvhView, state: WriteOptionsIterState)
    requires
        bvh.countable(),
    ensures
        has_more(bvh, state) ==> remaining_text(options, bvh, state) == chunk_text(
            options,
            bvh,
            state,
        ) + remaining_text(options, bvh, next_state(bvh, state)),
        !has_more(bvh, state) ==> remaining_text(options, bvh, state) == Seq::<u8>::empty(),
{
    match state {
        WriteOptionsIterState::WriteJoints {
            current_joint,
            wrote_name,
            wrote_offset,
            wrote_channels,
        } => {
            lemma_joint_step(options, bvh, current_joint, wrote_name, wrote_offset, wrote_channels);
        },
        WriteOptionsIterState::WriteFrames { current_frame } => {},
        _ => {
            lemma_header_step(options, bvh, state);
        },
    }
}

/// From the start, the steps of the writer produce the whole text of the
/// document.
pub proof fn lemma_writer_produces_document(options: WriteOptions, bvh: BvhView)
    ensures
        remaining_text(
            options,
            bvh,
            WriteOptionsIterState::WriteHierarchy { written: false },
        ) == document_text(options, bvh),
{
}

/// Why writing to a sink failed.
#[derive(Clone, Copy, Debug, PartialEq, Eq, Structural)]
pub enum WriteError {
    /// The sink took fewer bytes than were handed to it: of `produced`
    /// bytes so far it has taken `accepted`.
    SinkFailure { produced: usize, accepted: usize },
}

/// How much text has been handed to a sink, and how much of it the sink has
/// taken.
#[derive(Clone, Copy, Debug, PartialEq, Eq, Structural)]
pub struct SinkProgress {
    pub produced: usize,
    pub accepted: usize,
}

impl SinkProgress {
    /// The progress before anything has been written.
    pub fn new() -> (progress: SinkProgress)
        ensures
            progress == (SinkProgress { produced: 0, accepted: 0 }),
    {
        SinkProgress { produced: 0, accepted: 0 }
    }

    /// Records that a chunk of `chunk_len` bytes was handed to the sink,
    /// which took `taken` of them. Fails as soon as the sink has taken
    /// less, or more, than it was handed in all; the counts are updated
    /// either way.
    pub fn record(&mut self, chunk_len: usize, taken: usize) -> (result: Result<(), WriteError>)
        requires
            old(self).produced + chunk_len <= usize::MAX,
            old(self).accepted + taken <= usize::MAX,
        ensures
            final(self).produced == old(self).produced + chunk_len,
            final(self).accepted == old(self).accepted + taken,
            result == (if final(self).produced == final(self).accepted {
                Ok::<(), WriteError>(())
            } else {
                Err::<(), WriteError>(
                    WriteError::SinkFailure {
                        produced: final(self).produced,
                        accepted: final(self).accepted,
                    },
                )
            }),
    {
        self.produced = self.produced + chunk_len;
        self.accepted = self.accepted + taken;
        if self.produced != self.accepted {
            Err(WriteError::SinkFailure { produced: self.produced, accepted: self.accepted })
        } else {
            Ok(())
        }
    }
}

impl WriteOptions {
    /// Appends the whole text of `bvh` to `writer`, chunk by chunk. A
    /// vector takes every byte, so this cannot fail.
    pub fn write(&self, bvh: &Bvh, writer: &mut Vec<u8>) -> (result: Result<(), WriteError>)
        requires
            bvh@.motion_ok(),
        ensures
            result is Ok,
            final(writer)@ == old(writer)@ + document_text(*self, bvh@),
    {
        let mut chunk: Vec<u8> = Vec::new();
        let mut iter_state: WriteOptionsIterState = WriteOptionsIterState::new();
        let joints: usize = bvh.joints.len();
        proof {
            lemma_writer_produces_document(*self, bvh@);
            assert(bvh@.joints.len() == joints);
        }
        loop
            invariant_except_break
                writer@ + remaining_text(*self, bvh@, iter_state) == old(writer)@ + document_text(
                    *self,
                    bvh@,
                ),
            invariant
                bvh@.motion_ok(),
                bvh@.countable(),
            ensures
                writer@ == old(writer)@ + document_text(*self, bvh@),
            decreases steps_left(bvh@, iter_state),
        {
            let ghost before = iter_state;
            let ghost written = writer@;
            proof {
                lemma_writer_step(*self, bvh@, before);
                lemma_writer_progress(bvh@, before);
            }
            let more: bool = self.next_chunk(bvh, &mut chunk, &mut iter_state);
            if !more {
                assert(written + Seq::<u8>::empty() =~= written);
                break ;
            }
            append_bytes(writer, chunk.as_slice());
            proof {
                assert(written + (chunk@ + remaining_text(*self, bvh@, iter_state)) =~= writer@
                    + remaining_text(*self, bvh@, iter_state));
            }
        }
        Ok(())
    }

    /// The whole text of `bvh` as a byte string.
    pub fn write_to_string(&self, bvh: &Bvh) -> (text: BString)
        requires
            bvh@.motion_ok(),
        ensures
            bstring_bytes(text) == document_text(*self, bvh@),
    {
        let mut out: Vec<u8> = Vec::new();
        let _ = self.write(bvh, &mut out);
        assert(out@ =~= document_text(*self, bvh@));
        bstring_from_vec(out)
    }
}

} // verus!
