//! Writing a document and reading the text back gives the document again,
//! with its numbers rounded as they were written.

use crate::bvh::{
    channels_before, indices_in_order, joint_placed, lemma_channels_before_monotonic,
    lemma_frame_bounds, BvhView,
};
use crate::channel::{channel_type_text, lemma_channel_type_text_names, Channel, ChannelType};
use crate::decimal::{
    fixed_text, is_literal_byte, lemma_fixed_text_parses, parse_decimal, rounded, DecimalView,
};
use crate::digits::{is_digit, lemma_nat_text_digits, nat_text};
use crate::joint::{zero_offset_view, JointView};
use crate::lex::{
    is_blank, is_break, is_space, is_token, lemma_lex_first_line, lemma_lex_gives_tokens,
    lemma_tokens_after_spaces, lemma_tokens_after_token, lemma_tokens_of_spaces, lex, no_break,
    tokens_from,
};
use crate::literal::seconds_to_nanos;
use crate::parse::{
    initial_header, last_at_depth, lemma_head_sound, lemma_last_at_depth_push,
    lemma_last_at_depth_update, lemma_parsed_well_formed, next_filled, open_joint, opened_joint,
    parse_count, parse_document, read_head, read_rows, read_values, sound, step, with_axis,
    word_of, Head, HeaderView, LoadError, Stage, Step, Word,
};
use crate::words::{
    word_channels, word_close, word_end, word_frame, word_frames, word_hierarchy, word_joint,
    word_motion, word_offset, word_open, word_root, word_site, word_time,
};
use crate::write::{
    channels_body, channels_chunk, closers, document_text, end_site_text, frame_chunk,
    frame_time_chunk, frame_time_view, frames_text, hierarchy_chunk, indent_text, joined_kinds,
    joined_values, joint_text, joints_text, line, motion_chunk, motion_text, name_chunk,
    next_depth, num_frames_chunk, offset_body, offset_chunk, plain_line, space, terminator_text,
    IndentStyle, LineTerminator, WriteOptions,
};
use mint::Vector3;
use vstd::prelude::*;

verus! {

/// `words` with one space between neighbours.
pub open spec fn spaced(words: Seq<Seq<u8>>) -> Seq<u8>
    decreases words.len(),
{
    if words.len() == 0 {
        Seq::empty()
    } else if words.len() == 1 {
        words[0]
    } else {
        spaced(words.drop_last()) + space() + words.last()
    }
}

/// Whether every one of `words` is a token.
pub open spec fn all_tokens(words: Seq<Seq<u8>>) -> bool {
    forall|i: int| 0 <= i < words.len() ==> is_token(#[trigger] words[i])
}

/// Tokens with spaces between them hold no line feed, and begin with no
/// separator.
pub proof fn lemma_spaced_shape(words: Seq<Seq<u8>>)
    requires
        all_tokens(words),
    ensures
        no_break(spaced(words)),
        words.len() >= 1 ==> spaced(words).len() >= 1 && !is_space(spaced(words)[0]),
    decreases words.len(),
{
    if words.len() == 1 {
        assert(is_token(words[0]));
    } else if words.len() >= 2 {
        let front = words.drop_last();
        lemma_front_tokens(words);
        lemma_spaced_shape(front);
        let text = spaced(words);
        let last = words.last();
        assert forall|i: int| 0 <= i < text.len() implies !is_break(#[trigger] text[i]) by {
            if i < spaced(front).len() {
                assert(text[i] == spaced(front)[i]);
            } else if i > spaced(front).len() {
                assert(text[i] == last[i - spaced(front).len() - 1]);
            }
        }
        assert(text[0] == spaced(front)[0]);
    }
}

/// A space and a token at the front of a line: the token is the first of
/// the line.
proof fn lemma_tokens_after_space_and_token(token: Seq<u8>, rest: Seq<u8>)
    requires
        is_token(token),
        rest.len() == 0 || is_space(rest[0]),
    ensures
        tokens_from(space() + (token + rest), 0) == seq![token] + tokens_from(rest, 0),
{
    assert(is_space(space()[0]));
    lemma_tokens_after_spaces(space(), token + rest);
    lemma_tokens_after_token(token, rest);
}

/// The front of a list of tokens is a list of tokens.
proof fn lemma_front_tokens(words: Seq<Seq<u8>>)
    requires
        all_tokens(words),
        words.len() >= 1,
    ensures
        all_tokens(words.drop_last()),
        is_token(words.last()),
{
    let front = words.drop_last();
    assert forall|i: int| 0 <= i < front.len() implies is_token(#[trigger] front[i]) by {
        assert(front[i] == words[i]);
    }
    assert(is_token(words[words.len() - 1]));
}

/// The tokens of a line that begins with tokens spaced out are those
/// tokens, and then the tokens of what follows them.
pub proof fn lemma_tokens_of_spaced(words: Seq<Seq<u8>>, rest: Seq<u8>)
    requires
        all_tokens(words),
        rest.len() == 0 || is_space(rest[0]),
    ensures
        tokens_from(spaced(words) + rest, 0) == words + tokens_from(rest, 0),
    decreases words.len(),
{
    if words.len() == 0 {
        assert(spaced(words) + rest =~= rest);
        assert(words + tokens_from(rest, 0) =~= tokens_from(rest, 0));
    } else if words.len() == 1 {
        lemma_front_tokens(words);
        lemma_tokens_after_token(words[0], rest);
        assert(seq![words[0]] =~= words);
    } else {
        let front = words.drop_last();
        let last = words.last();
        lemma_front_tokens(words);
        let tail = space() + (last + rest);
        assert(spaced(words) == spaced(front) + space() + last);
        assert(spaced(front) + space() + last + rest =~= spaced(front) + tail);
        assert(tail[0] == 32u8);
        lemma_tokens_of_spaced(front, tail);
        lemma_tokens_after_space_and_token(last, rest);
        let after = tokens_from(rest, 0);
        assert(front + (seq![last] + after) =~= words + after) by {
            assert(front.push(last) =~= words);
        }
    }
}

/// A line of the written form: indentation, tokens spaced out, separators
/// that may trail them, and the line terminator.
pub open spec fn row_text(
    indent: Seq<u8>,
    words: Seq<Seq<u8>>,
    trailing: Seq<u8>,
    terminator: LineTerminator,
) -> Seq<u8> {
    indent + (spaced(words) + trailing + terminator_text(terminator))
}

/// Reading a written line back: the first line of the text holds the tokens
/// that were written on it.
pub proof fn lemma_lex_row(
    indent: Seq<u8>,
    words: Seq<Seq<u8>>,
    trailing: Seq<u8>,
    terminator: LineTerminator,
    rest: Seq<u8>,
)
    requires
        is_blank(indent),
        is_blank(trailing),
        all_tokens(words),
    ensures
        lex(row_text(indent, words, trailing, terminator) + rest) == seq![words] + lex(rest),
{
    let carriage: Seq<u8> = match terminator {
        LineTerminator::Unix => Seq::empty(),
        LineTerminator::Windows => seq![13u8],
    };
    let tail = trailing + carriage;
    let first = indent + (spaced(words) + tail);
    assert(row_text(indent, words, trailing, terminator) + rest =~= first + seq![10u8] + rest);
    lemma_spaced_shape(words);
    assert(no_break(first)) by {
        assert forall|i: int| 0 <= i < first.len() implies !is_break(#[trigger] first[i]) by {
            let a = indent.len();
            let b = a + spaced(words).len();
            let c = b + trailing.len();
            if i < a {
                assert(first[i] == indent[i]);
            } else if i < b {
                assert(first[i] == spaced(words)[i - a]);
            } else if i < c {
                assert(first[i] == trailing[i - b]);
            } else {
                assert(first[i] == carriage[i - c]);
            }
        }
    }
    lemma_lex_first_line(first, rest);
    assert forall|i: int| 0 <= i < indent.len() implies is_space(#[trigger] indent[i]) by {}
    lemma_tokens_after_spaces(indent, spaced(words) + tail);
    assert forall|i: int| 0 <= i < tail.len() implies is_space(#[trigger] tail[i]) by {
        if i < trailing.len() {
            assert(tail[i] == trailing[i]);
        } else {
            assert(tail[i] == carriage[i - trailing.len()]);
        }
    }
    if tail.len() > 0 {
        assert(is_space(tail[0]));
    }
    lemma_tokens_of_spaced(words, tail);
    lemma_tokens_of_spaces(tail);
    assert(words + Seq::<Seq<u8>>::empty() =~= words);
}

/// One more token after tokens spaced out.
pub proof fn lemma_spaced_push(words: Seq<Seq<u8>>, word: Seq<u8>)
    requires
        words.len() >= 1,
    ensures
        spaced(words.push(word)) == spaced(words) + space() + word,
{
    assert(words.push(word).drop_last() =~= words);
}

/// Two tokens spaced out.
pub proof fn lemma_spaced_two(a: Seq<u8>, b: Seq<u8>)
    ensures
        spaced(seq![a, b]) == a + space() + b,
{
    assert(seq![a, b] =~= seq![a].push(b));
    lemma_spaced_push(seq![a], b);
}

/// Three tokens spaced out.
pub proof fn lemma_spaced_three(a: Seq<u8>, b: Seq<u8>, c: Seq<u8>)
    ensures
        spaced(seq![a, b, c]) == a + space() + b + space() + c,
{
    lemma_spaced_two(a, b);
    assert(seq![a, b, c] =~= seq![a, b].push(c));
    lemma_spaced_push(seq![a, b], c);
}

/// Four tokens spaced out.
pub proof fn lemma_spaced_four(a: Seq<u8>, b: Seq<u8>, c: Seq<u8>, d: Seq<u8>)
    ensures
        spaced(seq![a, b, c, d]) == a + space() + b + space() + c + space() + d,
{
    lemma_spaced_three(a, b, c);
    assert(seq![a, b, c, d] =~= seq![a, b, c].push(d));
    lemma_spaced_push(seq![a, b, c], d);
}

/// Indentation is blank.
pub proof fn lemma_indent_blank(style: IndentStyle, depth: nat)
    ensures
        is_blank(indent_text(style, depth)),
{
}

/// Reading an indented line back.
pub proof fn lemma_lex_line(
    options: WriteOptions,
    depth: nat,
    words: Seq<Seq<u8>>,
    trailing: Seq<u8>,
    rest: Seq<u8>,
)
    requires
        all_tokens(words),
        is_blank(trailing),
    ensures
        lex(line(options, depth, spaced(words) + trailing) + rest) == seq![words] + lex(rest),
{
    let indent = indent_text(options.indent, depth);
    lemma_indent_blank(options.indent, depth);
    lemma_lex_row(indent, words, trailing, options.line_terminator, rest);
    assert(line(options, depth, spaced(words) + trailing) =~= row_text(
        indent,
        words,
        trailing,
        options.line_terminator,
    ));
}

/// Reading a line without indentation back.
pub proof fn lemma_lex_plain_line(
    options: WriteOptions,
    words: Seq<Seq<u8>>,
    trailing: Seq<u8>,
    rest: Seq<u8>,
)
    requires
        all_tokens(words),
        is_blank(trailing),
    ensures
        lex(plain_line(options, spaced(words) + trailing) + rest) == seq![words] + lex(rest),
{
    let indent = Seq::<u8>::empty();
    lemma_lex_row(indent, words, trailing, options.line_terminator, rest);
    assert(plain_line(options, spaced(words) + trailing) =~= row_text(
        indent,
        words,
        trailing,
        options.line_terminator,
    ));
}

/// The keywords are tokens.
pub proof fn lemma_words_are_tokens()
    ensures
        is_token(word_hierarchy()),
        is_token(word_root()),
        is_token(word_joint()),
        is_token(word_end()),
        is_token(word_site()),
        is_token(word_offset()),
        is_token(word_channels()),
        is_token(word_motion()),
        is_token(word_frames()),
        is_token(word_frame()),
        is_token(word_time()),
        is_token(word_open()),
        is_token(word_close()),
{
}

/// The text of a count is a token.
pub proof fn lemma_count_is_token(n: nat)
    ensures
        is_token(nat_text(n)),
{
    lemma_nat_text_digits(n);
    assert forall|i: int| 0 <= i < nat_text(n).len() implies !is_space(#[trigger] nat_text(n)[i]) by {
        assert(is_digit(nat_text(n)[i]));
    }
}

/// The text of a number is a token.
pub proof fn lemma_number_is_token(v: DecimalView, places: nat)
    ensures
        is_token(fixed_text(v, places)),
{
    lemma_fixed_text_parses(v, places);
    let text = fixed_text(v, places);
    assert forall|i: int| 0 <= i < text.len() implies !is_space(#[trigger] text[i]) by {
        assert(is_literal_byte(text[i]));
    }
}

/// The name of a channel kind is a token.
pub proof fn lemma_kind_is_token(kind: ChannelType)
    ensures
        is_token(channel_type_text(kind)),
{
    let text = channel_type_text(kind);
    assert(text.len() == 9);
    assert forall|i: int| 0 <= i < text.len() implies !is_space(#[trigger] text[i]) by {
        if i >= 1 {
            let word = text.subrange(1, 9);
            assert(text[i] == word[i - 1]);
        }
    }
}

/// The tokens of an `OFFSET` line.
pub open spec fn offset_words(options: WriteOptions, offset: Vector3<DecimalView>) -> Seq<Seq<u8>> {
    let places = options.offset_significant_figures as nat;
    seq![
        word_offset(),
        fixed_text(offset.x, places),
        fixed_text(offset.y, places),
        fixed_text(offset.z, places),
    ]
}

/// The names of the kinds of `channels`.
pub open spec fn kind_words(channels: Seq<Channel>) -> Seq<Seq<u8>> {
    Seq::new(channels.len(), |i: int| channel_type_text(channels[i].channel_type))
}

/// The tokens of a `CHANNELS` line.
pub open spec fn channels_words(channels: Seq<Channel>) -> Seq<Seq<u8>> {
    seq![word_channels(), nat_text(channels.len())] + kind_words(channels)
}

/// The texts of `values` with `places` fractional digits.
pub open spec fn value_words(values: Seq<DecimalView>, places: nat) -> Seq<Seq<u8>> {
    Seq::new(values.len(), |i: int| fixed_text(values[i], places))
}

/// The keyword that opens a joint: `ROOT` for the joint without a parent,
/// else `JOINT`.
pub open spec fn joint_keyword(joint: JointView) -> Seq<u8> {
    if joint.parent_index.is_none() {
        word_root()
    } else {
        word_joint()
    }
}

/// The lines of the first chunk of a joint, as tokens.
pub open spec fn name_rows(joint: JointView) -> Seq<Seq<Seq<u8>>> {
    seq![seq![joint_keyword(joint), joint.name], seq![word_open()]]
}

/// The lines of an end site, as tokens.
pub open spec fn end_site_rows(options: WriteOptions, joint: JointView) -> Seq<Seq<Seq<u8>>> {
    match joint.end_site {
        Some(offset) => seq![
            seq![word_end(), word_site()],
            seq![word_open()],
            offset_words(options, offset),
            seq![word_close()],
        ],
        None => Seq::empty(),
    }
}

/// The number of closing braces from level `from` down to `down_to`.
pub open spec fn closer_count(from: nat, down_to: nat) -> nat {
    if from < down_to {
        0
    } else {
        (from - down_to + 1) as nat
    }
}

/// `count` lines that each hold a closing brace.
pub open spec fn closer_rows(count: nat) -> Seq<Seq<Seq<u8>>> {
    Seq::new(count, |i: int| seq![word_close()])
}

/// A line with a single token.
pub proof fn lemma_lex_single(options: WriteOptions, depth: nat, word: Seq<u8>, rest: Seq<u8>)
    requires
        is_token(word),
    ensures
        lex(line(options, depth, word) + rest) == seq![seq![word]] + lex(rest),
        lex(plain_line(options, word) + rest) == seq![seq![word]] + lex(rest),
{
    let words = seq![word];
    let none = Seq::<u8>::empty();
    assert(spaced(words) + none =~= word);
    assert(is_token(words[0]));
    lemma_lex_line(options, depth, words, none, rest);
    lemma_lex_plain_line(options, words, none, rest);
}

/// The tokens of an `OFFSET` line are tokens, and the line is those tokens
/// spaced out.
pub proof fn lemma_offset_words(options: WriteOptions, offset: Vector3<DecimalView>)
    ensures
        all_tokens(offset_words(options, offset)),
        spaced(offset_words(options, offset)) == offset_body(options, offset),
{
    let places = options.offset_significant_figures as nat;
    let words = offset_words(options, offset);
    lemma_words_are_tokens();
    lemma_number_is_token(offset.x, places);
    lemma_number_is_token(offset.y, places);
    lemma_number_is_token(offset.z, places);
    lemma_spaced_four(words[0], words[1], words[2], words[3]);
    assert(words =~= seq![words[0], words[1], words[2], words[3]]);
}

/// Reading an `OFFSET` line back.
pub proof fn lemma_lex_offset_line(
    options: WriteOptions,
    depth: nat,
    offset: Vector3<DecimalView>,
    rest: Seq<u8>,
)
    ensures
        lex(line(options, depth, offset_body(options, offset)) + rest) == seq![
            offset_words(options, offset),
        ] + lex(rest),
{
    let none = Seq::<u8>::empty();
    lemma_offset_words(options, offset);
    assert(spaced(offset_words(options, offset)) + none =~= offset_body(options, offset));
    lemma_lex_line(options, depth, offset_words(options, offset), none, rest);
}

/// Reading the first chunk of a joint back.
pub proof fn lemma_lex_name_chunk(options: WriteOptions, joint: JointView, rest: Seq<u8>)
    requires
        is_token(joint.name),
    ensures
        lex(name_chunk(options, joint) + rest) == name_rows(joint) + lex(rest),
{
    let depth = joint.depth as nat;
    let keyword = joint_keyword(joint);
    let words = seq![keyword, joint.name];
    let none = Seq::<u8>::empty();
    let first = line(options, depth, keyword + space() + joint.name);
    let second = line(options, depth, word_open());
    lemma_words_are_tokens();
    lemma_spaced_two(keyword, joint.name);
    assert(spaced(words) + none =~= keyword + space() + joint.name);
    assert(all_tokens(words));
    lemma_lex_line(options, depth, words, none, second + rest);
    lemma_lex_single(options, depth, word_open(), rest);
    assert(name_chunk(options, joint) + rest =~= first + (second + rest));
    assert(seq![words] + (seq![seq![word_open()]] + lex(rest)) =~= name_rows(joint) + lex(rest));
}

/// Reading the `End Site` block of a joint back.
pub proof fn lemma_lex_end_site(options: WriteOptions, joint: JointView, rest: Seq<u8>)
    ensures
        lex(end_site_text(options, joint) + rest) == end_site_rows(options, joint) + lex(rest),
{
    match joint.end_site {
        Some(offset) => {
            let inner = (joint.depth + 1) as nat;
            let title = seq![word_end(), word_site()];
            let none = Seq::<u8>::empty();
            let l1 = line(options, inner, word_end() + space() + word_site());
            let l2 = line(options, inner, word_open());
            let l3 = line(options, inner + 1, offset_body(options, offset));
            let l4 = line(options, inner, word_close());
            lemma_words_are_tokens();
            lemma_spaced_two(word_end(), word_site());
            assert(spaced(title) + none =~= word_end() + space() + word_site());
            assert(all_tokens(title));
            lemma_lex_line(options, inner, title, none, l2 + (l3 + (l4 + rest)));
            lemma_lex_single(options, inner, word_open(), l3 + (l4 + rest));
            lemma_lex_offset_line(options, inner + 1, offset, l4 + rest);
            lemma_lex_single(options, inner, word_close(), rest);
            assert(end_site_text(options, joint) + rest =~= l1 + (l2 + (l3 + (l4 + rest))));
            assert(seq![title] + (seq![seq![word_open()]] + (seq![offset_words(options, offset)] + (
            seq![seq![word_close()]] + lex(rest)))) =~= end_site_rows(options, joint) + lex(rest));
        },
        None => {
            assert(end_site_text(options, joint) + rest =~= rest);
            assert(end_site_rows(options, joint) + lex(rest) =~= lex(rest));
        },
    }
}

/// Reading closing braces back.
pub proof fn lemma_lex_closers(options: WriteOptions, from: nat, down_to: nat, rest: Seq<u8>)
    ensures
        lex(closers(options, from, down_to) + rest) == closer_rows(closer_count(from, down_to))
            + lex(rest),
    decreases from,
{
    let rows = closer_rows(closer_count(from, down_to));
    let brace = line(options, from, word_close());
    lemma_words_are_tokens();
    if from < down_to {
        assert(closers(options, from, down_to) + rest =~= rest);
        assert(rows + lex(rest) =~= lex(rest));
    } else if from == down_to {
        lemma_lex_single(options, from, word_close(), rest);
        assert(rows =~= seq![seq![word_close()]]);
    } else {
        let below = closers(options, (from - 1) as nat, down_to);
        lemma_lex_closers(options, (from - 1) as nat, down_to, rest);
        lemma_lex_single(options, from, word_close(), below + rest);
        assert(closers(options, from, down_to) + rest =~= brace + (below + rest));
        let fewer = closer_rows(closer_count((from - 1) as nat, down_to));
        assert(seq![seq![word_close()]] + (fewer + lex(rest)) =~= rows + lex(rest));
    }
}

/// Two lists of tokens spaced out as one.
pub proof fn lemma_spaced_concat(a: Seq<Seq<u8>>, b: Seq<Seq<u8>>)
    requires
        a.len() >= 1,
        b.len() >= 1,
    ensures
        spaced(a + b) == spaced(a) + space() + spaced(b),
    decreases b.len(),
{
    if b.len() == 1 {
        assert(a + b =~= a.push(b[0]));
        lemma_spaced_push(a, b[0]);
    } else {
        let front = b.drop_last();
        lemma_spaced_concat(a, front);
        assert((a + b).drop_last() =~= a + front);
        assert((a + b).last() == b.last());
        assert(spaced(a) + space() + spaced(front) + space() + b.last() =~= spaced(a) + space() + (
        spaced(front) + space() + b.last()));
    }
}

/// The kinds of a `CHANNELS` line are their names spaced out, and the
/// names are tokens.
pub proof fn lemma_kind_words(channels: Seq<Channel>)
    ensures
        all_tokens(kind_words(channels)),
        spaced(kind_words(channels)) == joined_kinds(channels),
    decreases channels.len(),
{
    let words = kind_words(channels);
    assert forall|i: int| 0 <= i < words.len() implies is_token(#[trigger] words[i]) by {
        lemma_kind_is_token(channels[i].channel_type);
    }
    if channels.len() >= 2 {
        lemma_kind_words(channels.drop_last());
        assert(words.drop_last() =~= kind_words(channels.drop_last()));
    }
}

/// The values of a frame line are their texts spaced out, and the texts
/// are tokens.
pub proof fn lemma_value_words(values: Seq<DecimalView>, places: nat)
    ensures
        all_tokens(value_words(values, places)),
        spaced(value_words(values, places)) == joined_values(values, places),
    decreases values.len(),
{
    let words = value_words(values, places);
    assert forall|i: int| 0 <= i < words.len() implies is_token(#[trigger] words[i]) by {
        lemma_number_is_token(values[i], places);
    }
    if values.len() >= 2 {
        lemma_value_words(values.drop_last(), places);
        assert(words.drop_last() =~= value_words(values.drop_last(), places));
    }
}

/// Reading a `CHANNELS` line back.
pub proof fn lemma_lex_channels_line(
    options: WriteOptions,
    depth: nat,
    channels: Seq<Channel>,
    rest: Seq<u8>,
)
    ensures
        lex(line(options, depth, channels_body(channels)) + rest) == seq![channels_words(channels)]
            + lex(rest),
        all_tokens(channels_words(channels)),
{
    let head = seq![word_channels(), nat_text(channels.len())];
    let kinds = kind_words(channels);
    let words = channels_words(channels);
    let none = Seq::<u8>::empty();
    lemma_words_are_tokens();
    lemma_count_is_token(channels.len());
    lemma_kind_words(channels);
    lemma_spaced_two(word_channels(), nat_text(channels.len()));
    assert(all_tokens(words)) by {
        assert forall|i: int| 0 <= i < words.len() implies is_token(#[trigger] words[i]) by {
            if i >= 2 {
                assert(words[i] == kinds[i - 2]);
            }
        }
    }
    if channels.len() == 0 {
        assert(words =~= head);
        assert(spaced(words) + space() =~= channels_body(channels));
        assert(is_blank(space()));
        lemma_lex_line(options, depth, words, space(), rest);
    } else {
        lemma_spaced_concat(head, kinds);
        assert(spaced(words) + none =~= channels_body(channels));
        lemma_lex_line(options, depth, words, none, rest);
    }
}

/// Reading a frame line back.
pub proof fn lemma_lex_frame_line(options: WriteOptions, values: Seq<DecimalView>, rest: Seq<u8>)
    ensures
        lex(frame_chunk(options, values) + rest) == seq![
            value_words(values, options.motion_values_significant_figures as nat),
        ] + lex(rest),
{
    let places = options.motion_values_significant_figures as nat;
    let none = Seq::<u8>::empty();
    lemma_value_words(values, places);
    assert(spaced(value_words(values, places)) + none =~= joined_values(values, places));
    lemma_lex_plain_line(options, value_words(values, places), none, rest);
}

/// The lines of joint `i`, as tokens.
pub open spec fn joint_rows(options: WriteOptions, joints: Seq<JointView>, i: int) -> Seq<
    Seq<Seq<u8>>,
> {
    name_rows(joints[i]) + seq![offset_words(options, joints[i].offset)] + seq![
        channels_words(joints[i].channels),
    ] + end_site_rows(options, joints[i]) + closer_rows(
        closer_count(joints[i].depth as nat, next_depth(joints, i)),
    )
}

/// The lines of the joints from `from` on, as tokens.
pub open spec fn joints_rows(options: WriteOptions, joints: Seq<JointView>, from: int) -> Seq<
    Seq<Seq<u8>>,
>
    decreases joints.len() - from,
{
    if from < 0 || from >= joints.len() {
        Seq::empty()
    } else {
        joint_rows(options, joints, from) + joints_rows(options, joints, from + 1)
    }
}

/// The lines of the frames from `from` on, as tokens.
pub open spec fn frame_rows(options: WriteOptions, bvh: BvhView, from: int) -> Seq<Seq<Seq<u8>>>
    decreases bvh.num_frames - from,
{
    if from < 0 || from >= bvh.num_frames {
        Seq::empty()
    } else {
        seq![value_words(bvh.frame(from), options.motion_values_significant_figures as nat)]
            + frame_rows(options, bvh, from + 1)
    }
}

/// The three lines that head the motion section, as tokens.
pub open spec fn motion_head_rows(options: WriteOptions, bvh: BvhView) -> Seq<Seq<Seq<u8>>> {
    seq![
        seq![word_motion()],
        seq![word_frames(), nat_text(bvh.num_frames)],
        seq![
            word_frame(),
            word_time(),
            fixed_text(
                frame_time_view(bvh.frame_time),
                options.frame_time_significant_figures as nat,
            ),
        ],
    ]
}

/// The lines of a written document, as tokens.
pub open spec fn document_rows(options: WriteOptions, bvh: BvhView) -> Seq<Seq<Seq<u8>>> {
    seq![seq![word_hierarchy()]] + joints_rows(options, bvh.joints, 0) + motion_head_rows(
        options,
        bvh,
    ) + frame_rows(options, bvh, 0)
}

/// Whether the name of every joint is a token, as the names that the
/// reader gives are.
pub open spec fn names_are_tokens(joints: Seq<JointView>) -> bool {
    forall|i: int| 0 <= i < joints.len() ==> is_token(#[trigger] joints[i].name)
}

/// Five parts and a rest, grouped from the right.
proof fn lemma_regroup_text(
    a: Seq<u8>,
    b: Seq<u8>,
    c: Seq<u8>,
    e: Seq<u8>,
    k: Seq<u8>,
    rest: Seq<u8>,
)
    ensures
        a + b + c + (e + k) + rest == a + (b + (c + (e + (k + rest)))),
{
    assert(a + b + c + (e + k) + rest =~= a + (b + (c + (e + (k + rest)))));
}

/// Five lists of lines and a rest, grouped from the right.
proof fn lemma_regroup_rows(
    a: Seq<Seq<Seq<u8>>>,
    b: Seq<Seq<Seq<u8>>>,
    c: Seq<Seq<Seq<u8>>>,
    e: Seq<Seq<Seq<u8>>>,
    k: Seq<Seq<Seq<u8>>>,
    rest: Seq<Seq<Seq<u8>>>,
)
    ensures
        a + b + c + e + k + rest == a + (b + (c + (e + (k + rest)))),
{
    assert(a + b + c + e + k + rest =~= a + (b + (c + (e + (k + rest)))));
}

/// Reading the lines of one joint back.
pub proof fn lemma_lex_joint(
    options: WriteOptions,
    joints: Seq<JointView>,
    i: int,
    rest: Seq<u8>,
)
    requires
        0 <= i < joints.len(),
        is_token(joints[i].name),
    ensures
        lex(joint_text(options, joints, i) + rest) == joint_rows(options, joints, i) + lex(rest),
{
    let joint = joints[i];
    let inner = (joint.depth + 1) as nat;
    let a = name_chunk(options, joint);
    let b = offset_chunk(options, joint);
    let c = channels_chunk(options, joint);
    let e = end_site_text(options, joint);
    let k = closers(options, joint.depth as nat, next_depth(joints, i));
    let ra = name_rows(joint);
    let rb = seq![offset_words(options, joint.offset)];
    let rc = seq![channels_words(joint.channels)];
    let re = end_site_rows(options, joint);
    let rk = closer_rows(closer_count(joint.depth as nat, next_depth(joints, i)));
    let tail = lex(rest);
    assert(lex(k + rest) == rk + tail) by {
        lemma_lex_closers(options, joint.depth as nat, next_depth(joints, i), rest);
    }
    assert(lex(e + (k + rest)) == re + (rk + tail)) by {
        lemma_lex_end_site(options, joint, k + rest);
    }
    assert(lex(c + (e + (k + rest))) == rc + (re + (rk + tail))) by {
        lemma_lex_channels_line(options, inner, joint.channels, e + (k + rest));
    }
    assert(lex(b + (c + (e + (k + rest)))) == rb + (rc + (re + (rk + tail)))) by {
        lemma_lex_offset_line(options, inner, joint.offset, c + (e + (k + rest)));
    }
    assert(lex(a + (b + (c + (e + (k + rest))))) == ra + (rb + (rc + (re + (rk + tail))))) by {
        lemma_lex_name_chunk(options, joint, b + (c + (e + (k + rest))));
    }
    assert(joint_text(options, joints, i) + rest == a + (b + (c + (e + (k + rest))))) by {
        lemma_regroup_text(a, b, c, e, k, rest);
    }
    assert(joint_rows(options, joints, i) + tail == ra + (rb + (rc + (re + (rk + tail))))) by {
        lemma_regroup_rows(ra, rb, rc, re, rk, tail);
    }
}

/// Joining is associative.
proof fn lemma_join_assoc<T>(a: Seq<T>, b: Seq<T>, c: Seq<T>)
    ensures
        (a + b) + c == a + (b + c),
{
    assert((a + b) + c =~= a + (b + c));
}

/// Joining nothing changes nothing.
proof fn lemma_join_empty<T>(a: Seq<T>)
    ensures
        Seq::<T>::empty() + a == a,
        a + Seq::<T>::empty() == a,
{
    assert(Seq::<T>::empty() + a =~= a);
    assert(a + Seq::<T>::empty() =~= a);
}

/// Reading the lines of the joints from `from` on back.
pub proof fn lemma_lex_joints(
    options: WriteOptions,
    joints: Seq<JointView>,
    from: int,
    rest: Seq<u8>,
)
    requires
        names_are_tokens(joints),
        0 <= from,
    ensures
        lex(joints_text(options, joints, from) + rest) == joints_rows(options, joints, from) + lex(
            rest,
        ),
    decreases joints.len() - from,
{
    if from >= joints.len() {
        lemma_join_empty(rest);
        lemma_join_empty(lex(rest));
    } else {
        let here = joint_text(options, joints, from);
        let later = joints_text(options, joints, from + 1);
        let rows_here = joint_rows(options, joints, from);
        let rows_later = joints_rows(options, joints, from + 1);
        assert(lex(later + rest) == rows_later + lex(rest)) by {
            lemma_lex_joints(options, joints, from + 1, rest);
        }
        assert(lex(here + (later + rest)) == rows_here + lex(later + rest)) by {
            lemma_lex_joint(options, joints, from, later + rest);
        }
        assert(joints_text(options, joints, from) == here + later);
        assert(joints_rows(options, joints, from) == rows_here + rows_later);
        lemma_join_assoc(here, later, rest);
        lemma_join_assoc(rows_here, rows_later, lex(rest));
    }
}

/// Reading the frame lines from `from` on back.
pub proof fn lemma_lex_frames(options: WriteOptions, bvh: BvhView, from: int)
    requires
        0 <= from,
    ensures
        lex(frames_text(options, bvh, from)) == frame_rows(options, bvh, from),
    decreases bvh.num_frames - from,
{
    if from >= bvh.num_frames {
        assert(lex(Seq::<u8>::empty()) =~= Seq::<Seq<Seq<u8>>>::empty());
    } else {
        let later = frames_text(options, bvh, from + 1);
        lemma_lex_frames(options, bvh, from + 1);
        lemma_lex_frame_line(options, bvh.frame(from), later);
    }
}

/// Reading the motion section back.
pub proof fn lemma_lex_motion(options: WriteOptions, bvh: BvhView)
    ensures
        lex(motion_text(options, bvh)) == motion_head_rows(options, bvh) + frame_rows(
            options,
            bvh,
            0,
        ),
{
    let places = options.frame_time_significant_figures as nat;
    let time = fixed_text(frame_time_view(bvh.frame_time), places);
    let none = Seq::<u8>::empty();
    let a = motion_chunk(options);
    let b = num_frames_chunk(options, bvh.num_frames);
    let c = frame_time_chunk(options, bvh.frame_time);
    let f = frames_text(options, bvh, 0);
    let count = seq![word_frames(), nat_text(bvh.num_frames)];
    let timing = seq![word_frame(), word_time(), time];
    lemma_words_are_tokens();
    lemma_count_is_token(bvh.num_frames);
    lemma_number_is_token(frame_time_view(bvh.frame_time), places);
    lemma_spaced_two(word_frames(), nat_text(bvh.num_frames));
    lemma_spaced_three(word_frame(), word_time(), time);
    assert(spaced(count) + none =~= word_frames() + space() + nat_text(bvh.num_frames));
    assert(spaced(timing) + none =~= word_frame() + space() + word_time() + space() + time);
    assert(all_tokens(count));
    assert(all_tokens(timing));
    lemma_lex_single(options, 0, word_motion(), b + (c + f));
    lemma_lex_plain_line(options, count, none, c + f);
    lemma_lex_plain_line(options, timing, none, f);
    lemma_lex_frames(options, bvh, 0);
    assert(motion_text(options, bvh) =~= a + (b + (c + f)));
    assert(seq![seq![word_motion()]] + (seq![count] + (seq![timing] + frame_rows(options, bvh, 0)))
        =~= motion_head_rows(options, bvh) + frame_rows(options, bvh, 0));
}

/// Reading a written document back line by line: the lines hold the tokens
/// that were written on them.
pub proof fn lemma_lex_document(options: WriteOptions, bvh: BvhView)
    requires
        names_are_tokens(bvh.joints),
    ensures
        lex(document_text(options, bvh)) == document_rows(options, bvh),
{
    let h = hierarchy_chunk(options);
    let j = joints_text(options, bvh.joints, 0);
    let m = motion_text(options, bvh);
    let rh = seq![seq![word_hierarchy()]];
    let rj = joints_rows(options, bvh.joints, 0);
    let rm = motion_head_rows(options, bvh);
    let rf = frame_rows(options, bvh, 0);
    assert(lex(m) == rm + rf) by {
        lemma_lex_motion(options, bvh);
    }
    assert(lex(j + m) == rj + lex(m)) by {
        lemma_lex_joints(options, bvh.joints, 0, m);
    }
    assert(lex(h + (j + m)) == rh + lex(j + m)) by {
        lemma_words_are_tokens();
        lemma_lex_single(options, 0, word_hierarchy(), j + m);
    }
    assert(document_text(options, bvh) == h + (j + m)) by {
        assert(h + j + m =~= h + (j + m));
    }
    assert(document_rows(options, bvh) == rh + (rj + (rm + rf))) by {
        assert(rh + rj + rm + rf =~= rh + (rj + (rm + rf)));
    }
}

/// The reader after the tokens of `tokens` from `from` on, where it takes
/// every one of them.
pub open spec fn feed(h: HeaderView, tokens: Seq<Seq<u8>>, from: int) -> Option<HeaderView>
    decreases tokens.len() - from,
{
    if from < 0 || from >= tokens.len() {
        Some(h)
    } else {
        match step(h, tokens[from]) {
            Step::Next(next) => feed(next, tokens, from + 1),
            _ => None,
        }
    }
}

/// The reader after the tokens of the lines `rows`, where it takes every
/// one of them.
pub open spec fn feed_rows(h: HeaderView, rows: Seq<Seq<Seq<u8>>>) -> Option<HeaderView>
    decreases rows.len(),
{
    if rows.len() == 0 {
        Some(h)
    } else {
        match feed(h, rows[0], 0) {
            Some(next) => feed_rows(next, rows.skip(1)),
            None => None,
        }
    }
}

/// Whether every one of `rows` holds a token.
pub open spec fn all_filled(rows: Seq<Seq<Seq<u8>>>) -> bool {
    forall|i: int| 0 <= i < rows.len() ==> (#[trigger] rows[i]).len() >= 1
}

/// Feeding the lines of two lists after one another.
pub proof fn lemma_feed_rows_concat(h: HeaderView, a: Seq<Seq<Seq<u8>>>, b: Seq<Seq<Seq<u8>>>)
    ensures
        feed_rows(h, a + b) == (match feed_rows(h, a) {
            Some(mid) => feed_rows(mid, b),
            None => None,
        }),
    decreases a.len(),
{
    if a.len() == 0 {
        assert(a + b =~= b);
    } else {
        assert((a + b)[0] == a[0]);
        assert((a + b).skip(1) =~= a.skip(1) + b);
        match feed(h, a[0], 0) {
            Some(next) => {
                lemma_feed_rows_concat(next, a.skip(1), b);
            },
            None => {},
        }
    }
}

/// Reading the rest of a line whose tokens the reader takes leads to the
/// next line.
pub proof fn lemma_read_head_line(
    h: HeaderView,
    lines: Seq<Seq<Seq<u8>>>,
    line: int,
    col: int,
    last: int,
)
    requires
        0 <= line < lines.len(),
        0 <= col <= lines[line].len(),
        feed(h, lines[line], col) is Some,
    ensures
        read_head(h, lines, line, col, last) == read_head(
            feed(h, lines[line], col).unwrap(),
            lines,
            line + 1,
            0,
            if col < lines[line].len() {
                line
            } else {
                last
            },
        ),
    decreases lines[line].len() - col,
{
    if col < lines[line].len() {
        match step(h, lines[line][col]) {
            Step::Next(next) => {
                lemma_read_head_line(next, lines, line, col + 1, line);
            },
            _ => {},
        }
    }
}

/// Reading lines whose tokens the reader takes leads to the line after
/// them.
pub proof fn lemma_read_head_rows(
    h: HeaderView,
    lines: Seq<Seq<Seq<u8>>>,
    from: int,
    to: int,
    last: int,
)
    requires
        0 <= from <= to <= lines.len(),
        all_filled(lines.subrange(from, to)),
        feed_rows(h, lines.subrange(from, to)) is Some,
    ensures
        read_head(h, lines, from, 0, last) == read_head(
            feed_rows(h, lines.subrange(from, to)).unwrap(),
            lines,
            to,
            0,
            if from < to {
                to - 1
            } else {
                last
            },
        ),
    decreases to - from,
{
    let rows = lines.subrange(from, to);
    if from < to {
        assert(rows[0] == lines[from]);
        assert(rows[0].len() >= 1);
        assert(rows.skip(1) =~= lines.subrange(from + 1, to));
        let next = feed(h, lines[from], 0).unwrap();
        lemma_read_head_line(h, lines, from, 0, last);
        assert(all_filled(lines.subrange(from + 1, to))) by {
            assert forall|i: int| 0 <= i < to - from - 1 implies (#[trigger] lines.subrange(
                from + 1,
                to,
            )[i]).len() >= 1 by {
                assert(lines.subrange(from + 1, to)[i] == rows[i + 1]);
            }
        }
        lemma_read_head_rows(next, lines, from + 1, to, from);
    }
}

/// Once the head of the motion section is read, the head ends where the
/// reader stands, whatever follows.
pub proof fn lemma_read_head_done(
    h: HeaderView,
    lines: Seq<Seq<Seq<u8>>>,
    line: int,
    last: int,
)
    requires
        h.stage is Rows,
        0 <= line,
        last < line,
    ensures
        read_head(h, lines, line, 0, last) == (Head::Read { header: h, rows_start: last + 1 }),
    decreases lines.len() - line,
{
    if line < lines.len() && lines[line].len() == 0 {
        lemma_read_head_done(h, lines, line + 1, last);
    }
}

/// The reader knows every keyword for what it is.
pub proof fn lemma_word_of_keywords()
    ensures
        word_of(word_hierarchy()) == Word::Hierarchy,
        word_of(word_root()) == Word::Root,
        word_of(word_joint()) == Word::Joint,
        word_of(word_end()) == Word::End,
        word_of(word_site()) == Word::Site,
        word_of(word_offset()) == Word::Offset,
        word_of(word_channels()) == Word::Channels,
        word_of(word_motion()) == Word::Motion,
        word_of(word_frames()) == Word::Frames,
        word_of(word_frame()) == Word::Frame,
        word_of(word_time()) == Word::Time,
        word_of(word_open()) == Word::Open,
        word_of(word_close()) == Word::Close,
{
    assert(word_hierarchy().len() == 9 && word_hierarchy()[0] == 'H' as u8);
    assert(word_root().len() == 4 && word_root()[0] == 'R' as u8);
    assert(word_joint().len() == 5 && word_joint()[0] == 'J' as u8);
    assert(word_end().len() == 3 && word_end()[0] == 'E' as u8);
    assert(word_site().len() == 4 && word_site()[0] == 'S' as u8);
    assert(word_offset().len() == 6 && word_offset()[0] == 'O' as u8);
    assert(word_channels().len() == 8 && word_channels()[0] == 'C' as u8);
    assert(word_motion().len() == 6 && word_motion()[0] == 'M' as u8);
    assert(word_frames().len() == 7 && word_frames()[0] == 'F' as u8);
    assert(word_frame().len() == 5 && word_frame()[0] == 'F' as u8);
    assert(word_time().len() == 5 && word_time()[0] == 'T' as u8);
    assert(word_open().len() == 1 && word_open()[0] == '{' as u8);
    assert(word_close().len() == 1 && word_close()[0] == '}' as u8);
}

/// The text of a count that the machine can hold reads back as the count.
pub proof fn lemma_count_reads_back(n: nat)
    requires
        n <= usize::MAX,
    ensures
        parse_count(nat_text(n)) == Some(n as usize),
{
    lemma_nat_text_digits(n);
}

/// `offset` with every coordinate rounded to the digits written for
/// offsets.
pub open spec fn rounded_offset(options: WriteOptions, offset: Vector3<DecimalView>) -> Vector3<
    DecimalView,
> {
    let places = options.offset_significant_figures as nat;
    Vector3 {
        x: rounded(offset.x, places),
        y: rounded(offset.y, places),
        z: rounded(offset.z, places),
    }
}

/// `joint` with its offset and its end site rounded as they are written.
pub open spec fn rounded_joint(options: WriteOptions, joint: JointView) -> JointView {
    JointView {
        offset: rounded_offset(options, joint.offset),
        end_site: match joint.end_site {
            Some(offset) => Some(rounded_offset(options, offset)),
            None => None,
        },
        ..joint
    }
}

/// The first `count` joints, rounded as they are written.
pub open spec fn rounded_joints(options: WriteOptions, joints: Seq<JointView>, count: int) -> Seq<
    JointView,
> {
    Seq::new(count as nat, |i: int| rounded_joint(options, joints[i]))
}

/// Feeding the line that names a joint: the reader then holds the new
/// joint and wants its opening brace.
pub proof fn lemma_feed_name_row(h: HeaderView, keyword: Seq<u8>, name: Seq<u8>)
    requires
        (h.stage is RootOrMotion && keyword == word_root()) || (h.stage is Body && keyword
            == word_joint()),
        h.joints.len() < usize::MAX,
    ensures
        feed(h, seq![keyword, name], 0) == Some(
            HeaderView { stage: Stage::Open, joints: h.joints.push(opened_joint(h, name)), ..h },
        ),
{
    let row = seq![keyword, name];
    lemma_word_of_keywords();
    let first = HeaderView { stage: Stage::Name, ..h };
    assert(step(h, row[0]) == Step::Next(first));
    let second = HeaderView {
        stage: Stage::Open,
        joints: h.joints.push(opened_joint(h, name)),
        ..h
    };
    assert(opened_joint(first, name) == opened_joint(h, name));
    assert(step(first, row[1]) == Step::Next(second));
    assert(feed(second, row, 2) == Some(second));
    assert(feed(first, row, 1) == Some(second));
}

/// Feeding the line of an opening brace after a name.
pub proof fn lemma_feed_open_row(h: HeaderView)
    requires
        h.stage is Open,
    ensures
        feed(h, seq![word_open()], 0) == Some(
            HeaderView { stage: Stage::Offset, depth: h.depth + 1, ..h },
        ),
{
    let row = seq![word_open()];
    lemma_word_of_keywords();
    let next = HeaderView { stage: Stage::Offset, depth: h.depth + 1, ..h };
    assert(step(h, row[0]) == Step::Next(next));
    assert(feed(next, row, 1) == Some(next));
}

/// Feeding `OFFSET` and three tokens that denote numbers: the last joint
/// then has those numbers as its offset.
proof fn lemma_feed_offset_tokens(
    h: HeaderView,
    row: Seq<Seq<u8>>,
    r: Vector3<DecimalView>,
)
    requires
        h.stage is Offset,
        h.joints.len() >= 1,
        row.len() == 4,
        row[0] == word_offset(),
        parse_decimal(row[1]) == Some(r.x),
        parse_decimal(row[2]) == Some(r.y),
        parse_decimal(row[3]) == Some(r.z),
    ensures
        feed(h, row, 0) == Some(
            HeaderView {
                stage: Stage::Channels,
                joints: h.joints.update(
                    h.joints.len() - 1,
                    JointView { offset: r, ..h.joints.last() },
                ),
                ..h
            },
        ),
{
    let last = h.joints.len() - 1;
    let joint = h.joints.last();
    lemma_word_of_keywords();
    let h0 = HeaderView { stage: Stage::OffsetValue { axis: 0 }, ..h };
    assert(step(h, row[0]) == Step::Next(h0));
    let j1 = JointView { offset: with_axis(joint.offset, 0, r.x), ..joint };
    let h1 = HeaderView {
        stage: Stage::OffsetValue { axis: 1 },
        joints: h.joints.update(last, j1),
        ..h
    };
    assert(step(h0, row[1]) == Step::Next(h1));
    let j2 = JointView { offset: with_axis(j1.offset, 1, r.y), ..joint };
    let h2 = HeaderView {
        stage: Stage::OffsetValue { axis: 2 },
        joints: h.joints.update(last, j2),
        ..h
    };
    assert(h1.joints.update(last, j2) =~= h.joints.update(last, j2));
    assert(step(h1, row[2]) == Step::Next(h2));
    let j3 = JointView { offset: r, ..joint };
    let h3 = HeaderView { stage: Stage::Channels, joints: h.joints.update(last, j3), ..h };
    assert(h2.joints.update(last, j3) =~= h.joints.update(last, j3));
    assert(with_axis(j2.offset, 2, r.z) == r);
    assert(step(h2, row[3]) == Step::Next(h3));
    assert(feed(h3, row, 4) == Some(h3));
    assert(feed(h2, row, 3) == Some(h3));
    assert(feed(h1, row, 2) == Some(h3));
    assert(feed(h0, row, 1) == Some(h3));
}

/// The tokens of an `OFFSET` line read back as the rounded offset.
proof fn lemma_offset_words_parse(options: WriteOptions, offset: Vector3<DecimalView>)
    ensures
        offset_words(options, offset).len() == 4,
        offset_words(options, offset)[0] == word_offset(),
        parse_decimal(offset_words(options, offset)[1]) == Some(rounded_offset(options, offset).x),
        parse_decimal(offset_words(options, offset)[2]) == Some(rounded_offset(options, offset).y),
        parse_decimal(offset_words(options, offset)[3]) == Some(rounded_offset(options, offset).z),
{
    let places = options.offset_significant_figures as nat;
    lemma_fixed_text_parses(offset.x, places);
    lemma_fixed_text_parses(offset.y, places);
    lemma_fixed_text_parses(offset.z, places);
}

/// Feeding an `OFFSET` line: the last joint then has the offset that was
/// written, rounded.
pub proof fn lemma_feed_offset_row(
    h: HeaderView,
    options: WriteOptions,
    offset: Vector3<DecimalView>,
)
    requires
        h.stage is Offset,
        h.joints.len() >= 1,
    ensures
        feed(h, offset_words(options, offset), 0) == Some(
            HeaderView {
                stage: Stage::Channels,
                joints: h.joints.update(
                    h.joints.len() - 1,
                    JointView { offset: rounded_offset(options, offset), ..h.joints.last() },
                ),
                ..h
            },
        ),
{
    lemma_offset_words_parse(options, offset);
    lemma_feed_offset_tokens(h, offset_words(options, offset), rounded_offset(options, offset));
}

/// The stage after `taken` of the kinds of `total` channels.
pub open spec fn kinds_stage(total: nat, taken: nat) -> Stage {
    if taken >= total {
        Stage::Body
    } else {
        Stage::ChannelKind { remaining: (total - taken) as usize }
    }
}

/// The reader once the last joint has all of `channels`.
pub open spec fn with_channels(h: HeaderView, channels: Seq<Channel>, more: nat) -> HeaderView {
    HeaderView {
        stage: Stage::Body,
        joints: h.joints.update(
            h.joints.len() - 1,
            JointView { channels, ..h.joints.last() },
        ),
        num_channels: h.num_channels + more,
        ..h
    }
}

/// Feeding the kinds of a `CHANNELS` line from the `taken`-th on.
pub proof fn lemma_feed_kinds(h: HeaderView, channels: Seq<Channel>, taken: nat)
    requires
        taken <= channels.len() <= usize::MAX,
        channels.len() >= 1,
        h.stage == kinds_stage(channels.len(), taken),
        h.joints.len() >= 1,
        h.joints.last().channels == channels.subrange(0, taken as int),
        h.num_channels + (channels.len() - taken) <= usize::MAX,
        forall|c: int|
            taken <= c < channels.len() ==> (#[trigger] channels[c]).motion_index == h.num_channels
                + (c - taken),
    ensures
        feed(h, channels_words(channels), (2 + taken) as int) == Some(
            with_channels(h, channels, (channels.len() - taken) as nat),
        ),
    decreases channels.len() - taken,
{
    let row = channels_words(channels);
    let total = channels.len();
    let last = h.joints.len() - 1;
    let done = with_channels(h, channels, (total - taken) as nat);
    assert(row.len() == 2 + total);
    if taken == total {
        assert(channels.subrange(0, taken as int) =~= channels);
        assert(h.joints.update(last, h.joints.last()) =~= h.joints);
        assert(done == h);
    } else {
        let channel = channels[taken as int];
        assert(row[(2 + taken) as int] == kind_words(channels)[taken as int]);
        assert(row[(2 + taken) as int] == channel_type_text(channel.channel_type));
        lemma_channel_type_text_names(channel.channel_type);
        let joint = JointView {
            channels: h.joints.last().channels.push(channel),
            ..h.joints.last()
        };
        let next = HeaderView {
            stage: kinds_stage(total, taken + 1),
            joints: h.joints.update(last, joint),
            num_channels: h.num_channels + 1,
            ..h
        };
        assert(channel == (Channel {
            channel_type: channel.channel_type,
            motion_index: h.num_channels as usize,
        }));
        assert(step(h, row[(2 + taken) as int]) == Step::Next(next));
        assert(joint.channels =~= channels.subrange(0, (taken + 1) as int));
        lemma_feed_kinds(next, channels, taken + 1);
        assert(next.joints.update(last, JointView { channels, ..next.joints.last() })
            =~= h.joints.update(last, JointView { channels, ..h.joints.last() }));
        assert(with_channels(next, channels, (total - taken - 1) as nat) == done);
    }
}

/// Feeding a `CHANNELS` line: the last joint then has the channels that
/// were written.
pub proof fn lemma_feed_channels_row(h: HeaderView, channels: Seq<Channel>)
    requires
        h.stage is Channels,
        h.joints.len() >= 1,
        h.joints.last().channels == Seq::<Channel>::empty(),
        channels.len() <= usize::MAX,
        h.num_channels + channels.len() <= usize::MAX,
        forall|c: int|
            0 <= c < channels.len() ==> (#[trigger] channels[c]).motion_index == h.num_channels + c,
    ensures
        feed(h, channels_words(channels), 0) == Some(with_channels(h, channels, channels.len())),
{
    let row = channels_words(channels);
    let total = channels.len();
    let last = h.joints.len() - 1;
    lemma_word_of_keywords();
    lemma_count_reads_back(total);
    let h0 = HeaderView { stage: Stage::ChannelCount, ..h };
    assert(row[0] == word_channels());
    assert(row[1] == nat_text(total));
    assert(step(h, row[0]) == Step::Next(h0));
    let h1 = HeaderView { stage: kinds_stage(total, 0), ..h };
    assert(step(h0, row[1]) == Step::Next(h1));
    if total == 0 {
        assert(row.len() == 2);
        assert(feed(h1, row, 2) == Some(h1));
        assert(h.joints.update(last, JointView { channels, ..h.joints.last() }) =~= h.joints) by {
            assert(channels =~= Seq::<Channel>::empty());
        }
    } else {
        assert(channels.subrange(0, 0) =~= Seq::<Channel>::empty());
        lemma_feed_kinds(h1, channels, 0);
    }
    assert(feed(h0, row, 1) == feed(h1, row, 2));
}

/// Feeding a single line.
pub proof fn lemma_feed_rows_one(h: HeaderView, row: Seq<Seq<u8>>)
    ensures
        feed_rows(h, seq![row]) == feed(h, row, 0),
{
    let rows = seq![row];
    assert(rows[0] == row);
    assert(rows.skip(1) =~= Seq::<Seq<Seq<u8>>>::empty());
    match feed(h, row, 0) {
        Some(next) => {
            assert(feed_rows(next, rows.skip(1)) == Some(next));
        },
        None => {},
    }
}

/// The reader once the innermost open joint has the end site `offset`.
pub open spec fn with_end_site(h: HeaderView, offset: Vector3<DecimalView>) -> HeaderView {
    HeaderView {
        joints: h.joints.update(
            open_joint(h),
            JointView { end_site: Some(offset), ..h.joints[open_joint(h)] },
        ),
        ..h
    }
}

/// Feeding `OFFSET` and three tokens that denote numbers inside an end
/// site: the innermost open joint then has those numbers as its end site.
proof fn lemma_feed_end_offset_tokens(h: HeaderView, row: Seq<Seq<u8>>, r: Vector3<DecimalView>)
    requires
        h.stage is EndOffset,
        0 <= open_joint(h) < h.joints.len(),
        row.len() == 4,
        row[0] == word_offset(),
        parse_decimal(row[1]) == Some(r.x),
        parse_decimal(row[2]) == Some(r.y),
        parse_decimal(row[3]) == Some(r.z),
    ensures
        feed(h, row, 0) == Some(HeaderView { stage: Stage::EndClose, ..with_end_site(h, r) }),
{
    let at = open_joint(h);
    let joint = h.joints[at];
    let zero = zero_offset_view();
    lemma_word_of_keywords();
    let j0 = JointView { end_site: Some(zero), ..joint };
    let h0 = HeaderView { stage: Stage::EndValue { axis: 0 }, joints: h.joints.update(at, j0), ..h };
    assert(step(h, row[0]) == Step::Next(h0));
    lemma_last_at_depth_update(h.joints, at, j0, h.depth - 1);
    let o1 = with_axis(zero, 0, r.x);
    let j1 = JointView { end_site: Some(o1), ..joint };
    let h1 = HeaderView { stage: Stage::EndValue { axis: 1 }, joints: h.joints.update(at, j1), ..h };
    assert(h0.joints.update(at, j1) =~= h.joints.update(at, j1));
    assert(step(h0, row[1]) == Step::Next(h1));
    lemma_last_at_depth_update(h.joints, at, j1, h.depth - 1);
    let o2 = with_axis(o1, 1, r.y);
    let j2 = JointView { end_site: Some(o2), ..joint };
    let h2 = HeaderView { stage: Stage::EndValue { axis: 2 }, joints: h.joints.update(at, j2), ..h };
    assert(h1.joints.update(at, j2) =~= h.joints.update(at, j2));
    assert(step(h1, row[2]) == Step::Next(h2));
    lemma_last_at_depth_update(h.joints, at, j2, h.depth - 1);
    let j3 = JointView { end_site: Some(r), ..joint };
    let h3 = HeaderView { stage: Stage::EndClose, joints: h.joints.update(at, j3), ..h };
    assert(h2.joints.update(at, j3) =~= h.joints.update(at, j3));
    assert(with_axis(o2, 2, r.z) == r);
    assert(step(h2, row[3]) == Step::Next(h3));
    assert(feed(h3, row, 4) == Some(h3));
    assert(feed(h2, row, 3) == Some(h3));
    assert(feed(h1, row, 2) == Some(h3));
    assert(feed(h0, row, 1) == Some(h3));
}

/// Feeding the `OFFSET` line of an end site.
proof fn lemma_feed_end_offset_row(
    h: HeaderView,
    options: WriteOptions,
    offset: Vector3<DecimalView>,
)
    requires
        h.stage is EndOffset,
        0 <= open_joint(h) < h.joints.len(),
    ensures
        feed(h, offset_words(options, offset), 0) == Some(
            HeaderView {
                stage: Stage::EndClose,
                ..with_end_site(h, rounded_offset(options, offset))
            },
        ),
{
    lemma_offset_words_parse(options, offset);
    lemma_feed_end_offset_tokens(h, offset_words(options, offset), rounded_offset(options, offset));
}

/// Feeding the lines of an end site: the innermost open joint then has
/// the end site that was written, rounded.
pub proof fn lemma_feed_end_site_rows(
    h: HeaderView,
    options: WriteOptions,
    offset: Vector3<DecimalView>,
)
    requires
        h.stage is Body,
        0 <= open_joint(h) < h.joints.len(),
        h.joints[open_joint(h)].end_site.is_none(),
    ensures
        feed_rows(
            h,
            seq![
                seq![word_end(), word_site()],
                seq![word_open()],
                offset_words(options, offset),
                seq![word_close()],
            ],
        ) == Some(with_end_site(h, rounded_offset(options, offset))),
{
    let r1 = seq![word_end(), word_site()];
    let r2 = seq![word_open()];
    let r3 = offset_words(options, offset);
    let r4 = seq![word_close()];
    let rows = seq![r1, r2, r3, r4];
    lemma_word_of_keywords();
    let a = HeaderView { stage: Stage::Site, ..h };
    let b = HeaderView { stage: Stage::EndOpen, ..h };
    assert(step(h, r1[0]) == Step::Next(a));
    assert(step(a, r1[1]) == Step::Next(b));
    assert(feed(b, r1, 2) == Some(b));
    assert(feed(a, r1, 1) == Some(b));
    assert(feed(h, r1, 0) == Some(b));
    let c = HeaderView { stage: Stage::EndOffset, ..h };
    assert(step(b, r2[0]) == Step::Next(c));
    assert(feed(c, r2, 1) == Some(c));
    assert(feed(b, r2, 0) == Some(c));
    assert(open_joint(c) == open_joint(h));
    lemma_feed_end_offset_row(c, options, offset);
    let d = HeaderView { stage: Stage::EndClose, ..with_end_site(h, rounded_offset(options, offset)) };
    assert(feed(c, r3, 0) == Some(d));
    let e = with_end_site(h, rounded_offset(options, offset));
    assert(step(d, r4[0]) == Step::Next(e));
    assert(feed(e, r4, 1) == Some(e));
    assert(feed(d, r4, 0) == Some(e));
    lemma_feed_rows_one(h, r1);
    lemma_feed_rows_one(b, r2);
    lemma_feed_rows_one(c, r3);
    lemma_feed_rows_one(d, r4);
    lemma_feed_rows_concat(h, seq![r1], seq![r2, r3, r4]);
    lemma_feed_rows_concat(b, seq![r2], seq![r3, r4]);
    lemma_feed_rows_concat(c, seq![r3], seq![r4]);
    assert(seq![r1] + seq![r2, r3, r4] =~= rows);
    assert(seq![r2] + seq![r3, r4] =~= seq![r2, r3, r4]);
    assert(seq![r3] + seq![r4] =~= seq![r3, r4]);
}

/// The reader after `count` closing braces.
pub open spec fn after_closers(h: HeaderView, count: nat) -> HeaderView {
    HeaderView {
        stage: if count >= 1 && h.depth == count {
            Stage::Motion
        } else {
            Stage::Body
        },
        depth: (h.depth - count) as nat,
        ..h
    }
}

/// Feeding lines of closing braces: as many levels are closed, and the
/// hierarchy ends with the last.
pub proof fn lemma_feed_closer_rows(h: HeaderView, count: nat)
    requires
        h.stage is Body,
        count <= h.depth,
    ensures
        feed_rows(h, closer_rows(count)) == Some(after_closers(h, count)),
    decreases count,
{
    let rows = closer_rows(count);
    if count == 0 {
        assert(after_closers(h, 0) == h);
    } else {
        let row = seq![word_close()];
        lemma_word_of_keywords();
        let next = HeaderView {
            stage: if h.depth == 1 {
                Stage::Motion
            } else {
                Stage::Body
            },
            depth: (h.depth - 1) as nat,
            ..h
        };
        assert(rows[0] == row);
        assert(step(h, row[0]) == Step::Next(next));
        assert(feed(next, row, 1) == Some(next));
        assert(feed(h, row, 0) == Some(next));
        assert(rows.skip(1) =~= closer_rows((count - 1) as nat));
        if count >= 2 {
            lemma_feed_closer_rows(next, (count - 1) as nat);
        } else {
            assert(feed_rows(next, closer_rows(0)) == Some(next));
        }
    }
}

/// The reader after the head of the motion section.
pub open spec fn after_motion_head(h: HeaderView, options: WriteOptions, bvh: BvhView) -> HeaderView {
    HeaderView {
        stage: Stage::Rows,
        num_frames: bvh.num_frames,
        frame_time: seconds_to_nanos(
            rounded(
                frame_time_view(bvh.frame_time),
                options.frame_time_significant_figures as nat,
            ),
        ),
        ..h
    }
}

/// Feeding the three lines that head the motion section.
pub proof fn lemma_feed_motion_head(h: HeaderView, options: WriteOptions, bvh: BvhView)
    requires
        h.stage is Motion || h.stage is RootOrMotion,
        bvh.num_frames <= usize::MAX,
    ensures
        feed_rows(h, motion_head_rows(options, bvh)) == Some(after_motion_head(h, options, bvh)),
{
    let places = options.frame_time_significant_figures as nat;
    let time = fixed_text(frame_time_view(bvh.frame_time), places);
    let r1 = seq![word_motion()];
    let r2 = seq![word_frames(), nat_text(bvh.num_frames)];
    let r3 = seq![word_frame(), word_time(), time];
    lemma_word_of_keywords();
    lemma_count_reads_back(bvh.num_frames);
    lemma_fixed_text_parses(frame_time_view(bvh.frame_time), places);
    let a = HeaderView { stage: Stage::FramesOrTime, ..h };
    assert(step(h, r1[0]) == Step::Next(a));
    assert(feed(a, r1, 1) == Some(a));
    assert(feed(h, r1, 0) == Some(a));
    let b = HeaderView { stage: Stage::FrameCount, ..h };
    let c = HeaderView { stage: Stage::TimeOrRows, num_frames: bvh.num_frames, ..h };
    assert(step(a, r2[0]) == Step::Next(b));
    assert(step(b, r2[1]) == Step::Next(c));
    assert(feed(c, r2, 2) == Some(c));
    assert(feed(b, r2, 1) == Some(c));
    assert(feed(a, r2, 0) == Some(c));
    let d = HeaderView { stage: Stage::Time, ..c };
    let e = HeaderView { stage: Stage::TimeValue, ..c };
    let f = after_motion_head(h, options, bvh);
    assert(step(c, r3[0]) == Step::Next(d));
    assert(step(d, r3[1]) == Step::Next(e));
    assert(step(e, r3[2]) == Step::Next(f));
    assert(feed(f, r3, 3) == Some(f));
    assert(feed(e, r3, 2) == Some(f));
    assert(feed(d, r3, 1) == Some(f));
    assert(feed(c, r3, 0) == Some(f));
    lemma_feed_rows_one(h, r1);
    lemma_feed_rows_one(a, r2);
    lemma_feed_rows_one(c, r3);
    lemma_feed_rows_concat(h, seq![r1], seq![r2, r3]);
    lemma_feed_rows_concat(a, seq![r2], seq![r3]);
    assert(seq![r1] + seq![r2, r3] =~= motion_head_rows(options, bvh));
    assert(seq![r2] + seq![r3] =~= seq![r2, r3]);
}

/// What the reader wants before joint `i`: a root where nothing is read
/// yet, a joint inside the hierarchy, and the motion section after it.
pub open spec fn stage_before(joints: Seq<JointView>, i: int) -> Stage {
    if i == 0 {
        Stage::RootOrMotion
    } else if i < joints.len() {
        Stage::Body
    } else {
        Stage::Motion
    }
}

/// The depth of joint `i`, or zero where there is no such joint.
pub open spec fn depth_before(joints: Seq<JointView>, i: int) -> nat {
    if 0 <= i < joints.len() {
        joints[i].depth as nat
    } else {
        0
    }
}

/// The reader before the lines of joint `i`: it holds the joints before
/// `i`, rounded, and stands at the depth of joint `i`.
pub open spec fn reader_before(options: WriteOptions, joints: Seq<JointView>, i: int) -> HeaderView {
    HeaderView {
        stage: stage_before(joints, i),
        joints: rounded_joints(options, joints, i),
        depth: depth_before(joints, i),
        num_channels: channels_before(joints, i),
        num_frames: 0,
        frame_time: 0,
    }
}

/// Whether the reader can take the joints back: they form a tree in
/// preorder, their channels are numbered in order, their names are tokens,
/// and their counts fit the machine's integers.
pub open spec fn joints_readable(joints: Seq<JointView>) -> bool {
    &&& joints.len() <= usize::MAX
    &&& forall|i: int| 0 <= i < joints.len() ==> joint_placed(joints, i)
    &&& indices_in_order(joints)
    &&& names_are_tokens(joints)
    &&& channels_before(joints, joints.len() as int) <= usize::MAX
}

/// The last joint at a depth is the one after which none of that depth
/// follows.
pub proof fn lemma_last_at_depth_is(joints: Seq<JointView>, at: int, depth: int)
    requires
        0 <= at < joints.len(),
        joints[at].depth == depth,
        forall|j: int| at < j < joints.len() ==> (#[trigger] joints[j]).depth != depth,
    ensures
        last_at_depth(joints, depth) == at,
    decreases joints.len() - at,
{
    if at < joints.len() - 1 {
        let front = joints.drop_last();
        assert(joints[joints.len() - 1].depth != depth);
        assert(front[at] == joints[at]);
        assert forall|j: int| at < j < front.len() implies (#[trigger] front[j]).depth != depth by {
            assert(front[j] == joints[j]);
        }
        lemma_last_at_depth_is(front, at, depth);
    }
}

/// In preorder a joint lies at most one level deeper than the joint before
/// it, and every joint but the first lies below the root.
pub proof fn lemma_preorder_depths(joints: Seq<JointView>, i: int)
    requires
        1 <= i < joints.len(),
        joint_placed(joints, i),
    ensures
        joints[i].depth <= joints[i - 1].depth + 1,
        joints[i].depth >= 1,
        joints[i].parent_index.is_some(),
{
    let p = joints[i].parent_index.unwrap();
    if p < i - 1 {
        assert(joints[i - 1].depth >= joints[i].depth);
    }
}

/// The number of closing braces that are written for the joints from
/// `from` on, those of end sites apart.
pub open spec fn closers_from(joints: Seq<JointView>, from: int) -> nat
    decreases joints.len() - from,
{
    if from < 0 || from >= joints.len() {
        0
    } else {
        closer_count(joints[from].depth as nat, next_depth(joints, from)) + closers_from(
            joints,
            from + 1,
        )
    }
}

/// From any joint on, the closing braces written are those of the joints
/// that follow and of the levels that are open.
proof fn lemma_closers_from(joints: Seq<JointView>, from: int)
    requires
        forall|i: int| 0 <= i < joints.len() ==> joint_placed(joints, i),
        0 <= from <= joints.len(),
    ensures
        closers_from(joints, from) == joints.len() - from + depth_before(joints, from),
    decreases joints.len() - from,
{
    if from < joints.len() {
        lemma_closers_from(joints, from + 1);
        if from + 1 < joints.len() {
            assert(joint_placed(joints, from + 1));
            lemma_preorder_depths(joints, from + 1);
        }
    }
}

/// The braces balance: for joints in preorder the writer closes as many
/// braces as it opens, one for each joint.
pub proof fn lemma_braces_balance(joints: Seq<JointView>)
    requires
        forall|i: int| 0 <= i < joints.len() ==> joint_placed(joints, i),
    ensures
        closers_from(joints, 0) == joints.len(),
{
    lemma_closers_from(joints, 0);
    if joints.len() > 0 {
        assert(joint_placed(joints, 0));
    }
}

/// The joint that the reader opens before the lines of joint `i` has the
/// parent that joint `i` has.
proof fn lemma_opened_joint(options: WriteOptions, joints: Seq<JointView>, i: int)
    requires
        joints_readable(joints),
        0 <= i < joints.len(),
    ensures
        opened_joint(reader_before(options, joints, i), joints[i].name) == (JointView {
            name: joints[i].name,
            offset: zero_offset_view(),
            channels: Seq::empty(),
            end_site: None,
            parent_index: joints[i].parent_index,
            depth: joints[i].depth,
        }),
{
    let h = reader_before(options, joints, i);
    assert(joint_placed(joints, i));
    if i > 0 {
        lemma_preorder_depths(joints, i);
        let p = joints[i].parent_index.unwrap() as int;
        let sofar = h.joints;
        assert(sofar[p].depth == joints[p].depth);
        assert forall|j: int| p < j < sofar.len() implies (#[trigger] sofar[j]).depth
            != joints[i].depth - 1 by {
            assert(sofar[j].depth == joints[j].depth);
        }
        lemma_last_at_depth_is(sofar, p, joints[i].depth - 1);
    }
}

/// Joint `i` as the reader holds it once its channels are read: rounded,
/// and without its end site.
pub open spec fn joint_without_end(options: WriteOptions, joint: JointView) -> JointView {
    JointView { offset: rounded_offset(options, joint.offset), end_site: None, ..joint }
}

/// The reader after the `CHANNELS` line of joint `i`.
pub open spec fn reader_inside(options: WriteOptions, joints: Seq<JointView>, i: int) -> HeaderView {
    HeaderView {
        stage: Stage::Body,
        joints: rounded_joints(options, joints, i).push(joint_without_end(options, joints[i])),
        depth: (joints[i].depth + 1) as nat,
        num_channels: channels_before(joints, i + 1),
        num_frames: 0,
        frame_time: 0,
    }
}

/// The lines of joint `i` up to its channels, as tokens.
pub open spec fn joint_head_rows(options: WriteOptions, joint: JointView) -> Seq<Seq<Seq<u8>>> {
    name_rows(joint) + seq![offset_words(options, joint.offset)] + seq![
        channels_words(joint.channels),
    ]
}

/// Feeding the lines of joint `i` up to its channels.
proof fn lemma_feed_joint_head(options: WriteOptions, joints: Seq<JointView>, i: int)
    requires
        joints_readable(joints),
        0 <= i < joints.len(),
    ensures
        feed_rows(reader_before(options, joints, i), joint_head_rows(options, joints[i])) == Some(
            reader_inside(options, joints, i),
        ),
{
    let joint = joints[i];
    let h = reader_before(options, joints, i);
    let sofar = rounded_joints(options, joints, i);
    let r1 = seq![joint_keyword(joint), joint.name];
    let r2 = seq![word_open()];
    let r3 = offset_words(options, joint.offset);
    let r4 = channels_words(joint.channels);
    let opened = opened_joint(h, joint.name);
    lemma_opened_joint(options, joints, i);
    assert(joint_placed(joints, i));
    if i > 0 {
        lemma_preorder_depths(joints, i);
    }
    let h1 = HeaderView { stage: Stage::Open, joints: sofar.push(opened), ..h };
    assert(feed(h, r1, 0) == Some(h1)) by {
        lemma_feed_name_row(h, joint_keyword(joint), joint.name);
    }
    let h2 = HeaderView { stage: Stage::Offset, depth: h.depth + 1, ..h1 };
    assert(feed(h1, r2, 0) == Some(h2)) by {
        lemma_feed_open_row(h1);
    }
    let placed = JointView { offset: rounded_offset(options, joint.offset), ..opened };
    let h3 = HeaderView { stage: Stage::Channels, joints: sofar.push(placed), ..h2 };
    assert(feed(h2, r3, 0) == Some(h3)) by {
        lemma_feed_offset_row(h2, options, joint.offset);
        assert(h2.joints.update(h2.joints.len() - 1, placed) =~= sofar.push(placed));
    }
    let h4 = reader_inside(options, joints, i);
    assert(feed(h3, r4, 0) == Some(h4)) by {
        lemma_channels_before_monotonic(joints, i + 1, joints.len() as int);
        assert forall|c: int| 0 <= c < joint.channels.len() implies (
        #[trigger] joint.channels[c]).motion_index == h3.num_channels + c by {
            assert(joints[i].channels[c].motion_index == channels_before(joints, i) + c);
        }
        lemma_feed_channels_row(h3, joint.channels);
        let done = JointView { channels: joint.channels, ..placed };
        assert(done == joint_without_end(options, joint));
        assert(h3.joints.update(h3.joints.len() - 1, done) =~= sofar.push(done));
    }
    lemma_feed_rows_one(h, r1);
    lemma_feed_rows_one(h1, r2);
    lemma_feed_rows_one(h2, r3);
    lemma_feed_rows_one(h3, r4);
    lemma_feed_rows_concat(h, seq![r1], seq![r2]);
    lemma_feed_rows_concat(h, seq![r1] + seq![r2], seq![r3]);
    lemma_feed_rows_concat(h, seq![r1] + seq![r2] + seq![r3], seq![r4]);
    assert(seq![r1] + seq![r2] =~= name_rows(joint));
}

/// Feeding the end site and the closing braces of joint `i`.
proof fn lemma_feed_joint_tail(options: WriteOptions, joints: Seq<JointView>, i: int)
    requires
        joints_readable(joints),
        0 <= i < joints.len(),
    ensures
        feed_rows(
            reader_inside(options, joints, i),
            end_site_rows(options, joints[i]) + closer_rows(
                closer_count(joints[i].depth as nat, next_depth(joints, i)),
            ),
        ) == Some(reader_before(options, joints, i + 1)),
{
    let joint = joints[i];
    let h = reader_inside(options, joints, i);
    let sofar = rounded_joints(options, joints, i);
    let count = closer_count(joint.depth as nat, next_depth(joints, i));
    let ends = end_site_rows(options, joint);
    let rounded_all = rounded_joints(options, joints, i + 1);
    let h5 = HeaderView { joints: rounded_all, ..h };
    assert(feed_rows(h, ends) == Some(h5)) by {
        match joint.end_site {
            Some(offset) => {
                lemma_last_at_depth_push(sofar, joint_without_end(options, joint), joint.depth as int);
                assert(open_joint(h) == i);
                lemma_feed_end_site_rows(h, options, offset);
                assert(with_end_site(h, rounded_offset(options, offset)).joints =~= rounded_all);
            },
            None => {
                assert(h.joints =~= rounded_all);
            },
        }
    }
    let after = reader_before(options, joints, i + 1);
    assert(feed_rows(h5, closer_rows(count)) == Some(after)) by {
        if i + 1 < joints.len() {
            assert(joint_placed(joints, i + 1));
            lemma_preorder_depths(joints, i + 1);
        }
        lemma_feed_closer_rows(h5, count);
        assert(after_closers(h5, count) == after);
    }
    lemma_feed_rows_concat(h, ends, closer_rows(count));
}

/// Feeding the lines of joint `i`: the reader then stands before the next
/// joint, and holds joint `i` rounded.
pub proof fn lemma_feed_joint(options: WriteOptions, joints: Seq<JointView>, i: int)
    requires
        joints_readable(joints),
        0 <= i < joints.len(),
    ensures
        feed_rows(reader_before(options, joints, i), joint_rows(options, joints, i)) == Some(
            reader_before(options, joints, i + 1),
        ),
{
    let joint = joints[i];
    let head = joint_head_rows(options, joint);
    let tail = end_site_rows(options, joint) + closer_rows(
        closer_count(joint.depth as nat, next_depth(joints, i)),
    );
    lemma_feed_joint_head(options, joints, i);
    lemma_feed_joint_tail(options, joints, i);
    lemma_feed_rows_concat(reader_before(options, joints, i), head, tail);
    assert(joint_rows(options, joints, i) =~= head + tail);
}

/// Feeding the lines of the joints from `from` on: the reader then holds
/// all joints, rounded, and wants the motion section.
pub proof fn lemma_feed_joints(options: WriteOptions, joints: Seq<JointView>, from: int)
    requires
        joints_readable(joints),
        0 <= from <= joints.len(),
    ensures
        feed_rows(reader_before(options, joints, from), joints_rows(options, joints, from)) == Some(
            reader_before(options, joints, joints.len() as int),
        ),
    decreases joints.len() - from,
{
    if from < joints.len() {
        lemma_feed_joint(options, joints, from);
        lemma_feed_joints(options, joints, from + 1);
        lemma_feed_rows_concat(
            reader_before(options, joints, from),
            joint_rows(options, joints, from),
            joints_rows(options, joints, from + 1),
        );
    }
}

/// `values`, every one rounded to `places` fractional digits.
pub open spec fn rounded_values(values: Seq<DecimalView>, places: nat) -> Seq<DecimalView> {
    Seq::new(values.len(), |i: int| rounded(values[i], places))
}

/// The document as it reads back: every number rounded to the digits with
/// which it is written, and the frame time cut to whole nanoseconds after
/// that.
pub open spec fn rounded_document(options: WriteOptions, bvh: BvhView) -> BvhView {
    BvhView {
        joints: rounded_joints(options, bvh.joints, bvh.joints.len() as int),
        motion_values: rounded_values(
            bvh.motion_values,
            options.motion_values_significant_figures as nat,
        ),
        num_frames: bvh.num_frames,
        num_channels: bvh.num_channels,
        frame_time: seconds_to_nanos(
            rounded(
                frame_time_view(bvh.frame_time),
                options.frame_time_significant_figures as nat,
            ),
        ),
    }
}

/// The texts of numbers read back as the numbers, rounded.
pub proof fn lemma_read_value_words(values: Seq<DecimalView>, places: nat)
    ensures
        read_values(value_words(values, places)) == Some(rounded_values(values, places)),
    decreases values.len(),
{
    let words = value_words(values, places);
    if values.len() == 0 {
        assert(rounded_values(values, places) =~= Seq::<DecimalView>::empty());
    } else {
        lemma_read_value_words(values.drop_last(), places);
        assert(words.drop_last() =~= value_words(values.drop_last(), places));
        lemma_fixed_text_parses(values.last(), places);
        assert(rounded_values(values.drop_last(), places).push(rounded(values.last(), places))
            =~= rounded_values(values, places));
    }
}

/// The lines of the frames from `from` on: one for each frame, with the
/// texts of its values.
pub proof fn lemma_frame_rows(options: WriteOptions, bvh: BvhView, from: int)
    requires
        0 <= from <= bvh.num_frames,
    ensures
        frame_rows(options, bvh, from).len() == bvh.num_frames - from,
        forall|k: int|
            0 <= k < bvh.num_frames - from ==> #[trigger] frame_rows(options, bvh, from)[k]
                == value_words(
                bvh.frame(from + k),
                options.motion_values_significant_figures as nat,
            ),
    decreases bvh.num_frames - from,
{
    if from < bvh.num_frames {
        lemma_frame_rows(options, bvh, from + 1);
        let rows = frame_rows(options, bvh, from);
        let later = frame_rows(options, bvh, from + 1);
        assert forall|k: int| 0 <= k < bvh.num_frames - from implies #[trigger] rows[k]
            == value_words(
            bvh.frame(from + k),
            options.motion_values_significant_figures as nat,
        ) by {
            if k > 0 {
                assert(rows[k] == later[k - 1]);
            }
        }
    }
}

/// Reading the frame lines from frame `frame` on gives the motion values
/// from that frame on, rounded.
pub proof fn lemma_read_frame_rows(
    options: WriteOptions,
    bvh: BvhView,
    lines: Seq<Seq<Seq<u8>>>,
    rows_start: int,
    frame: int,
)
    requires
        bvh.motion_ok(),
        0 <= frame <= bvh.num_frames,
        0 <= rows_start,
        lines.len() == rows_start + bvh.num_frames,
        forall|k: int|
            0 <= k < bvh.num_frames ==> #[trigger] lines[rows_start + k] == value_words(
                bvh.frame(k),
                options.motion_values_significant_figures as nat,
            ),
    ensures
        read_rows(lines, rows_start, bvh.num_frames, bvh.num_channels, frame) == Ok::<
            Seq<DecimalView>,
            LoadError,
        >(
            rounded_values(
                bvh.motion_values.subrange(
                    frame * bvh.num_channels,
                    (bvh.num_frames * bvh.num_channels) as int,
                ),
                options.motion_values_significant_figures as nat,
            ),
        ),
    decreases bvh.num_frames - frame,
{
    let places = options.motion_values_significant_figures as nat;
    let width = bvh.num_channels;
    let end = (bvh.num_frames * width) as int;
    if frame >= bvh.num_frames {
        assert(rounded_values(bvh.motion_values.subrange(frame * width, end), places)
            =~= Seq::<DecimalView>::empty());
    } else {
        lemma_frame_bounds(bvh.num_frames, width, frame as nat);
        let row = lines[rows_start + frame];
        assert(row == value_words(bvh.frame(frame), places));
        assert(row.len() == width);
        lemma_read_value_words(bvh.frame(frame), places);
        lemma_read_frame_rows(options, bvh, lines, rows_start, frame + 1);
        let here = rounded_values(bvh.frame(frame), places);
        let later = rounded_values(bvh.motion_values.subrange((frame + 1) * width, end), places);
        assert(here + later =~= rounded_values(
            bvh.motion_values.subrange(frame * width, end),
            places,
        ));
    }
}

/// Every line of the joints holds a token.
pub proof fn lemma_joints_rows_filled(options: WriteOptions, joints: Seq<JointView>, from: int)
    requires
        0 <= from,
    ensures
        all_filled(joints_rows(options, joints, from)),
    decreases joints.len() - from,
{
    if from < joints.len() {
        lemma_joints_rows_filled(options, joints, from + 1);
        let joint = joints[from];
        let a = name_rows(joint);
        let b = seq![offset_words(options, joint.offset)];
        let c = seq![channels_words(joint.channels)];
        let e = end_site_rows(options, joint);
        let k = closer_rows(closer_count(joint.depth as nat, next_depth(joints, from)));
        let later = joints_rows(options, joints, from + 1);
        let rows = joints_rows(options, joints, from);
        assert(rows == a + b + c + e + k + later);
        assert forall|i: int| 0 <= i < rows.len() implies (#[trigger] rows[i]).len() >= 1 by {
            let n1 = a.len();
            let n2 = n1 + 1;
            let n3 = n2 + 1;
            let n4 = n3 + e.len();
            let n5 = n4 + k.len();
            if i < n1 {
                assert(rows[i] == a[i]);
            } else if i < n2 {
                assert(rows[i] == b[i - n1]);
            } else if i < n3 {
                assert(rows[i] == c[i - n2]);
            } else if i < n4 {
                assert(rows[i] == e[i - n3]);
            } else if i < n5 {
                assert(rows[i] == k[i - n4]);
            } else {
                assert(rows[i] == later[i - n5]);
            }
        }
    }
}

/// The lines of a written document before its frames, as tokens.
pub open spec fn head_rows(options: WriteOptions, bvh: BvhView) -> Seq<Seq<Seq<u8>>> {
    seq![seq![word_hierarchy()]] + joints_rows(options, bvh.joints, 0) + motion_head_rows(
        options,
        bvh,
    )
}

/// Whether the reader can take the document back: it is valid, the names
/// of its joints are tokens, and its counts fit the machine's integers.
/// Every document that the reader gives is of this kind.
pub open spec fn readable(bvh: BvhView) -> bool {
    &&& bvh.well_formed()
    &&& names_are_tokens(bvh.joints)
    &&& bvh.joints.len() <= usize::MAX
    &&& bvh.num_frames <= usize::MAX
    &&& bvh.num_channels <= usize::MAX
}

/// Feeding the lines before the frames: the reader then holds the joints,
/// rounded, the number of frames and the frame time.
proof fn lemma_feed_head(options: WriteOptions, bvh: BvhView)
    requires
        readable(bvh),
    ensures
        feed_rows(initial_header(), head_rows(options, bvh)) == Some(
            after_motion_head(
                reader_before(options, bvh.joints, bvh.joints.len() as int),
                options,
                bvh,
            ),
        ),
        all_filled(head_rows(options, bvh)),
{
    let joints = bvh.joints;
    let first = seq![seq![word_hierarchy()]];
    let rj = joints_rows(options, joints, 0);
    let rm = motion_head_rows(options, bvh);
    let start = reader_before(options, joints, 0);
    let end = reader_before(options, joints, joints.len() as int);
    assert(feed_rows(initial_header(), first) == Some(start)) by {
        let row = seq![word_hierarchy()];
        lemma_word_of_keywords();
        if joints.len() > 0 {
            assert(joint_placed(joints, 0));
        }
        assert(start.joints =~= initial_header().joints);
        assert(step(initial_header(), row[0]) == Step::Next(start));
        assert(feed(start, row, 1) == Some(start));
        lemma_feed_rows_one(initial_header(), row);
    }
    assert(joints_readable(joints));
    lemma_feed_joints(options, joints, 0);
    lemma_feed_motion_head(end, options, bvh);
    lemma_feed_rows_concat(initial_header(), first, rj);
    lemma_feed_rows_concat(initial_header(), first + rj, rm);
    lemma_joints_rows_filled(options, joints, 0);
    let rows = head_rows(options, bvh);
    assert forall|i: int| 0 <= i < rows.len() implies (#[trigger] rows[i]).len() >= 1 by {
        if i < 1 {
            assert(rows[i] == first[i]);
        } else if i < 1 + rj.len() {
            assert(rows[i] == rj[i - 1]);
        } else {
            assert(rows[i] == rm[i - 1 - rj.len()]);
        }
    }
}

/// Reading back what was written: the text of a document that the reader
/// can take is a document, and the reader gives that document again, with
/// every number rounded to the digits with which it was written.
pub proof fn lemma_round_trip(options: WriteOptions, bvh: BvhView)
    requires
        readable(bvh),
    ensures
        parse_document(document_text(options, bvh)) == Ok::<BvhView, LoadError>(
            rounded_document(options, bvh),
        ),
{
    let lines = document_rows(options, bvh);
    let head = head_rows(options, bvh);
    let frames = frame_rows(options, bvh, 0);
    let start = head.len() as int;
    let header = after_motion_head(
        reader_before(options, bvh.joints, bvh.joints.len() as int),
        options,
        bvh,
    );
    lemma_lex_document(options, bvh);
    lemma_feed_head(options, bvh);
    lemma_frame_rows(options, bvh, 0);
    assert(lines == head + frames);
    assert(lines.subrange(0, start) =~= head);
    assert(read_head(initial_header(), lines, 0, 0, -1) == (Head::Read {
        header,
        rows_start: start,
    })) by {
        lemma_read_head_rows(initial_header(), lines, 0, start, -1);
        lemma_read_head_done(header, lines, start, start - 1);
    }
    assert(read_rows(lines, start, bvh.num_frames, bvh.num_channels, 0) == Ok::<
        Seq<DecimalView>,
        LoadError,
    >(rounded_values(bvh.motion_values, options.motion_values_significant_figures as nat))) by {
        assert forall|k: int| 0 <= k < bvh.num_frames implies #[trigger] lines[start + k]
            == value_words(bvh.frame(k), options.motion_values_significant_figures as nat) by {
            assert(lines[start + k] == frames[k]);
        }
        lemma_read_frame_rows(options, bvh, lines, start, 0);
        assert(0 * bvh.num_channels == 0);
        assert(bvh.motion_values.subrange(0, (bvh.num_frames * bvh.num_channels) as int)
            =~= bvh.motion_values);
    }
    assert(next_filled(lines, start + bvh.num_frames) == lines.len());
}

/// A token that the reader takes leaves the names of the joints tokens.
proof fn lemma_step_names(h: HeaderView, token: Seq<u8>)
    requires
        names_are_tokens(h.joints),
        is_token(token),
    ensures
        step(h, token) matches Step::Next(next) ==> names_are_tokens(next.joints),
{
    match step(h, token) {
        Step::Next(next) => {
            assert forall|i: int| 0 <= i < next.joints.len() implies is_token(
                #[trigger] next.joints[i].name,
            ) by {
                if i < h.joints.len() {
                    assert(is_token(h.joints[i].name));
                    assert(next.joints[i].name == h.joints[i].name);
                }
            }
        },
        _ => {},
    }
}

/// Where reading the head succeeds on lines of tokens, the names of the
/// joints that it gives are tokens.
proof fn lemma_head_names(
    h: HeaderView,
    lines: Seq<Seq<Seq<u8>>>,
    line: int,
    col: int,
    last: int,
)
    requires
        names_are_tokens(h.joints),
        forall|l: int, c: int|
            0 <= l < lines.len() && 0 <= c < lines[l].len() ==> is_token(#[trigger] lines[l][c]),
        0 <= line,
        0 <= col,
    ensures
        read_head(h, lines, line, col, last) matches Head::Read { header, rows_start }
            ==> names_are_tokens(header.joints),
    decreases lines.len() - line, lines[line].len() - col,
{
    if line >= lines.len() {
    } else if col >= lines[line].len() {
        lemma_head_names(h, lines, line + 1, 0, last);
    } else {
        assert(is_token(lines[line][col]));
        lemma_step_names(h, lines[line][col]);
        match step(h, lines[line][col]) {
            Step::Next(next) => {
                lemma_head_names(next, lines, line, col + 1, line);
            },
            _ => {},
        }
    }
}

/// Every document that the reader gives can be taken back by the reader.
pub proof fn lemma_parsed_readable(text: Seq<u8>)
    ensures
        parse_document(text) matches Ok(bvh) ==> readable(bvh),
{
    let lines = lex(text);
    lemma_parsed_well_formed(text);
    lemma_lex_gives_tokens(text);
    assert(sound(initial_header())) by {
        assert(channels_before(Seq::<JointView>::empty(), 0) == 0);
    }
    lemma_head_sound(initial_header(), lines, 0, 0, -1);
    lemma_head_names(initial_header(), lines, 0, 0, -1);
}

/// The round trip: where a text is a document, writing that document with
/// any options gives a text that is a document again, and that document is
/// the first with every number rounded to the digits with which it was
/// written.
pub proof fn lemma_read_write_read(text: Seq<u8>, options: WriteOptions)
    ensures
        parse_document(text) matches Ok(bvh) ==> parse_document(document_text(options, bvh))
            == Ok::<BvhView, LoadError>(rounded_document(options, bvh)),
{
    lemma_parsed_readable(text);
    match parse_document(text) {
        Ok(bvh) => {
            lemma_round_trip(options, bvh);
        },
        Err(_) => {},
    }
}

} // verus!
