//! Splitting format text into lines, and lines into tokens.

use vstd::prelude::*;

verus! {

/// The line feed, which ends a line.
pub open spec fn is_break(b: u8) -> bool {
    b == 10
}

/// Whether `b` separates tokens: a space, a tab, a line feed, a vertical
/// tab, a form feed or a carriage return.
pub open spec fn is_space(b: u8) -> bool {
    b == 32 || (9 <= b <= 13)
}

/// Where the line that starts at `from` ends: at the next line feed, or at
/// the end of the text.
pub open spec fn line_end(text: Seq<u8>, from: int) -> int
    decreases text.len() - from,
{
    if 0 <= from < text.len() && !is_break(text[from]) {
        line_end(text, from + 1)
    } else {
        from
    }
}

/// The lines of `text` from `from` on, without their line feeds. A line
/// feed at the very end starts no further line.
pub open spec fn lines_from(text: Seq<u8>, from: int) -> Seq<Seq<u8>>
    decreases text.len() - from,
    when 0 <= from
{
    if from >= text.len() {
        Seq::empty()
    } else {
        let end = line_end(text, from);
        if end < from || end > text.len() {
            Seq::empty()
        } else if end == text.len() {
            seq![text.subrange(from, end)]
        } else {
            seq![text.subrange(from, end)] + lines_from(text, end + 1)
        }
    }
}

/// Where the run of separators that starts at `from` ends.
pub open spec fn skip_spaces(line: Seq<u8>, from: int) -> int
    decreases line.len() - from,
{
    if 0 <= from < line.len() && is_space(line[from]) {
        skip_spaces(line, from + 1)
    } else {
        from
    }
}

/// Where the token that starts at `from` ends.
pub open spec fn word_end(line: Seq<u8>, from: int) -> int
    decreases line.len() - from,
{
    if 0 <= from < line.len() && !is_space(line[from]) {
        word_end(line, from + 1)
    } else {
        from
    }
}

/// The tokens of `line` from `from` on: the longest runs of bytes that are
/// no separators.
pub open spec fn tokens_from(line: Seq<u8>, from: int) -> Seq<Seq<u8>>
    decreases line.len() - from,
    when 0 <= from
{
    let start = skip_spaces(line, from);
    if start >= line.len() || start < from {
        Seq::empty()
    } else {
        let end = word_end(line, start);
        if end <= start || end > line.len() {
            Seq::empty()
        } else {
            seq![line.subrange(start, end)] + tokens_from(line, end)
        }
    }
}

/// The tokens of every line of `text`.
pub open spec fn lex(text: Seq<u8>) -> Seq<Seq<Seq<u8>>> {
    lines_from(text, 0).map_values(|line: Seq<u8>| tokens_from(line, 0))
}

/// The plain values of a list of tokens.
pub open spec fn token_views(tokens: Seq<Vec<u8>>) -> Seq<Seq<u8>> {
    tokens.map_values(|token: Vec<u8>| token@)
}

/// The plain values of a list of lines of tokens.
pub open spec fn line_views(lines: Seq<Vec<Vec<u8>>>) -> Seq<Seq<Seq<u8>>> {
    lines.map_values(|line: Vec<Vec<u8>>| token_views(line@))
}

pub proof fn lemma_line_end_bounds(text: Seq<u8>, from: int)
    requires
        0 <= from <= text.len(),
    ensures
        from <= line_end(text, from) <= text.len(),
        forall|k: int| from <= k < line_end(text, from) ==> !is_break(#[trigger] text[k]),
        line_end(text, from) < text.len() ==> is_break(text[line_end(text, from)]),
    decreases text.len() - from,
{
    if from < text.len() && !is_break(text[from]) {
        lemma_line_end_bounds(text, from + 1);
    }
}

pub proof fn lemma_skip_spaces_bounds(line: Seq<u8>, from: int)
    requires
        0 <= from <= line.len(),
    ensures
        from <= skip_spaces(line, from) <= line.len(),
        forall|k: int| from <= k < skip_spaces(line, from) ==> is_space(#[trigger] line[k]),
        skip_spaces(line, from) < line.len() ==> !is_space(line[skip_spaces(line, from)]),
    decreases line.len() - from,
{
    if from < line.len() && is_space(line[from]) {
        lemma_skip_spaces_bounds(line, from + 1);
    }
}

pub proof fn lemma_word_end_bounds(line: Seq<u8>, from: int)
    requires
        0 <= from <= line.len(),
    ensures
        from <= word_end(line, from) <= line.len(),
        forall|k: int| from <= k < word_end(line, from) ==> !is_space(#[trigger] line[k]),
        word_end(line, from) < line.len() ==> is_space(line[word_end(line, from)]),
        from < line.len() && !is_space(line[from]) ==> word_end(line, from) > from,
    decreases line.len() - from,
{
    if from < line.len() && !is_space(line[from]) {
        lemma_word_end_bounds(line, from + 1);
    }
}

/// Whether `b` separates tokens.
pub fn byte_is_space(b: u8) -> (space: bool)
    ensures
        space == is_space(b),
{
    b == 32 || (9 <= b && b <= 13)
}

/// The tokens of `line`.
pub fn split_tokens(line: &[u8]) -> (tokens: Vec<Vec<u8>>)
    ensures
        token_views(tokens@) == tokens_from(line@, 0),
{
    let mut tokens: Vec<Vec<u8>> = Vec::new();
    let mut at: usize = 0;
    assert(token_views(tokens@) =~= Seq::<Seq<u8>>::empty());
    loop
        invariant_except_break
            at <= line.len(),
            token_views(tokens@) + tokens_from(line@, at as int) == tokens_from(line@, 0),
        ensures
            token_views(tokens@) == tokens_from(line@, 0),
        decreases line.len() - at,
    {
        let mut start: usize = at;
        while start < line.len() && byte_is_space(line[start])
            invariant
                at <= start <= line.len(),
                skip_spaces(line@, at as int) == skip_spaces(line@, start as int),
            decreases line.len() - start,
        {
            start += 1;
        }
        if start >= line.len() {
            assert(token_views(tokens@) + Seq::<Seq<u8>>::empty() =~= token_views(tokens@));
            break ;
        }
        let mut end: usize = start;
        let mut token: Vec<u8> = Vec::new();
        while end < line.len() && !byte_is_space(line[end])
            invariant
                start <= end <= line.len(),
                word_end(line@, start as int) == word_end(line@, end as int),
                token@ == line@.subrange(start as int, end as int),
            decreases line.len() - end,
        {
            token.push(line[end]);
            end += 1;
            assert(token@ =~= line@.subrange(start as int, end as int));
        }
        proof {
            lemma_skip_spaces_bounds(line@, at as int);
            lemma_word_end_bounds(line@, start as int);
            let ghost_before = token_views(tokens@);
            assert(end > start);
            assert(tokens_from(line@, at as int) == seq![token@] + tokens_from(line@, end as int));
            assert(token_views(tokens@.push(token)) =~= ghost_before.push(token@));
            assert(ghost_before.push(token@) + tokens_from(line@, end as int) =~= ghost_before + (
            seq![token@] + tokens_from(line@, end as int)));
        }
        tokens.push(token);
        at = end;
    }
    tokens
}

/// The tokens of every line of `text`.
pub fn split_lines(text: &[u8]) -> (lines: Vec<Vec<Vec<u8>>>)
    ensures
        line_views(lines@) == lex(text@),
{
    let mut lines: Vec<Vec<Vec<u8>>> = Vec::new();
    let mut at: usize = 0;
    let ghost tokenize = |line: Seq<u8>| tokens_from(line, 0);
    assert(line_views(lines@) =~= Seq::<Seq<Seq<u8>>>::empty());
    while at < text.len()
        invariant_except_break
            line_views(lines@) + lines_from(text@, at as int).map_values(tokenize) == lex(text@),
        invariant
            at <= text.len(),
            tokenize == (|line: Seq<u8>| tokens_from(line, 0)),
        ensures
            line_views(lines@) + Seq::<Seq<Seq<u8>>>::empty() == lex(text@),
        decreases text.len() - at,
    {
        let mut end: usize = at;
        while end < text.len() && text[end] != 10
            invariant
                at <= end <= text.len(),
                line_end(text@, at as int) == line_end(text@, end as int),
            decreases text.len() - end,
        {
            end += 1;
        }
        let line: &[u8] = vstd::slice::slice_subrange(text, at, end);
        let tokens: Vec<Vec<u8>> = split_tokens(line);
        proof {
            lemma_line_end_bounds(text@, at as int);
            let before = line_views(lines@);
            let rest = if end == text.len() {
                Seq::<Seq<u8>>::empty()
            } else {
                lines_from(text@, end + 1)
            };
            assert(lines_from(text@, at as int) =~= seq![line@] + rest);
            assert((seq![line@] + rest).map_values(tokenize) =~= seq![tokenize(line@)]
                + rest.map_values(tokenize));
            assert(line_views(lines@.push(tokens)) =~= before.push(token_views(tokens@)));
            assert(before.push(token_views(tokens@)) + rest.map_values(tokenize) =~= before + (
            seq![tokenize(line@)] + rest.map_values(tokenize)));
        }
        lines.push(tokens);
        if end == text.len() {
            proof {
                assert(Seq::<Seq<u8>>::empty().map_values(tokenize) =~= Seq::<Seq<Seq<u8>>>::empty());
            }
            break ;
        }
        at = end + 1;
    }
    proof {
        if at >= text.len() {
            assert(lines_from(text@, at as int) =~= Seq::<Seq<u8>>::empty());
            assert(lines_from(text@, at as int).map_values(tokenize) =~= Seq::<Seq<Seq<u8>>>::empty());
        }
        assert(line_views(lines@) + Seq::<Seq<Seq<u8>>>::empty() =~= line_views(lines@));
    }
    lines
}

/// Whether `s` is a token: not empty, and free of separators.
pub open spec fn is_token(s: Seq<u8>) -> bool {
    s.len() >= 1 && forall|i: int| 0 <= i < s.len() ==> !is_space(#[trigger] s[i])
}

/// Whether every byte of `s` is a separator other than the line feed.
pub open spec fn is_blank(s: Seq<u8>) -> bool {
    forall|i: int| 0 <= i < s.len() ==> is_space(#[trigger] s[i]) && !is_break(s[i])
}

/// Whether `s` holds no line feed.
pub open spec fn no_break(s: Seq<u8>) -> bool {
    forall|i: int| 0 <= i < s.len() ==> !is_break(#[trigger] s[i])
}

/// The end of a run of separators does not depend on what stands before
/// it.
pub proof fn lemma_skip_spaces_shift(head: Seq<u8>, s: Seq<u8>, from: int)
    requires
        0 <= from <= s.len(),
    ensures
        skip_spaces(head + s, head.len() + from) == head.len() + skip_spaces(s, from),
    decreases s.len() - from,
{
    if from < s.len() {
        assert((head + s)[head.len() + from] == s[from]);
        if is_space(s[from]) {
            lemma_skip_spaces_shift(head, s, from + 1);
        }
    }
}

/// The end of a token does not depend on what stands before it.
pub proof fn lemma_word_end_shift(head: Seq<u8>, s: Seq<u8>, from: int)
    requires
        0 <= from <= s.len(),
    ensures
        word_end(head + s, head.len() + from) == head.len() + word_end(s, from),
    decreases s.len() - from,
{
    if from < s.len() {
        assert((head + s)[head.len() + from] == s[from]);
        if !is_space(s[from]) {
            lemma_word_end_shift(head, s, from + 1);
        }
    }
}

/// The tokens from a place on do not depend on what stands before it.
pub proof fn lemma_tokens_shift(head: Seq<u8>, s: Seq<u8>, from: int)
    requires
        0 <= from <= s.len(),
    ensures
        tokens_from(head + s, head.len() + from) == tokens_from(s, from),
    decreases s.len() - from,
{
    let all = head + s;
    lemma_skip_spaces_shift(head, s, from);
    lemma_skip_spaces_bounds(s, from);
    let start = skip_spaces(s, from);
    if start < s.len() {
        lemma_word_end_shift(head, s, start);
        lemma_word_end_bounds(s, start);
        let end = word_end(s, start);
        assert(all.subrange(head.len() + start, head.len() + end) =~= s.subrange(start, end));
        lemma_tokens_shift(head, s, end);
    }
}

/// Separators at the front of a line hold no token.
pub proof fn lemma_tokens_after_spaces(spaces: Seq<u8>, rest: Seq<u8>)
    requires
        forall|i: int| 0 <= i < spaces.len() ==> is_space(#[trigger] spaces[i]),
    ensures
        tokens_from(spaces + rest, 0) == tokens_from(rest, 0),
{
    let all = spaces + rest;
    lemma_skip_spaces_bounds(all, 0);
    lemma_skip_spaces_bounds(all, spaces.len() as int);
    let a = skip_spaces(all, 0);
    let b = skip_spaces(all, spaces.len() as int);
    assert(a >= spaces.len()) by {
        if a < spaces.len() {
            assert(all[a] == spaces[a]);
        }
    }
    assert(a == b) by {
        if a < b {
            assert(is_space(all[a]));
        }
        if b < a {
            assert(is_space(all[b]));
        }
    }
    lemma_tokens_shift(spaces, rest, 0);
}

/// A token at the front of a line, with a separator or nothing after it,
/// is the first token of the line.
pub proof fn lemma_tokens_after_token(token: Seq<u8>, rest: Seq<u8>)
    requires
        is_token(token),
        rest.len() == 0 || is_space(rest[0]),
    ensures
        tokens_from(token + rest, 0) == seq![token] + tokens_from(rest, 0),
{
    let all = token + rest;
    assert(all[0] == token[0]);
    lemma_word_end_bounds(all, 0);
    let end = word_end(all, 0);
    assert(end <= token.len()) by {
        if end > token.len() {
            assert(all[token.len() as int] == rest[0]);
        }
    }
    assert(end >= token.len()) by {
        if end < token.len() {
            assert(all[end] == token[end]);
        }
    }
    assert(all.subrange(0, end) =~= token);
    lemma_tokens_shift(token, rest, 0);
}

/// A line of separators alone holds no token.
pub proof fn lemma_tokens_of_spaces(spaces: Seq<u8>)
    requires
        forall|i: int| 0 <= i < spaces.len() ==> is_space(#[trigger] spaces[i]),
    ensures
        tokens_from(spaces, 0) == Seq::<Seq<u8>>::empty(),
{
    lemma_skip_spaces_bounds(spaces, 0);
}

/// The end of a line does not depend on what stands before the line.
pub proof fn lemma_line_end_shift(head: Seq<u8>, s: Seq<u8>, from: int)
    requires
        0 <= from <= s.len(),
    ensures
        line_end(head + s, head.len() + from) == head.len() + line_end(s, from),
    decreases s.len() - from,
{
    if from < s.len() {
        assert((head + s)[head.len() + from] == s[from]);
        if !is_break(s[from]) {
            lemma_line_end_shift(head, s, from + 1);
        }
    }
}

/// The lines from a place on do not depend on what stands before it.
pub proof fn lemma_lines_shift(head: Seq<u8>, s: Seq<u8>, from: int)
    requires
        0 <= from <= s.len(),
    ensures
        lines_from(head + s, head.len() + from) == lines_from(s, from),
    decreases s.len() - from,
{
    let all = head + s;
    if from < s.len() {
        lemma_line_end_shift(head, s, from);
        lemma_line_end_bounds(s, from);
        let end = line_end(s, from);
        assert(all.subrange(head.len() + from, head.len() + end) =~= s.subrange(from, end));
        if end < s.len() {
            lemma_lines_shift(head, s, end + 1);
        }
    }
}

/// A line and its line feed at the front of a text are its first line.
pub proof fn lemma_first_line(first: Seq<u8>, rest: Seq<u8>)
    requires
        no_break(first),
    ensures
        lines_from(first + seq![10u8] + rest, 0) == seq![first] + lines_from(rest, 0),
{
    let head = first + seq![10u8];
    let all = head + rest;
    lemma_line_end_bounds(all, 0);
    let end = line_end(all, 0);
    assert(all[first.len() as int] == 10u8);
    assert(end == first.len()) by {
        if end < first.len() {
            assert(all[end] == first[end]);
        }
    }
    assert(all.subrange(0, end) =~= first);
    lemma_lines_shift(head, rest, 0);
}

/// The tokens of the first line of a text, where that line is `first`.
pub proof fn lemma_lex_first_line(first: Seq<u8>, rest: Seq<u8>)
    requires
        no_break(first),
    ensures
        lex(first + seq![10u8] + rest) == seq![tokens_from(first, 0)] + lex(rest),
{
    lemma_first_line(first, rest);
    let tokenize = |line: Seq<u8>| tokens_from(line, 0);
    assert((seq![first] + lines_from(rest, 0)).map_values(tokenize) =~= seq![tokenize(first)]
        + lines_from(rest, 0).map_values(tokenize));
}

/// What the lexer gives as tokens are tokens: not empty, and free of
/// separators.
pub proof fn lemma_tokens_are_tokens(line: Seq<u8>, from: int)
    requires
        0 <= from <= line.len(),
    ensures
        forall|i: int|
            0 <= i < tokens_from(line, from).len() ==> is_token(#[trigger] tokens_from(line, from)[i]),
    decreases line.len() - from,
{
    lemma_skip_spaces_bounds(line, from);
    let start = skip_spaces(line, from);
    if start < line.len() {
        lemma_word_end_bounds(line, start);
        let end = word_end(line, start);
        let token = line.subrange(start, end);
        lemma_tokens_are_tokens(line, end);
        let rest = tokens_from(line, end);
        let all = tokens_from(line, from);
        assert(all == seq![token] + rest);
        assert(is_token(token)) by {
            assert forall|k: int| 0 <= k < token.len() implies !is_space(#[trigger] token[k]) by {
                assert(token[k] == line[start + k]);
            }
        }
        assert forall|i: int| 0 <= i < all.len() implies is_token(#[trigger] all[i]) by {
            if i > 0 {
                assert(all[i] == rest[i - 1]);
            }
        }
    }
}

/// Every token of every line of a text is a token.
pub proof fn lemma_lex_gives_tokens(text: Seq<u8>)
    ensures
        forall|l: int, c: int|
            0 <= l < lex(text).len() && 0 <= c < lex(text)[l].len() ==> is_token(
                #[trigger] lex(text)[l][c],
            ),
{
    let lines = lines_from(text, 0);
    assert forall|l: int, c: int|
        0 <= l < lex(text).len() && 0 <= c < lex(text)[l].len() implies is_token(
        #[trigger] lex(text)[l][c],
    ) by {
        assert(lex(text)[l] == tokens_from(lines[l], 0));
        lemma_tokens_are_tokens(lines[l], 0);
    }
}

} // verus!
