//! The transform of one file: every line loses its leading whitespace and
//! gains a carriage return and a line feed.
//!
//! Lines are read in order. A line that is not well-formed UTF-8 stops the
//! transform; what was produced for the lines before it stays.

use vstd::prelude::*;
use vstd::slice::slice_subrange;
use vstd::utf8::{
    is_char_boundary_iff_not_is_continuation_byte, pop_first_scalar, valid_utf8, valid_utf8_concat,
    valid_utf8_split,
};
use crate::encoding::is_utf8;
use crate::line::{
    body_of, cr_lf, has_no_line_feed, is_line_body, lemma_lines_concat,
    lemma_lines_hold_no_line_feed, lemma_lines_of_terminated, lemma_terminated_ends, line_body,
    line_end, line_feed, lines, terminated, CARRIAGE_RETURN, LINE_FEED,
};
use crate::whitespace::{
    leading_white_space, leading_whitespace, lemma_leading_white_space_bounds,
    lemma_trim_start_decodes, lemma_trim_start_idempotent, trim_start,
};

verus! {

/// Number of lines at the front of `bodies` that are well-formed UTF-8.
pub open spec fn sound_prefix(bodies: Seq<Seq<u8>>) -> nat
    decreases bodies.len(),
{
    if bodies.len() == 0 || !valid_utf8(bodies[0]) {
        0
    } else {
        1 + sound_prefix(bodies.drop_first())
    }
}

/// Whether every line of `content` is well-formed UTF-8.
pub open spec fn well_formed(content: Seq<u8>) -> bool {
    forall|i: int| 0 <= i < lines(content).len() ==> valid_utf8(#[trigger] lines(content)[i])
}

/// Each of `bodies` without its leading whitespace.
pub open spec fn trimmed_lines(bodies: Seq<Seq<u8>>) -> Seq<Seq<u8>> {
    bodies.map_values(|body: Seq<u8>| trim_start(body))
}

/// The lines of `content` that the transform reaches: all of them, or those
/// before the first one that is not well-formed UTF-8.
pub open spec fn reached_lines(content: Seq<u8>) -> Seq<Seq<u8>> {
    lines(content).take(sound_prefix(lines(content)) as int)
}

/// What the transform writes for `content`.
pub open spec fn trimmed(content: Seq<u8>) -> Seq<u8> {
    terminated(trimmed_lines(reached_lines(content)), cr_lf())
}

/// What the transform writes for one line as read.
pub open spec fn trimmed_line(raw: Seq<u8>) -> Seq<u8> {
    trim_start(line_body(raw)) + cr_lf()
}

/// Lines that are all well-formed count in full, before whatever follows.
pub proof fn lemma_sound_prefix_concat(done: Seq<Seq<u8>>, rest: Seq<Seq<u8>>)
    requires
        forall|i: int| 0 <= i < done.len() ==> valid_utf8(#[trigger] done[i]),
    ensures
        sound_prefix(done + rest) == done.len() + sound_prefix(rest),
    decreases done.len(),
{
    if done.len() == 0 {
        assert(done + rest =~= rest);
    } else {
        let all = done + rest;
        assert(all[0] == done[0]);
        assert(all.drop_first() =~= done.drop_first() + rest);
        assert forall|i: int| 0 <= i < done.drop_first().len() implies valid_utf8(
            #[trigger] done.drop_first()[i],
        ) by {
            assert(done.drop_first()[i] == done[i + 1]);
        }
        lemma_sound_prefix_concat(done.drop_first(), rest);
    }
}

/// The lines counted by `sound_prefix` are well-formed, and there are no
/// more of them than lines.
pub proof fn lemma_sound_prefix(bodies: Seq<Seq<u8>>)
    ensures
        sound_prefix(bodies) <= bodies.len(),
        forall|i: int| 0 <= i < sound_prefix(bodies) ==> valid_utf8(#[trigger] bodies[i]),
        sound_prefix(bodies) < bodies.len() ==> !valid_utf8(bodies[sound_prefix(bodies) as int]),
        sound_prefix(bodies) == bodies.len() <==> forall|i: int|
            0 <= i < bodies.len() ==> valid_utf8(#[trigger] bodies[i]),
    decreases bodies.len(),
{
    if bodies.len() == 0 || !valid_utf8(bodies[0]) {
    } else {
        let rest = bodies.drop_first();
        lemma_sound_prefix(rest);
        assert forall|i: int| 0 <= i < sound_prefix(bodies) implies valid_utf8(
            #[trigger] bodies[i],
        ) by {
            if i > 0 {
                assert(bodies[i] == rest[i - 1]);
            }
        }
        if sound_prefix(bodies) < bodies.len() {
            assert(bodies[sound_prefix(bodies) as int] == rest[sound_prefix(rest) as int]);
        }
    }
}

/// A line that is not well-formed UTF-8 stopped the transform.
#[derive(Debug)]
pub struct Malformed {
    /// Index of the offending line, counted from 0.
    pub line: usize,
    /// What was produced for the lines before it.
    pub written: Vec<u8>,
}

/// Transforms one line as read, terminator included: `None` where its body
/// is not well-formed UTF-8, else the body without its leading whitespace,
/// followed by a carriage return and a line feed.
pub fn trim_line(raw: &[u8]) -> (out: Option<Vec<u8>>)
    ensures
        out is Some <==> valid_utf8(line_body(raw@)),
        out matches Some(bytes) ==> bytes@ == trimmed_line(raw@),
{
    let body = body_of(raw);
    if !is_utf8(body) {
        return None;
    }
    let start: usize = leading_whitespace(body);
    let mut bytes: Vec<u8> = Vec::new();
    let mut at: usize = start;
    while at < body.len()
        invariant
            start <= at <= body.len(),
            bytes@ == body@.subrange(start as int, at as int),
        decreases body.len() - at,
    {
        bytes.push(body[at]);
        assert(bytes@ =~= body@.subrange(start as int, at + 1));
        at = at + 1;
    }
    bytes.push(CARRIAGE_RETURN);
    bytes.push(LINE_FEED);
    assert(bytes@ =~= trimmed_line(raw@));
    Some(bytes)
}

/// Transforms the content of a file.
///
/// Where every line is well-formed UTF-8, the result is every line without
/// its leading whitespace, each followed by a carriage return and a line
/// feed. Otherwise the error names the first line that is not, and holds
/// what was produced for the lines before it.
pub fn trim(content: &[u8]) -> (out: Result<Vec<u8>, Malformed>)
    ensures
        out is Ok <==> well_formed(content@),
        out matches Ok(bytes) ==> bytes@ == trimmed(content@),
        out matches Err(stop) ==> stop.line == sound_prefix(lines(content@)) && stop.line < lines(
            content@,
        ).len() && stop.written@ == trimmed(content@),
{
    let mut written: Vec<u8> = Vec::new();
    let mut at: usize = 0;
    let mut line: usize = 0;
    let ghost mut done: Seq<Seq<u8>> = Seq::empty();
    proof {
        assert(content@.skip(0) =~= content@);
        assert(done + lines(content@) =~= lines(content@));
    }
    while at < content.len()
        invariant
            at <= content.len(),
            line <= at,
            line == done.len(),
            lines(content@) == done + lines(content@.skip(at as int)),
            forall|i: int| 0 <= i < done.len() ==> valid_utf8(#[trigger] done[i]),
            written@ == terminated(trimmed_lines(done), cr_lf()),
        decreases content.len() - at,
    {
        let end: usize = line_end(content, at);
        let raw = slice_subrange(content, at, end);
        let ghost tail = content@.skip(at as int);
        let ghost body = line_body(raw@);
        proof {
            assert(raw@ =~= tail.take(end - at));
            assert(tail.skip(end - at) =~= content@.skip(end as int));
            assert(lines(tail) == seq![body] + lines(content@.skip(end as int)));
        }
        match trim_line(raw) {
            None => {
                proof {
                    lemma_sound_prefix_concat(done, lines(tail));
                    assert(lines(tail)[0] == body);
                    assert(reached_lines(content@) =~= done);
                    assert(lines(content@)[line as int] == body);
                }
                return Err(Malformed { line, written });
            },
            Some(mut piece) => {
                written.append(&mut piece);
                proof {
                    let grown = done.push(body);
                    assert(grown.drop_last() =~= done);
                    assert(trimmed_lines(grown).drop_last() =~= trimmed_lines(done));
                    assert(written@ =~= terminated(trimmed_lines(grown), cr_lf()));
                    assert(done + lines(tail) =~= grown + lines(content@.skip(end as int)));
                    done = grown;
                }
            },
        }
        line = line + 1;
        at = end;
    }
    proof {
        assert(lines(content@.skip(at as int)) =~= Seq::<Seq<u8>>::empty());
        assert(lines(content@) =~= done);
        lemma_sound_prefix_concat(done, Seq::empty());
        assert(done + Seq::<Seq<u8>>::empty() =~= done);
        assert(reached_lines(content@) =~= done);
    }
    Ok(written)
}

/// Trimming a line body leaves a line body that is well-formed where the
/// body was, and that trimming does not change again.
pub proof fn lemma_trimmed_lines(bodies: Seq<Seq<u8>>)
    requires
        forall|i: int| 0 <= i < bodies.len() ==> is_line_body(#[trigger] bodies[i], false),
        forall|i: int| 0 <= i < bodies.len() ==> valid_utf8(#[trigger] bodies[i]),
    ensures
        forall|i: int|
            0 <= i < bodies.len() ==> is_line_body(#[trigger] trimmed_lines(bodies)[i], false),
        forall|i: int| 0 <= i < bodies.len() ==> valid_utf8(#[trigger] trimmed_lines(bodies)[i]),
        trimmed_lines(trimmed_lines(bodies)) == trimmed_lines(bodies),
{
    let cut = trimmed_lines(bodies);
    assert forall|i: int| 0 <= i < bodies.len() implies is_line_body(#[trigger] cut[i], false)
        && valid_utf8(cut[i]) && trim_start(cut[i]) == cut[i] by {
        let body = bodies[i];
        assert(is_line_body(body, false));
        lemma_leading_white_space_bounds(body);
        lemma_trim_start_decodes(body);
        lemma_trim_start_idempotent(body);
        assert forall|k: int| 0 <= k < cut[i].len() implies cut[i][k] != LINE_FEED by {
            assert(cut[i][k] == body[k + leading_white_space(body)]);
        }
    }
    assert(trimmed_lines(cut) =~= cut);
}

/// The lines of what the transform writes are the lines that it reached,
/// each without its leading whitespace: where every line is well-formed, as
/// many lines come out as went in.
pub proof fn lemma_trim_keeps_lines(content: Seq<u8>)
    ensures
        lines(trimmed(content)) == trimmed_lines(reached_lines(content)),
        lines(trimmed(content)).len() == sound_prefix(lines(content)),
        well_formed(content) ==> lines(trimmed(content)).len() == lines(content).len(),
{
    let reached = reached_lines(content);
    lemma_sound_prefix(lines(content));
    lemma_lines_hold_no_line_feed(content);
    assert forall|i: int| 0 <= i < reached.len() implies is_line_body(
        #[trigger] reached[i],
        false,
    ) && valid_utf8(reached[i]) by {
        assert(reached[i] == lines(content)[i]);
    }
    lemma_trimmed_lines(reached);
    lemma_lines_of_terminated(trimmed_lines(reached), false);
}

/// Transforming what the transform wrote gives the same bytes again, and no
/// line of it is rejected.
pub proof fn lemma_trim_idempotent(content: Seq<u8>)
    ensures
        well_formed(trimmed(content)),
        trimmed(trimmed(content)) == trimmed(content),
{
    let reached = reached_lines(content);
    let cut = trimmed_lines(reached);
    lemma_sound_prefix(lines(content));
    lemma_lines_hold_no_line_feed(content);
    assert forall|i: int| 0 <= i < reached.len() implies is_line_body(
        #[trigger] reached[i],
        false,
    ) && valid_utf8(reached[i]) by {
        assert(reached[i] == lines(content)[i]);
    }
    lemma_trimmed_lines(reached);
    lemma_trim_keeps_lines(content);
    lemma_sound_prefix_concat(cut, Seq::empty());
    assert(cut + Seq::<Seq<u8>>::empty() =~= cut);
    assert(reached_lines(trimmed(content)) =~= cut);
}

/// Two contents with the same line bodies, one ending its lines with a bare
/// line feed and one with a carriage return and a line feed, are transformed
/// to the same bytes. `last` is the final line where it has no terminator,
/// and empty where every line has one.
pub proof fn lemma_terminator_does_not_matter(bodies: Seq<Seq<u8>>, last: Seq<u8>)
    requires
        forall|i: int| 0 <= i < bodies.len() ==> is_line_body(#[trigger] bodies[i], true),
        has_no_line_feed(last),
    ensures
        lines(terminated(bodies, line_feed()) + last) == lines(terminated(bodies, cr_lf()) + last),
        trimmed(terminated(bodies, line_feed()) + last) == trimmed(
            terminated(bodies, cr_lf()) + last,
        ),
{
    lemma_lines_of_terminated(bodies, true);
    lemma_terminated_ends(bodies, line_feed());
    lemma_terminated_ends(bodies, cr_lf());
    lemma_lines_concat(terminated(bodies, line_feed()), last);
    lemma_lines_concat(terminated(bodies, cr_lf()), last);
}

/// A line as read is well-formed UTF-8 exactly when its body is: the
/// terminator does not count.
pub proof fn lemma_terminator_is_sound(raw: Seq<u8>)
    ensures
        valid_utf8(raw) <==> valid_utf8(line_body(raw)),
{
    let body = line_body(raw);
    let n = body.len() as int;
    if body.len() < raw.len() {
        let end = raw.skip(n);
        assert(raw =~= body + end);
        assert(raw.subrange(0, n) =~= body);
        assert(end.len() == 1 || end.len() == 2);
        assert(valid_utf8(end)) by {
            reveal_with_fuel(valid_utf8, 3);
            let first = end[0];
            assert((first & 0x7f) as u32 <= 0x7f) by (bit_vector);
            if end.len() == 2 {
                let second = pop_first_scalar(end)[0];
                assert(second == LINE_FEED);
                assert((second & 0x7f) as u32 <= 0x7f) by (bit_vector);
            }
        }
        if valid_utf8(body) {
            valid_utf8_concat(body, end);
        }
        if valid_utf8(raw) {
            is_char_boundary_iff_not_is_continuation_byte(raw, n);
            valid_utf8_split(raw, n);
        }
    }
}

} // verus!
