//! How a file's bytes split into lines.
//!
//! A line runs up to and including the next line feed, or to the end of the
//! content where no line feed follows. Its body is the line without the line
//! feed and without one carriage return before it.

use vstd::prelude::*;
use vstd::slice::{slice_subrange, slice_to_vec};

verus! {

pub const LINE_FEED: u8 = 0x0A;

pub const CARRIAGE_RETURN: u8 = 0x0D;

/// Length of the first line of `content`, its terminator included.
pub open spec fn first_line_len(content: Seq<u8>) -> int
    decreases content.len(),
{
    if content.len() == 0 {
        0
    } else if content[0] == LINE_FEED {
        1
    } else {
        1 + first_line_len(content.drop_first())
    }
}

/// A line as read, without its terminator.
pub open spec fn line_body(raw: Seq<u8>) -> Seq<u8> {
    if raw.len() > 0 && raw.last() == LINE_FEED {
        let cut = raw.drop_last();
        if cut.len() > 0 && cut.last() == CARRIAGE_RETURN {
            cut.drop_last()
        } else {
            cut
        }
    } else {
        raw
    }
}

/// The bodies of the lines of `content`, in order.
pub open spec fn lines(content: Seq<u8>) -> Seq<Seq<u8>>
    decreases content.len(),
    via lines_decreases
{
    if content.len() == 0 {
        Seq::empty()
    } else {
        let n = first_line_len(content);
        seq![line_body(content.take(n))] + lines(content.skip(n))
    }
}

#[via_fn]
proof fn lines_decreases(content: Seq<u8>) {
    lemma_first_line_len(content);
}

/// Whether `bytes` holds no line feed.
pub open spec fn has_no_line_feed(bytes: Seq<u8>) -> bool {
    forall|i: int| 0 <= i < bytes.len() ==> bytes[i] != LINE_FEED
}

/// The first line is not empty, lies within the content, holds no line feed
/// before its last byte, and ends with a line feed unless it is the last.
pub proof fn lemma_first_line_len(content: Seq<u8>)
    ensures
        content.len() > 0 ==> 1 <= first_line_len(content) <= content.len(),
        content.len() == 0 ==> first_line_len(content) == 0,
        forall|i: int| 0 <= i < first_line_len(content) - 1 ==> content[i] != LINE_FEED,
        first_line_len(content) < content.len() ==> content[first_line_len(content) - 1]
            == LINE_FEED,
    decreases content.len(),
{
    if content.len() == 0 {
    } else if content[0] == LINE_FEED {
    } else {
        let rest = content.drop_first();
        lemma_first_line_len(rest);
        assert forall|i: int| 0 <= i < first_line_len(content) - 1 implies content[i]
            != LINE_FEED by {
            if i > 0 {
                assert(content[i] == rest[i - 1]);
            }
        }
    }
}

/// A line feed ends the first line where none comes before it.
pub proof fn lemma_first_line_ends_at(content: Seq<u8>, at: int)
    requires
        0 <= at < content.len(),
        has_no_line_feed(content.take(at)),
        content[at] == LINE_FEED,
    ensures
        first_line_len(content) == at + 1,
    decreases at,
{
    if at > 0 {
        let rest = content.drop_first();
        assert(content.take(at)[0] == content[0]);
        let head = content.take(at);
        let rest_head = rest.take(at - 1);
        assert forall|i: int| 0 <= i < rest_head.len() implies rest_head[i] != LINE_FEED by {
            assert(rest_head[i] == head[i + 1]);
        }
        lemma_first_line_ends_at(rest, at - 1);
    }
}

/// Content without a line feed is one line.
pub proof fn lemma_first_line_is_all(content: Seq<u8>)
    requires
        has_no_line_feed(content),
    ensures
        first_line_len(content) == content.len(),
    decreases content.len(),
{
    if content.len() > 0 {
        let rest = content.drop_first();
        assert(content[0] != LINE_FEED);
        assert forall|i: int| 0 <= i < rest.len() implies rest[i] != LINE_FEED by {
            assert(rest[i] == content[i + 1]);
        }
        lemma_first_line_is_all(rest);
    }
}

/// The terminator of a line that ends with a bare line feed.
pub open spec fn line_feed() -> Seq<u8> {
    seq![LINE_FEED]
}

/// The terminator of a line that ends with a carriage return and a line feed.
pub open spec fn cr_lf() -> Seq<u8> {
    seq![CARRIAGE_RETURN, LINE_FEED]
}

/// The content made of `lines`, each followed by `terminator`.
pub open spec fn terminated(lines: Seq<Seq<u8>>, terminator: Seq<u8>) -> Seq<u8>
    decreases lines.len(),
{
    if lines.len() == 0 {
        Seq::empty()
    } else {
        terminated(lines.drop_last(), terminator) + lines.last() + terminator
    }
}

/// Whether `bytes` can stand as the body of a line: it holds no line feed.
/// Where `strict`, it does not end with a carriage return either, so that a
/// bare line feed after it is not read as part of a two-byte terminator.
pub open spec fn is_line_body(bytes: Seq<u8>, strict: bool) -> bool {
    &&& has_no_line_feed(bytes)
    &&& strict ==> !(bytes.len() > 0 && bytes.last() == CARRIAGE_RETURN)
}

/// No line body holds a line feed.
pub proof fn lemma_lines_hold_no_line_feed(content: Seq<u8>)
    ensures
        forall|i: int|
            0 <= i < lines(content).len() ==> is_line_body(#[trigger] lines(content)[i], false),
    decreases content.len(),
{
    if content.len() > 0 {
        let n = first_line_len(content);
        lemma_first_line_len(content);
        let raw = content.take(n);
        let body = line_body(raw);
        let rest = lines(content.skip(n));
        lemma_lines_hold_no_line_feed(content.skip(n));
        assert forall|k: int| 0 <= k < body.len() implies body[k] != LINE_FEED by {
            assert(body[k] == content[k]);
        }
        assert forall|i: int| 0 <= i < lines(content).len() implies is_line_body(
            #[trigger] lines(content)[i],
            false,
        ) by {
            if i > 0 {
                assert(lines(content)[i] == rest[i - 1]);
            }
        }
    }
}

/// Content that is empty or ends with a line feed splits before whatever
/// follows it.
pub proof fn lemma_lines_concat(head: Seq<u8>, tail: Seq<u8>)
    requires
        head.len() == 0 || head.last() == LINE_FEED,
    ensures
        lines(head + tail) == lines(head) + lines(tail),
    decreases head.len(),
{
    if head.len() == 0 {
        assert(head + tail =~= tail);
        assert(lines(head) + lines(tail) =~= lines(tail));
    } else {
        let n = first_line_len(head);
        let all = head + tail;
        lemma_first_line_len(head);
        assert(head[n - 1] == LINE_FEED);
        let all_head = all.take(n - 1);
        assert forall|i: int| 0 <= i < all_head.len() implies all_head[i] != LINE_FEED by {
            assert(all_head[i] == head[i]);
        }
        lemma_first_line_ends_at(all, n - 1);
        assert(all.take(n) =~= head.take(n));
        assert(all.skip(n) =~= head.skip(n) + tail);
        lemma_lines_concat(head.skip(n), tail);
        assert(lines(all) =~= lines(head) + lines(tail));
    }
}

/// A body followed by a terminator is read back as that one body.
pub proof fn lemma_lines_of_one(body: Seq<u8>, strict: bool)
    requires
        is_line_body(body, strict),
    ensures
        lines(body + cr_lf()) == seq![body],
        strict ==> lines(body + line_feed()) == seq![body],
{
    let n = body.len() as int;
    let wide = body + cr_lf();
    let wide_head = wide.take(n + 1);
    assert forall|i: int| 0 <= i < wide_head.len() implies wide_head[i] != LINE_FEED by {
        if i < n {
            assert(wide[i] == body[i]);
        }
    }
    lemma_first_line_ends_at(wide, n + 1);
    assert(wide.take(n + 2) =~= wide);
    assert(wide.drop_last().drop_last() =~= body);
    assert(wide.drop_last().last() == CARRIAGE_RETURN);
    assert(wide.skip(n + 2) =~= Seq::<u8>::empty());
    assert(line_body(wide) == body);
    assert(lines(wide.skip(n + 2)) =~= Seq::<Seq<u8>>::empty());
    assert(lines(wide) =~= seq![body]);
    if strict {
        let bare = body + line_feed();
        let bare_head = bare.take(n);
        assert forall|i: int| 0 <= i < bare_head.len() implies bare_head[i] != LINE_FEED by {
            assert(bare[i] == body[i]);
        }
        lemma_first_line_ends_at(bare, n);
        assert(bare.take(n + 1) =~= bare);
        assert(bare.drop_last() =~= body);
        assert(bare.skip(n + 1) =~= Seq::<u8>::empty());
        assert(line_body(bare) == body);
        assert(lines(bare.skip(n + 1)) =~= Seq::<Seq<u8>>::empty());
        assert(lines(bare) =~= seq![body]);
    }
}

/// Splitting gives back the bodies that a content was made of, whichever of
/// the two terminators follows them.
pub proof fn lemma_lines_of_terminated(bodies: Seq<Seq<u8>>, strict: bool)
    requires
        forall|i: int| 0 <= i < bodies.len() ==> is_line_body(#[trigger] bodies[i], strict),
    ensures
        lines(terminated(bodies, cr_lf())) == bodies,
        strict ==> lines(terminated(bodies, line_feed())) == bodies,
    decreases bodies.len(),
{
    if bodies.len() > 0 {
        let front = bodies.drop_last();
        let last = bodies.last();
        lemma_lines_of_terminated(front, strict);
        lemma_lines_of_one(last, strict);
        lemma_terminated_ends(front, cr_lf());
        lemma_lines_concat(terminated(front, cr_lf()), last + cr_lf());
        assert(terminated(bodies, cr_lf()) =~= terminated(front, cr_lf()) + (last + cr_lf()));
        assert(front + seq![last] =~= bodies);
        if strict {
            lemma_terminated_ends(front, line_feed());
            lemma_lines_concat(terminated(front, line_feed()), last + line_feed());
            assert(terminated(bodies, line_feed()) =~= terminated(front, line_feed()) + (last
                + line_feed()));
        }
    }
}

/// Terminated content is empty or ends as its terminator does.
pub proof fn lemma_terminated_ends(bodies: Seq<Seq<u8>>, terminator: Seq<u8>)
    requires
        terminator.len() > 0,
    ensures
        bodies.len() == 0 ==> terminated(bodies, terminator).len() == 0,
        bodies.len() > 0 ==> terminated(bodies, terminator).len() > 0 && terminated(
            bodies,
            terminator,
        ).last() == terminator.last(),
{
}

/// Finds where the line that starts at `from` ends: the index after its line
/// feed, or the end of `content`.
pub fn line_end(content: &[u8], from: usize) -> (end: usize)
    requires
        from <= content.len(),
    ensures
        end == from + first_line_len(content@.skip(from as int)),
        from <= end <= content.len(),
        from < content.len() ==> from < end,
{
    let ghost tail = content@.skip(from as int);
    let mut at: usize = from;
    while at < content.len() && content[at] != LINE_FEED
        invariant
            from <= at <= content.len(),
            tail == content@.skip(from as int),
            has_no_line_feed(tail.take(at - from)),
        decreases content.len() - at,
    {
        proof {
            let seen = tail.take(at - from);
            let grown = tail.take(at + 1 - from);
            assert forall|i: int| 0 <= i < grown.len() implies grown[i] != LINE_FEED by {
                if i < at - from {
                    assert(seen[i] == tail[i]);
                }
            }
        }
        at = at + 1;
    }
    proof {
        if at < content.len() {
            lemma_first_line_ends_at(tail, at - from);
        } else {
            assert(tail.take(at - from) =~= tail);
            lemma_first_line_is_all(tail);
        }
    }
    if at < content.len() {
        at + 1
    } else {
        at
    }
}

/// Strips the terminator from a line as read.
pub fn body_of(raw: &[u8]) -> (body: &[u8])
    ensures
        body@ == line_body(raw@),
{
    let n: usize = raw.len();
    if n > 0 && raw[n - 1] == LINE_FEED {
        if n > 1 && raw[n - 2] == CARRIAGE_RETURN {
            let body = slice_subrange(raw, 0, n - 2);
            assert(body@ =~= raw@.drop_last().drop_last());
            body
        } else {
            let body = slice_subrange(raw, 0, n - 1);
            assert(body@ =~= raw@.drop_last());
            body
        }
    } else {
        raw
    }
}

/// Splits `content` into the bodies of its lines.
pub fn split_lines(content: &[u8]) -> (out: Vec<Vec<u8>>)
    ensures
        out.len() == lines(content@).len(),
        forall|i: int| 0 <= i < out.len() ==> (#[trigger] out[i])@ == lines(content@)[i],
{
    let mut out: Vec<Vec<u8>> = Vec::new();
    let mut at: usize = 0;
    let ghost mut done: Seq<Seq<u8>> = Seq::empty();
    proof {
        assert(content@.skip(0) =~= content@);
        assert(done + lines(content@) =~= lines(content@));
    }
    while at < content.len()
        invariant
            at <= content.len(),
            lines(content@) == done + lines(content@.skip(at as int)),
            out.len() == done.len(),
            forall|i: int| 0 <= i < out.len() ==> (#[trigger] out[i])@ == done[i],
        decreases content.len() - at,
    {
        let end: usize = line_end(content, at);
        let body = body_of(slice_subrange(content, at, end));
        let ghost tail = content@.skip(at as int);
        proof {
            assert(content@.subrange(at as int, end as int) =~= tail.take(end - at));
            assert(tail.skip(end - at) =~= content@.skip(end as int));
            assert(done + lines(tail) =~= done.push(body@) + lines(content@.skip(end as int)));
            done = done.push(body@);
        }
        out.push(slice_to_vec(body));
        at = end;
    }
    proof {
        assert(lines(content@.skip(at as int)) =~= Seq::<Seq<u8>>::empty());
        assert(lines(content@) =~= done);
    }
    out
}

} // verus!
