//! Which entries of a directory are processed.
//!
//! An entry is processed when it is not a directory and its file name ends
//! with `.log`, compared letter for letter.

use vstd::prelude::*;
use vstd::utf8::*;

verus! {

/// The extension that marks a log file.
pub open spec fn log_suffix() -> Seq<char> {
    seq!['.', 'l', 'o', 'g']
}

/// Whether `name` ends with `.log`.
pub open spec fn is_log_name(name: Seq<char>) -> bool {
    name.len() >= 4 && name.subrange(name.len() - 4, name.len() as int) == log_suffix()
}

/// What the traversal reports of one entry.
#[derive(Debug)]
pub struct CandidateEntry {
    /// The final component of the entry's path, where it is valid Unicode.
    pub name: Option<String>,
    /// Whether the entry is a directory.
    pub is_dir: bool,
}

impl CandidateEntry {
    /// Whether the entry is a file whose name marks it as a log.
    pub open spec fn eligible(&self) -> bool {
        &&& !self.is_dir
        &&& self.name matches Some(name)
        &&& is_log_name(name@)
    }

    /// Tells whether the entry is to be processed.
    pub fn is_eligible(&self) -> (r: bool)
        ensures
            r == self.eligible(),
    {
        if self.is_dir {
            return false;
        }
        match &self.name {
            Some(name) => is_log(name.as_str()),
            None => false,
        }
    }
}

proof fn lemma_encode_concat(head: Seq<char>, tail: Seq<char>)
    ensures
        encode_utf8(head + tail) == encode_utf8(head) + encode_utf8(tail),
    decreases head.len(),
{
    if head.len() == 0 {
        assert(head + tail =~= tail);
    } else {
        assert((head + tail).drop_first() =~= head.drop_first() + tail);
        lemma_encode_concat(head.drop_first(), tail);
    }
    assert(encode_utf8(head + tail) =~= encode_utf8(head) + encode_utf8(tail));
}

/// A name ends with `.log` exactly when its UTF-8 encoding ends with the
/// four bytes of `.log`.
proof fn lemma_log_suffix_bytes(name: Seq<char>)
    ensures
        is_log_name(name) <==> {
            let bytes = encode_utf8(name);
            let n = bytes.len() as int;
            n >= 4 && bytes[n - 4] == 0x2E && bytes[n - 3] == 0x6C && bytes[n - 2] == 0x6F
                && bytes[n - 1] == 0x67
        },
{
    let suffix = log_suffix();
    let bytes = encode_utf8(name);
    let n = bytes.len() as int;
    let suffix_bytes = encode_utf8(suffix);
    is_ascii_chars_encode_utf8(suffix);
    assert(suffix_bytes =~= seq![0x2Eu8, 0x6Cu8, 0x6Fu8, 0x67u8]);
    if is_log_name(name) {
        let stem = name.subrange(0, name.len() - 4);
        assert(name =~= stem + suffix);
        lemma_encode_concat(stem, suffix);
        assert(bytes[n - 4] == suffix_bytes[0]);
        assert(bytes[n - 3] == suffix_bytes[1]);
        assert(bytes[n - 2] == suffix_bytes[2]);
        assert(bytes[n - 1] == suffix_bytes[3]);
    }
    if n >= 4 && bytes[n - 4] == 0x2E && bytes[n - 3] == 0x6C && bytes[n - 2] == 0x6F && bytes[n
        - 1] == 0x67 {
        encode_utf8_valid_utf8(name);
        encode_utf8_decode_utf8(name);
        encode_utf8_decode_utf8(suffix);
        is_char_boundary_iff_not_is_continuation_byte(bytes, n - 4);
        decode_utf8_split(bytes, n - 4);
        assert(bytes.subrange(n - 4, n) =~= suffix_bytes);
        let stem = decode_utf8(bytes.subrange(0, n - 4));
        assert(name =~= stem + suffix);
        assert(name.subrange(name.len() - 4, name.len() as int) =~= suffix);
    }
}

/// Tells whether a file name ends with `.log`. The comparison is exact: no
/// other case and no longer extension matches.
pub fn is_log(name: &str) -> (r: bool)
    ensures
        r == is_log_name(name@),
{
    let bytes = name.as_bytes();
    let n: usize = bytes.len();
    proof {
        lemma_log_suffix_bytes(name@);
    }
    n >= 4 && bytes[n - 4] == 0x2E && bytes[n - 3] == 0x6C && bytes[n - 2] == 0x6F && bytes[n - 1]
        == 0x67
}

/// Number of eligible entries among `entries`.
pub open spec fn eligible_count(entries: Seq<CandidateEntry>) -> nat
    decreases entries.len(),
{
    if entries.len() == 0 {
        0
    } else {
        eligible_count(entries.drop_last()) + if entries.last().eligible() {
            1nat
        } else {
            0nat
        }
    }
}

/// Whether `chosen` holds the indices of the eligible entries of `entries`,
/// each once and in rising order.
pub open spec fn is_selection(chosen: Seq<usize>, entries: Seq<CandidateEntry>) -> bool {
    &&& chosen.len() == eligible_count(entries)
    &&& forall|k: int|
        0 <= k < chosen.len() ==> (#[trigger] chosen[k]) < entries.len()
            && entries[chosen[k] as int].eligible()
    &&& forall|j: int, k: int| 0 <= j < k < chosen.len() ==> chosen[j] < chosen[k]
    &&& forall|i: int|
        0 <= i < entries.len() && (#[trigger] entries[i]).eligible() ==> chosen.contains(
            i as usize,
        )
}

/// Picks the entries to process: the indices of the eligible entries, in the
/// order of the traversal.
pub fn select(entries: &Vec<CandidateEntry>) -> (chosen: Vec<usize>)
    ensures
        is_selection(chosen@, entries@),
{
    let mut chosen: Vec<usize> = Vec::new();
    let mut at: usize = 0;
    while at < entries.len()
        invariant
            at <= entries.len(),
            is_selection(chosen@, entries@.take(at as int)),
        decreases entries.len() - at,
    {
        let ghost seen = entries@.take(at as int);
        let ghost grown = entries@.take(at + 1);
        let ghost before = chosen@;
        proof {
            assert(grown.drop_last() =~= seen);
            assert(grown.last() == entries@[at as int]);
        }
        if entries[at].is_eligible() {
            chosen.push(at);
            proof {
                assert(chosen@[before.len() as int] == at);
                assert forall|i: int|
                    0 <= i < grown.len() && (#[trigger] grown[i]).eligible() implies chosen@.contains(
                    i as usize,
                ) by {
                    if i < at {
                        assert(seen[i].eligible());
                        let k = choose|k: int| 0 <= k < before.len() && before[k] == i as usize;
                        assert(chosen@[k] == i as usize);
                    }
                }
            }
        } else {
            assert forall|i: int|
                0 <= i < grown.len() && (#[trigger] grown[i]).eligible() implies chosen@.contains(
                i as usize,
            ) by {
                assert(seen[i].eligible());
            }
        }
        at = at + 1;
    }
    assert(entries@.take(at as int) =~= entries@);
    chosen
}

} // verus!
