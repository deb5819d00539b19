//! A one-line excerpt of what an external command printed, fit for a `key=value;` log
//! line: control characters become spaces, semicolons become commas, and the result is
//! trimmed.
use vstd::prelude::*;
use vstd::utf8::valid_utf8;

use crate::json::{trim_end_index, trim_start_index, trimmed};
use crate::text::copy_range;

verus! {

/// How many bytes of a command's output the excerpt looks at.
pub const COMMAND_OUTPUT_SNIPPET_BYTES: usize = 4096;

/// What `String::from_utf8_lossy` makes of `bytes`, as bytes.
pub uninterp spec fn lossy_utf8(bytes: Seq<u8>) -> Seq<u8>;

/// `String::from_utf8_lossy`, as bytes. Its documentation says that well-formed UTF-8
/// comes back unchanged; the replacement of ill-formed sequences is left unstated here.
#[verifier::external_body]
fn decode_lossy(bytes: &[u8]) -> (text: Vec<u8>)
    ensures
        text@ == lossy_utf8(bytes@),
        valid_utf8(bytes@) ==> text@ == bytes@,
{
    String::from_utf8_lossy(bytes).into_owned().into_bytes()
}

/// The UTF-8 text `s` with each control character (U+0000 to U+001F, U+007F to U+009F)
/// replaced by a space and each `;` by a `,`.
pub open spec fn normalized_output(s: Seq<u8>) -> Seq<u8>
    decreases s.len(),
{
    if s.len() == 0 {
        Seq::empty()
    } else if s[0] < 32 || s[0] == 127 {
        seq![32u8] + normalized_output(s.subrange(1, s.len() as int))
    } else if s.len() >= 2 && s[0] == 0xC2 && 0x80 <= s[1] && s[1] <= 0x9F {
        seq![32u8] + normalized_output(s.subrange(2, s.len() as int))
    } else if s[0] == 59 {
        seq![44u8] + normalized_output(s.subrange(1, s.len() as int))
    } else {
        seq![s[0]] + normalized_output(s.subrange(1, s.len() as int))
    }
}

/// `empty`, the excerpt of an output that holds nothing but white space.
pub open spec fn empty_snippet() -> Seq<u8> {
    seq![101u8, 109u8, 112u8, 116u8, 121u8]
}

/// The excerpt of the UTF-8 text `s`.
pub open spec fn snippet_of(s: Seq<u8>) -> Seq<u8> {
    let n = normalized_output(s);
    let t = trimmed(n, 0, n.len() as int);
    if t.len() == 0 {
        empty_snippet()
    } else {
        t
    }
}

/// The excerpt of a command's output: the first `COMMAND_OUTPUT_SNIPPET_BYTES` bytes
/// read as UTF-8 (ill-formed sequences replaced), then `snippet_of`.
pub open spec fn command_output_snippet_spec(bytes: Seq<u8>) -> Seq<u8> {
    let end = if bytes.len() < COMMAND_OUTPUT_SNIPPET_BYTES {
        bytes.len() as int
    } else {
        COMMAND_OUTPUT_SNIPPET_BYTES as int
    };
    snippet_of(lossy_utf8(bytes.subrange(0, end)))
}

/// The excerpt of UTF-8 text that was already decoded.
pub fn output_snippet_text(text: &[u8]) -> (snippet: Vec<u8>)
    ensures
        snippet@ == snippet_of(text@),
{
    let n = text.len();
    let mut out: Vec<u8> = Vec::new();
    let mut i: usize = 0;
    proof {
        assert(text@.subrange(0, n as int) =~= text@);
        assert(out@ + normalized_output(text@) =~= normalized_output(text@));
    }
    while i < n
        invariant
            n == text@.len(),
            i <= n,
            out@ + normalized_output(text@.subrange(i as int, n as int)) == normalized_output(
                text@,
            ),
        decreases n - i,
    {
        let ghost rest = text@.subrange(i as int, n as int);
        let ghost before = out@;
        let b = text[i];
        let (c, step): (u8, usize) = if b < 32 || b == 127 {
            (32u8, 1usize)
        } else if n - i >= 2 && b == 0xC2 && 0x80 <= text[i + 1] && text[i + 1] <= 0x9F {
            (32u8, 2usize)
        } else if b == 59 {
            (44u8, 1usize)
        } else {
            (b, 1usize)
        };
        let ghost next = text@.subrange(i + step, n as int);
        proof {
            assert(rest.subrange(step as int, rest.len() as int) =~= next);
            assert(normalized_output(rest) == seq![c] + normalized_output(next));
        }
        out.push(c);
        i = i + step;
        proof {
            assert(before + (seq![c] + normalized_output(next)) =~= out@ + normalized_output(next));
        }
    }
    proof {
        assert(text@.subrange(n as int, n as int) =~= Seq::<u8>::empty());
        assert(out@ + Seq::<u8>::empty() =~= out@);
    }
    let first = trim_start_index(&out, 0, out.len());
    let last = trim_end_index(&out, first, out.len());
    if first == last {
        let mut empty: Vec<u8> = Vec::new();
        empty.push(101u8);
        empty.push(109u8);
        empty.push(112u8);
        empty.push(116u8);
        empty.push(121u8);
        proof {
            assert(empty@ =~= empty_snippet());
        }
        empty
    } else {
        copy_range(&out, first, last)
    }
}

/// The excerpt of what a command printed: its first `COMMAND_OUTPUT_SNIPPET_BYTES` bytes
/// are read as UTF-8, with ill-formed sequences replaced, and then `output_snippet_text`
/// applies.
pub fn command_output_snippet(bytes: &[u8]) -> (snippet: Vec<u8>)
    ensures
        snippet@ == command_output_snippet_spec(bytes@),
{
    let end = if bytes.len() < COMMAND_OUTPUT_SNIPPET_BYTES {
        bytes.len()
    } else {
        COMMAND_OUTPUT_SNIPPET_BYTES
    };
    let prefix = copy_range(bytes, 0, end);
    let text = decode_lossy(prefix.as_slice());
    output_snippet_text(text.as_slice())
}

} // verus!
