//! Line numbers of byte offsets.

use ruff_linter::Locator;
use ruff_text_size::TextSize;
use vstd::prelude::*;

verus! {

/// Whether the byte at `i` is the last one of a line break: a line feed, or a carriage return
/// that no line feed follows.
pub open spec fn ends_line(bytes: Seq<u8>, i: int) -> bool {
    ||| bytes[i] == 10
    ||| bytes[i] == 13 && !(i + 1 < bytes.len() && bytes[i + 1] == 10)
}

/// The number of line breaks that end before `offset`.
pub open spec fn line_breaks(bytes: Seq<u8>, offset: nat) -> nat
    decreases offset,
{
    if offset == 0 {
        0
    } else {
        line_breaks(bytes, (offset - 1) as nat) + if offset - 1 < bytes.len() && ends_line(
            bytes,
            offset - 1,
        ) {
            1nat
        } else {
            0nat
        }
    }
}

/// The number of the line that holds the byte at `offset`; lines are counted from 1.
pub open spec fn line_at(text: Seq<char>, offset: nat) -> nat {
    1 + line_breaks(vstd::utf8::encode_utf8(text), offset)
}

/// Whether a text is short enough for its byte offsets to fit in 32 bits.
pub open spec fn has_offsets(text: Seq<char>) -> bool {
    vstd::utf8::encode_utf8(text).len() <= u32::MAX
}

/// Calls `Locator::to_index` of `ruff_linter` and `LineIndex::line_index` of `ruff_source_file`.
/// The index holds offset 0 and the offset after each line break (`\n`, `\r\n`, or `\r` alone),
/// and the line of an offset is the number of these that do not exceed it; an offset past the end
/// of the text is on the last line. Building the index panics where the text has more than
/// `u32::MAX` bytes.
#[verifier::external_body]
pub(crate) fn line_number(text: &str, offset: u32) -> (line: usize)
    requires
        has_offsets(text@),
    ensures
        line == line_at(text@, offset as nat),
{
    Locator::new(text).to_index().line_index(TextSize::new(offset)).get()
}

} // verus!
