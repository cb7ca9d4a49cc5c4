//! Laws of the converter as a whole: how many output lines a
//! well-formed document yields, which cue each of them renders, and
//! that one rejected timing line rejects the whole document.

use vstd::prelude::*;
use crate::convert::{cue_line, spec_timing, spec_convert_lines, ConvertError};

verus! {

/// The output line of the whole block whose four lines start at
/// position `b`: its second line read as a timing line, paired with
/// its third line as the caption.
pub open spec fn block_cue(lines: Seq<Seq<u8>>, b: int) -> Seq<u8>
    recommends
        0 <= b,
        b + 2 < lines.len(),
        spec_timing(lines[b + 1]) is Ok,
{
    cue_line(
        spec_timing(lines[b + 1])->Ok_0.0,
        spec_timing(lines[b + 1])->Ok_0.1,
        lines[b + 2],
    )
}

/// A document of whole 4-line blocks whose timing lines are all
/// accepted converts without error, and yields exactly one output
/// line per block: walked from block boundary `i`, the output covers
/// the remaining `(lines.len() - i) / 4` blocks.
pub proof fn lemma_block_output_count_from(lines: Seq<Seq<u8>>, i: int)
    requires
        0 <= i <= lines.len(),
        lines.len() % 4 == 0,
        i % 4 == 0,
        forall|j: int| 0 <= j < lines.len() && j % 4 == 1 ==> spec_timing(#[trigger] lines[j]) is Ok,
    ensures
        spec_convert_lines(lines, i) is Ok,
        spec_convert_lines(lines, i)->Ok_0.len() * 4 == lines.len() - i,
        forall|k: int|
            0 <= k < spec_convert_lines(lines, i)->Ok_0.len() ==> #[trigger] spec_convert_lines(
                lines,
                i,
            )->Ok_0[k] == block_cue(lines, i + 4 * k),
    decreases lines.len() - i,
{
    if i < lines.len() {
        assert(i + 4 <= lines.len()) by {
            assert((lines.len() - i) % 4 == 0);
        }
        lemma_block_output_count_from(lines, i + 4);
        assert(spec_convert_lines(lines, i) == spec_convert_lines(lines, i + 1));
        assert(spec_convert_lines(lines, i + 2) == spec_convert_lines(lines, i + 3));
        assert(spec_convert_lines(lines, i + 3) == spec_convert_lines(lines, i + 4));
        assert(spec_timing(lines[i + 1]) is Ok);
        let out = spec_convert_lines(lines, i)->Ok_0;
        let rest = spec_convert_lines(lines, i + 4)->Ok_0;
        assert forall|k: int| 0 <= k < out.len() implies #[trigger] out[k] == block_cue(
            lines,
            i + 4 * k,
        ) by {
            if k == 0 {
                assert(out[0] == block_cue(lines, i));
            } else {
                assert(out[k] == rest[k - 1]);
                assert(rest[k - 1] == block_cue(lines, i + 4 + 4 * (k - 1)));
            }
        }
    }
}

/// For all well-formed 4-line-block input with `N` cues, the output
/// has exactly `N` lines: a document of `N` whole blocks whose timing
/// lines are all accepted converts to exactly `N` output lines.
pub proof fn lemma_block_output_count(lines: Seq<Seq<u8>>)
    requires
        lines.len() % 4 == 0,
        forall|j: int| 0 <= j < lines.len() && j % 4 == 1 ==> spec_timing(#[trigger] lines[j]) is Ok,
    ensures
        spec_convert_lines(lines, 0) is Ok,
        spec_convert_lines(lines, 0)->Ok_0.len() * 4 == lines.len(),
{
    lemma_block_output_count_from(lines, 0);
}

/// A timing line and the caption text after it, at the correct block
/// position of a well-formed document, produce exactly their own
/// output line: the `k`-th output line is the cue of the `k`-th
/// 4-line block.
pub proof fn lemma_block_cue_content(lines: Seq<Seq<u8>>, k: int)
    requires
        lines.len() % 4 == 0,
        forall|j: int| 0 <= j < lines.len() && j % 4 == 1 ==> spec_timing(#[trigger] lines[j]) is Ok,
        0 <= 4 * k < lines.len(),
    ensures
        spec_convert_lines(lines, 0) is Ok,
        spec_convert_lines(lines, 0)->Ok_0[k] == block_cue(lines, 4 * k),
{
    lemma_block_output_count_from(lines, 0);
}

/// A ragged document converts without error as long as every timing
/// line it holds is accepted, walked from block boundary `i`: lines
/// may run out anywhere in a block, and the output covers exactly the
/// completed timing/text pairs that remain.
pub proof fn lemma_ragged_input_count_from(lines: Seq<Seq<u8>>, i: int)
    requires
        0 <= i <= lines.len(),
        i % 4 == 0,
        forall|j: int| 0 <= j < lines.len() && j % 4 == 1 ==> spec_timing(#[trigger] lines[j]) is Ok,
    ensures
        spec_convert_lines(lines, i) is Ok,
        spec_convert_lines(lines, i)->Ok_0.len() == (lines.len() - i + 1) / 4,
    decreases lines.len() - i,
{
    let len = lines.len() as int;
    if i < len {
        assert(spec_convert_lines(lines, i) == spec_convert_lines(lines, i + 1));
        if i + 1 < len {
            assert(spec_timing(lines[i + 1]) is Ok);
            if i + 2 < len {
                assert(spec_convert_lines(lines, i + 2) == spec_convert_lines(lines, i + 3));
                if i + 4 <= len {
                    lemma_ragged_input_count_from(lines, i + 4);
                    assert(spec_convert_lines(lines, i + 3) == spec_convert_lines(lines, i + 4));
                } else {
                    assert(spec_convert_lines(lines, i + 3) == Ok::<Seq<Seq<u8>>, ConvertError>(
                        Seq::<Seq<u8>>::empty(),
                    ));
                }
            }
        }
    }
}

/// Ragged input does not reject or lose what is complete: when every
/// timing line of the document is accepted, the conversion succeeds
/// whatever the total line count, and yields one output line per
/// timing line that a caption line still follows.
pub proof fn lemma_ragged_input_count(lines: Seq<Seq<u8>>)
    requires
        forall|j: int| 0 <= j < lines.len() && j % 4 == 1 ==> spec_timing(#[trigger] lines[j]) is Ok,
    ensures
        spec_convert_lines(lines, 0) is Ok,
        spec_convert_lines(lines, 0)->Ok_0.len() == (lines.len() + 1) / 4,
{
    lemma_ragged_input_count_from(lines, 0);
}

/// A rejected timing line rejects the whole document from any earlier
/// position on; when every timing line before it is accepted, the
/// document's error is that line's own.
pub proof fn lemma_malformed_timing_aborts_from(lines: Seq<Seq<u8>>, i: int, j: int)
    requires
        0 <= i <= j < lines.len(),
        j % 4 == 1,
        spec_timing(lines[j]) is Err,
        forall|k: int| i <= k < j && k % 4 == 1 ==> spec_timing(#[trigger] lines[k]) is Ok,
    ensures
        spec_convert_lines(lines, i) == Err::<Seq<Seq<u8>>, ConvertError>(
            spec_timing(lines[j])->Err_0,
        ),
    decreases lines.len() - i,
{
    if i % 4 == 1 {
        if i == j {
        } else {
            assert(spec_timing(lines[i]) is Ok);
            assert(i + 1 <= j);
            lemma_malformed_timing_aborts_from(lines, i + 1, j);
        }
    } else {
        lemma_malformed_timing_aborts_from(lines, i + 1, j);
        assert(spec_convert_lines(lines, i) == spec_convert_lines(lines, i + 1));
    }
}

/// A malformed timing line aborts the whole conversion rather than
/// skipping its own cue: the first rejected timing line's error is
/// the document's.
pub proof fn lemma_malformed_timing_aborts(lines: Seq<Seq<u8>>, j: int)
    requires
        0 <= j < lines.len(),
        j % 4 == 1,
        spec_timing(lines[j]) is Err,
        forall|k: int| 0 <= k < j && k % 4 == 1 ==> spec_timing(#[trigger] lines[k]) is Ok,
    ensures
        spec_convert_lines(lines, 0) == Err::<Seq<Seq<u8>>, ConvertError>(
            spec_timing(lines[j])->Err_0,
        ),
{
    lemma_malformed_timing_aborts_from(lines, 0, j);
}

} // verus!
