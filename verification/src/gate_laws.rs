//! What holds of labels and of the rows of a garbling table, word by word.

use crate::blake3::Blake3CompressState;
use crate::blake3::CompressInput;
use crate::garble::Gate;
use crate::garble::Label;
use crate::garble::Output;
use vstd::prelude::*;

verus! {

/// The record of the words drawn is what it was before, with the words drawn
/// since behind it.
pub proof fn law_record_grows_behind(before: Seq<u32>, after: Seq<u32>, words: Seq<u32>)
    ensures
        after == before + words ==> crate::rng::drew(before, after, words.len()),
        after == before + words ==> crate::rng::since(before, after) == words,
        crate::rng::drew(before, after, words.len()) && crate::rng::since(before, after) == words
            ==> after == before + words,
{
    if after == before + words {
        assert(after.take(before.len() as int) =~= before);
        assert(crate::rng::since(before, after) =~= words);
    }
    if crate::rng::drew(before, after, words.len()) && crate::rng::since(before, after) == words {
        assert(after =~= after.take(before.len() as int) + after.skip(before.len() as int));
    }
}

/// A state is seen with every field as it stands.
pub proof fn law_state_is_seen_whole(state: Blake3CompressState)
    ensures
        state@.cv.len() == 8 && forall|i: int| 0 <= i < 8 ==> state@.cv[i] == state.cv[i],
        state@.block.len() == 16 && forall|i: int|
            0 <= i < 16 ==> state@.block[i] == state.block[i],
        state@.counter_low == state.counter_low,
        state@.counter_high == state.counter_high,
        state@.block_len == state.block_len,
        state@.flags == state.flags,
{
}

/// A row of a table is seen with its state and its words as they stand.
pub proof fn law_output_is_seen_whole(output: Output)
    ensures
        output@.state == output.0@,
        output@.words.len() == 4 && forall|i: int| 0 <= i < 4 ==> output@.words[i] == output.1[i],
{
}

/// Under twelve words of chance, a state takes in its block as it is. The first
/// eight words are the chaining value, and the others are the two halves of the
/// counter, the block length and the flags.
pub proof fn law_state_takes_its_words(block: Seq<u32>, words: Seq<u32>)
    requires
        words.len() == 12,
    ensures
        ({
            let state = crate::blake3::input_from_words(block, words);
            &&& state.block == block
            &&& state.cv.len() == 8
            &&& forall|i: int| 0 <= i < 8 ==> #[trigger] state.cv[i] == words[i]
            &&& state.counter_low == words[8]
            &&& state.counter_high == words[9]
            &&& state.block_len == words[10]
            &&& state.flags == words[11]
        }),
{
}

/// The label on a wire for a bit: the second for one, the first for zero.
pub open spec fn label_for(wire: (Label, Label), bit: bool) -> Seq<u32> {
    if bit {
        wire.1.label@
    } else {
        wire.0.label@
    }
}

/// Whether a state takes in the labels `left` and `right`, whole, and zeros behind
/// them, with the twelve words of chance from `first` on.
pub open spec fn takes_in(
    state: CompressInput,
    left: Seq<u32>,
    right: Seq<u32>,
    words: Seq<u32>,
    first: int,
) -> bool {
    &&& state.block.len() == 16
    &&& forall|i: int| 0 <= i < 4 ==> #[trigger] state.block[i] == left[i]
    &&& forall|i: int| 4 <= i < 8 ==> #[trigger] state.block[i] == right[i - 4]
    &&& forall|i: int| 8 <= i < 16 ==> #[trigger] state.block[i] == 0
    &&& state.cv.len() == 8
    &&& forall|i: int| 0 <= i < 8 ==> #[trigger] state.cv[i] == words[first + i]
    &&& state.counter_low == words[first + 8]
    &&& state.counter_high == words[first + 9]
    &&& state.block_len == words[first + 10]
    &&& state.flags == words[first + 11]
}

/// Whether `masked` hides the label `out`: each word is combined by the bitwise
/// exclusive or with that word of `mask`.
pub open spec fn hides(masked: Seq<u32>, mask: Seq<u32>, out: Seq<u32>) -> bool {
    &&& masked.len() == 4
    &&& forall|i: int| 0 <= i < 4 ==> #[trigger] masked[i] == mask[i] ^ out[i]
}

/// Every row is masked by the labels of its bits, whole. For the bits `a` and
/// `b`, the block that is compressed holds the four words of the left label, then
/// the four words of the right label, then zeros; the rest of the state is twelve
/// words of chance of its own; and the row hides the output label of the
/// conjunction behind the compression.
pub proof fn law_row_hides_its_label(gate: Gate, words: Seq<u32>, a: bool, b: bool)
    requires
        words.len() == 48,
    ensures
        gate.table(words).len() == 4,
        takes_in(
            gate.table(words)[crate::laws::row_index(a, b)].state,
            label_for(gate.left, a),
            label_for(gate.right, b),
            words,
            12 * crate::laws::row_index(a, b),
        ),
        hides(
            gate.table(words)[crate::laws::row_index(a, b)].words,
            crate::blake3::compression(gate.table(words)[crate::laws::row_index(a, b)].state),
            label_for(gate.out, a && b),
        ),
{
}

/// Only the same labels, and the same words of chance, make the same state.
pub proof fn lemma_same_taken_in(
    state: CompressInput,
    other: CompressInput,
    left: Seq<u32>,
    right: Seq<u32>,
    words: Seq<u32>,
    first: int,
)
    requires
        takes_in(state, left, right, words, first),
        takes_in(other, left, right, words, first),
    ensures
        state == other,
{
    assert forall|i: int| 0 <= i < 16 implies state.block[i] == other.block[i] by {
        assert(i < 4 ==> state.block[i] == left[i]);
        assert(4 <= i < 8 ==> state.block[i] == right[i - 4]);
        assert(8 <= i ==> state.block[i] == 0);
    }
    assert forall|i: int| 0 <= i < 8 implies state.cv[i] == other.cv[i] by {
        assert(state.cv[i] == words[first + i]);
    }
    assert(state.block =~= other.block);
    assert(state.cv =~= other.cv);
}

/// Two rows are masked alike only by the same labels: where the blocks of the
/// rows for the same bits agree, so do the input labels for these bits.
pub proof fn law_masks_tell_labels_apart(
    gate: Gate,
    words: Seq<u32>,
    other: Gate,
    other_words: Seq<u32>,
    a: bool,
    b: bool,
)
    requires
        words.len() == 48,
        other_words.len() == 48,
        gate.table(words)[crate::laws::row_index(a, b)].state.block == other.table(
            other_words,
        )[crate::laws::row_index(a, b)].state.block,
    ensures
        label_for(gate.left, a) == label_for(other.left, a),
        label_for(gate.right, b) == label_for(other.right, b),
{
    let block = gate.table(words)[crate::laws::row_index(a, b)].state.block;
    let left = label_for(gate.left, a);
    let right = label_for(gate.right, b);
    let other_left = label_for(other.left, a);
    let other_right = label_for(other.right, b);
    law_row_hides_its_label(gate, words, a, b);
    law_row_hides_its_label(other, other_words, a, b);
    assert forall|i: int| 0 <= i < 4 implies left[i] == other_left[i] && right[i]
        == other_right[i] by {
        assert(block[i] == left[i]);
        assert(block[4 + i] == right[i]);
    }
    assert(left =~= other_left);
    assert(right =~= other_right);
}

/// Whoever holds the labels for the bits `a` and `b` opens their row: the
/// compression of a state that takes in both labels uncovers the output label of
/// the conjunction, word by word.
pub proof fn law_labels_open_their_row(
    gate: Gate,
    words: Seq<u32>,
    a: bool,
    b: bool,
    state: CompressInput,
    i: int,
)
    requires
        words.len() == 48,
        takes_in(
            state,
            label_for(gate.left, a),
            label_for(gate.right, b),
            words,
            12 * crate::laws::row_index(a, b),
        ),
        0 <= i < 4,
    ensures
        crate::blake3::compression(state)[i] ^ gate.table(words)[crate::laws::row_index(a, b)].words[i]
            == label_for(gate.out, a && b)[i],
{
    let row = gate.table(words)[crate::laws::row_index(a, b)];
    law_row_hides_its_label(gate, words, a, b);
    lemma_same_taken_in(
        state,
        row.state,
        label_for(gate.left, a),
        label_for(gate.right, b),
        words,
        12 * crate::laws::row_index(a, b),
    );
    let mask = crate::blake3::compression(state)[i];
    let label = label_for(gate.out, a && b)[i];
    assert(row.words[i] == mask ^ label);
    assert(mask ^ (mask ^ label) == label) by (bit_vector);
}

/// A gate takes its labels from the words in order, four for each: both of the
/// left wire, both of the right wire, and both of the output wire.
pub proof fn law_labels_take_their_words(
    gate: Gate,
    left: usize,
    right: usize,
    out: usize,
    words: Seq<u32>,
)
    requires
        words.len() == 24,
        gate.labelled(left, right, out, words),
    ensures
        gate.left.0.idx == left && gate.left.1.idx == left,
        gate.right.0.idx == right && gate.right.1.idx == right,
        gate.out.0.idx == out && gate.out.1.idx == out,
        forall|i: int|
            0 <= i < 4 ==> {
                &&& #[trigger] gate.left.0.label[i] == words[i]
                &&& gate.left.1.label[i] == words[4 + i]
                &&& gate.right.0.label[i] == words[8 + i]
                &&& gate.right.1.label[i] == words[12 + i]
                &&& gate.out.0.label[i] == words[16 + i]
                &&& gate.out.1.label[i] == words[20 + i]
            },
{
    assert forall|i: int| 0 <= i < 4 implies {
        &&& #[trigger] gate.left.0.label[i] == words[i]
        &&& gate.left.1.label[i] == words[4 + i]
        &&& gate.right.0.label[i] == words[8 + i]
        &&& gate.right.1.label[i] == words[12 + i]
        &&& gate.out.0.label[i] == words[16 + i]
        &&& gate.out.1.label[i] == words[20 + i]
    } by {
        assert(gate.left.0.label@[i] == words.subrange(0, 4)[i]);
        assert(gate.left.1.label@[i] == words.subrange(4, 8)[i]);
        assert(gate.right.0.label@[i] == words.subrange(8, 12)[i]);
        assert(gate.right.1.label@[i] == words.subrange(12, 16)[i]);
        assert(gate.out.0.label@[i] == words.subrange(16, 20)[i]);
        assert(gate.out.1.label@[i] == words.subrange(20, 24)[i]);
    }
}

} // verus!
