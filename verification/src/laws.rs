//! What holds of garbling as a whole.

use crate::blake3::Blake3CompressState;
use crate::bristol::AndWires;
use crate::builder::StepView;
use crate::builder::System;
use crate::circuit::CircuitError;
use crate::circuit::Scene;
use crate::circuit::Wire;
use crate::garble::Gate;
use crate::garble::Label;
use crate::garble::Output;
use crate::garble::Row;
use crate::garble::WitnessedGate;
use crate::garble::WitnessedLabel;
use crate::garble::WitnessedOutput;
use vstd::prelude::*;

verus! {

/// The label that `row` gives to whoever can compute its mask.
pub open spec fn opened(row: Row) -> Seq<u32> {
    crate::garble::xored(crate::blake3::compression(row.state).take(4), row.words)
}

/// The place in a garbling table of the row for the input bits `a` and `b`.
pub open spec fn row_index(a: bool, b: bool) -> int {
    (if a { 2int } else { 0int }) + (if b { 1int } else { 0int })
}

proof fn lemma_xor_twice(x: u32, y: u32)
    ensures
        x ^ (x ^ y) == y,
{
    assert(x ^ (x ^ y) == y) by (bit_vector);
}

proof fn lemma_xor_cancels(mask: u32, x: u32, y: u32)
    ensures
        (mask ^ x) ^ (mask ^ y) == x ^ y,
{
    assert((mask ^ x) ^ (mask ^ y) == x ^ y) by (bit_vector);
}

proof fn lemma_same_ids(ids: [usize; 4], other: [usize; 4], first: nat)
    requires
        crate::garble::consecutive(ids@, first),
        crate::garble::consecutive(other@, first),
    ensures
        ids == other,
{
    assert forall|i: int| 0 <= i < 4 implies ids@[i] == other@[i] by {
        assert(ids@[i] == first + i);
        assert(other@[i] == first + i);
    }
    assert(ids =~= other);
}

proof fn lemma_same_state(state: Blake3CompressState, other: Blake3CompressState)
    requires
        state@ == other@,
    ensures
        state == other,
{
    assert(state.cv =~= other.cv);
    assert(state.block =~= other.block);
}

/// A garbled AND gate computes AND: the row for the bits `a` and `b` is masked
/// by the labels of `a` and `b`, and behind the mask lies the label of their
/// conjunction.
pub proof fn law_table_is_conjunction(gate: Gate, words: Seq<u32>, a: bool, b: bool)
    requires
        words.len() == 48,
    ensures
        gate.table(words).len() == 4,
        gate.table(words)[row_index(a, b)].state.block == crate::garble::row_block(
            crate::garble::label_of(gate.left, a),
            crate::garble::label_of(gate.right, b),
        ),
        opened(gate.table(words)[row_index(a, b)]) == crate::garble::label_of(gate.out, a && b),
{
    let row = gate.table(words)[row_index(a, b)];
    let mask = crate::blake3::compression(row.state).take(4);
    let label = crate::garble::label_of(gate.out, a && b);
    assert(row.words == crate::garble::xored(mask, label));
    assert forall|i: int| 0 <= i < 4 implies opened(row)[i] == label[i] by {
        lemma_xor_twice(mask[i], label[i]);
    }
    assert(opened(row) == label);
}

/// The output labels take no part in the masks: two gates with the same input
/// labels, garbled under the same words of chance, have the same state in each
/// row, and their rows differ just as the labels differ that they hide.
pub proof fn law_masks_take_input_labels_alone(
    gate: Gate,
    other: Gate,
    words: Seq<u32>,
    a: bool,
    b: bool,
)
    requires
        words.len() == 48,
        gate.left.0.label == other.left.0.label && gate.left.1.label == other.left.1.label,
        gate.right.0.label == other.right.0.label && gate.right.1.label == other.right.1.label,
    ensures
        ({
            let row = gate.table(words)[row_index(a, b)];
            let other_row = other.table(words)[row_index(a, b)];
            &&& row.state == other_row.state
            &&& crate::garble::xored(row.words, other_row.words) == crate::garble::xored(
                crate::garble::label_of(gate.out, a && b),
                crate::garble::label_of(other.out, a && b),
            )
        }),
{
    let row = gate.table(words)[row_index(a, b)];
    let other_row = other.table(words)[row_index(a, b)];
    let mask = crate::blake3::compression(row.state).take(4);
    let label = crate::garble::label_of(gate.out, a && b);
    let other_label = crate::garble::label_of(other.out, a && b);
    assert(row.words == crate::garble::xored(mask, label));
    assert(other_row.words == crate::garble::xored(mask, other_label));
    assert forall|i: int| 0 <= i < 4 implies row.words[i] ^ other_row.words[i] == label[i]
        ^ other_label[i] by {
        lemma_xor_cancels(mask[i], label[i], other_label[i]);
    }
    assert(crate::garble::xored(row.words, other_row.words) == crate::garble::xored(
        label,
        other_label,
    ));
}

/// The words that are drawn settle the record: two generators with the same
/// record which yield as many words, and the same ones, have the same record
/// afterwards. Labelling a gate draws 24 words, garbling it draws 48, and so does
/// witnessing it, whatever its labels and its wires.
pub proof fn law_same_words_same_record(
    before: Seq<u32>,
    after: Seq<u32>,
    other_after: Seq<u32>,
    n: nat,
)
    requires
        crate::rng::drew(before, after, n),
        crate::rng::drew(before, other_after, n),
        crate::rng::since(before, after) == crate::rng::since(before, other_after),
    ensures
        after == other_after,
{
    assert(after == after.take(before.len() as int) + crate::rng::since(before, after));
    assert(other_after == other_after.take(before.len() as int) + crate::rng::since(
        before,
        other_after,
    ));
}

/// The indices take no part in the drawing of labels: the same words make up the
/// same labels, whatever the wires.
pub proof fn law_indices_take_no_part(
    gate: Gate,
    left: usize,
    right: usize,
    out: usize,
    other: Gate,
    other_left: usize,
    other_right: usize,
    other_out: usize,
    words: Seq<u32>,
)
    requires
        gate.labelled(left, right, out, words),
        other.labelled(other_left, other_right, other_out, words),
    ensures
        gate.left.0.label == other.left.0.label,
        gate.left.1.label == other.left.1.label,
        gate.right.0.label == other.right.0.label,
        gate.right.1.label == other.right.1.label,
        gate.out.0.label == other.out.0.label,
        gate.out.1.label == other.out.1.label,
{
    assert(gate.left.0.label =~= other.left.0.label);
    assert(gate.left.1.label =~= other.left.1.label);
    assert(gate.right.0.label =~= other.right.0.label);
    assert(gate.right.1.label =~= other.right.1.label);
    assert(gate.out.0.label =~= other.out.0.label);
    assert(gate.out.1.label =~= other.out.1.label);
}

/// Labelling a gate is drawing six labels in turn, two for the left wire, two for
/// the right wire and two for the output wire. `records` holds the record before
/// the first label and after each; the words that it gains over all six are
/// `words`.
pub proof fn law_labels_are_drawn_in_turn(
    gate: Gate,
    left: usize,
    right: usize,
    out: usize,
    words: Seq<u32>,
    labels: Seq<Label>,
    records: Seq<Seq<u32>>,
)
    requires
        gate.labelled(left, right, out, words),
        labels.len() == 6,
        records.len() == 7,
        labels[0].idx == left && labels[1].idx == left,
        labels[2].idx == right && labels[3].idx == right,
        labels[4].idx == out && labels[5].idx == out,
        forall|i: int|
            #![trigger labels[i]]
            0 <= i < 6 ==> records[i + 1] == records[i] + labels[i].label@,
        records[6] == records[0] + words,
    ensures
        crate::rng::drew(records[0], records[6], 24),
        crate::rng::since(records[0], records[6]) == words,
        gate == (Gate {
            left: (labels[0], labels[1]),
            right: (labels[2], labels[3]),
            out: (labels[4], labels[5]),
        }),
{
    let drawn = labels[0].label@ + labels[1].label@ + labels[2].label@ + labels[3].label@
        + labels[4].label@ + labels[5].label@;
    assert(records[6] == records[0] + drawn) by {
        assert(records[1] == records[0] + labels[0].label@);
        assert(records[2] == records[1] + labels[1].label@);
        assert(records[3] == records[2] + labels[2].label@);
        assert(records[4] == records[3] + labels[3].label@);
        assert(records[5] == records[4] + labels[4].label@);
        assert(records[6] == records[5] + labels[5].label@);
    }
    assert(records[6].take(records[0].len() as int) == records[0]);
    assert(crate::rng::since(records[0], records[6]) == drawn);
    assert(crate::rng::since(records[0], records[6]) == words);
    assert(gate.left.0.label =~= labels[0].label);
    assert(gate.left.1.label =~= labels[1].label);
    assert(gate.right.0.label =~= labels[2].label);
    assert(gate.right.1.label =~= labels[3].label);
    assert(gate.out.0.label =~= labels[4].label);
    assert(gate.out.1.label =~= labels[5].label);
}

/// Witnessing a gate is the same as doing its steps by hand: committing both
/// labels of the output wire, garbling under the same words of chance, and
/// committing the four rows of the table in order.
pub proof fn law_witness_is_done_by_hand(
    s: System,
    gate: Gate,
    words: Seq<u32>,
    witnessed: WitnessedGate,
    out: (WitnessedLabel, WitnessedLabel),
    table: [Output; 4],
    output: [WitnessedOutput; 4],
)
    requires
        words.len() == 48,
        gate.witnessed_as(s, words, witnessed),
        table@.map_values(|o: Output| o@) == gate.table(words),
        ({
            let s1 = crate::garble::committed(s, gate.out.0.label@);
            let s2 = crate::garble::committed(s1, gate.out.1.label@);
            let s3 = crate::garble::committed(s2, table@[0]@.words);
            let s4 = crate::garble::committed(s3, table@[1]@.words);
            let s5 = crate::garble::committed(s4, table@[2]@.words);
            &&& gate.out.0.witnessed_as(s, out.0)
            &&& gate.out.1.witnessed_as(s1, out.1)
            &&& table@[0].witnessed_as(s2, output@[0])
            &&& table@[1].witnessed_as(s3, output@[1])
            &&& table@[2].witnessed_as(s4, output@[2])
            &&& table@[3].witnessed_as(s5, output@[3])
        }),
    ensures
        witnessed == (WitnessedGate { out, output }),
        ({
            let s1 = crate::garble::committed(s, gate.out.0.label@);
            let s2 = crate::garble::committed(s1, gate.out.1.label@);
            let s3 = crate::garble::committed(s2, table@[0]@.words);
            let s4 = crate::garble::committed(s3, table@[1]@.words);
            let s5 = crate::garble::committed(s4, table@[2]@.words);
            gate.committed_on(s, words) == crate::garble::committed(s5, table@[3]@.words)
        }),
{
    let rows = gate.table(words);
    let s1 = crate::garble::committed(s, gate.out.0.label@);
    let s2 = crate::garble::committed(s1, gate.out.1.label@);
    let s3 = crate::garble::committed(s2, table@[0]@.words);
    let s4 = crate::garble::committed(s3, table@[1]@.words);
    let s5 = crate::garble::committed(s4, table@[2]@.words);
    crate::garble::lemma_committed(s, gate.out.0.label@);
    crate::garble::lemma_committed(s1, gate.out.1.label@);
    crate::garble::lemma_committed(s2, table@[0]@.words);
    crate::garble::lemma_committed(s3, table@[1]@.words);
    crate::garble::lemma_committed(s4, table@[2]@.words);
    assert forall|r: int| 0 <= r < 4 implies #[trigger] table@[r]@ == rows[r] by {
        assert(table@.map_values(|o: Output| o@)[r] == rows[r]);
    }
    lemma_same_ids(witnessed.out.0.label, out.0.label, s.values.len());
    lemma_same_ids(witnessed.out.1.label, out.1.label, s.values.len() + 4);
    assert forall|r: int| 0 <= r < 4 implies #[trigger] witnessed.output@[r] == output@[r] by {
        lemma_same_ids(
            witnessed.output@[r].1,
            output@[r].1,
            (s.values.len() + 8 + 4 * r) as nat,
        );
        lemma_same_state(witnessed.output@[r].0, output@[r].0);
    }
    assert(witnessed.output =~= output);
    crate::garble::lemma_four_rows(s2, rows);
}

/// What the witness satisfies, it still satisfies when oracles and steps are
/// added behind.
pub proof fn law_extension_keeps_steps(s: System, t: System, step: StepView)
    requires
        t.extends(s),
        s.step_holds(step),
    ensures
        t.step_holds(step),
{
    match step {
        StepView::Fixed { name, oracle } => {},
        StepView::Compress { state, output } => {
            assert(t.values.subrange(output, output + 16) == s.values.subrange(output, output + 16));
        },
        StepView::AssertZero { name, oracles, expr } => {
            assert(oracles.map_values(|o: usize| t.values[o as int]) == oracles.map_values(
                |o: usize| s.values[o as int],
            ));
        },
    }
}

/// Committing oracles keeps a satisfied system satisfied.
pub proof fn law_committing_keeps_satisfied(s: System, t: System)
    requires
        s.satisfied(),
        crate::garble::only_commits(s, t),
    ensures
        t.satisfied(),
{
    crate::builder::lemma_extends_agrees(s, t);
    assert forall|i: int| 0 <= i < t.steps.len() implies t.step_holds(#[trigger] t.steps[i]) by {
        if i < s.steps.len() {
            assert(s.step_holds(s.steps[i]));
            law_extension_keeps_steps(s, t, s.steps[i]);
        }
    }
}

/// The witness of each of the oracles.
pub open spec fn witness_of(s: System, oracles: Seq<usize>) -> Seq<u32> {
    oracles.map_values(|o: usize| s.values[o as int])
}

/// The row for the input bits `a` and `b` of a witnessed gate, with the words
/// read from the witness.
pub open spec fn witnessed_row(s: System, gate: WitnessedGate, a: bool, b: bool) -> Row {
    let output = gate.output@[row_index(a, b)];
    Row { state: output.0@, words: witness_of(s, output.1@) }
}

/// The witness of the output label that stands for `bit`.
pub open spec fn witnessed_label(s: System, gate: WitnessedGate, bit: bool) -> Seq<u32> {
    if bit {
        witness_of(s, gate.out.1.label@)
    } else {
        witness_of(s, gate.out.0.label@)
    }
}

/// Whether the row for `a` and `b` of a witnessed gate opens to the label of
/// their conjunction.
pub open spec fn row_opens(s: System, gate: WitnessedGate, a: bool, b: bool) -> bool {
    opened(witnessed_row(s, gate, a, b)) == witnessed_label(s, gate, a && b)
}

/// Whether all the oracles exist.
pub open spec fn all_exist(s: System, oracles: Seq<usize>) -> bool {
    forall|i: int| 0 <= i < oracles.len() ==> #[trigger] oracles[i] < s.values.len()
}

/// Whether every oracle that a witnessed gate names exists.
pub open spec fn lives_in(s: System, gate: WitnessedGate) -> bool {
    &&& all_exist(s, gate.out.0.label@)
    &&& all_exist(s, gate.out.1.label@)
    &&& forall|r: int| 0 <= r < 4 ==> all_exist(s, #[trigger] gate.output@[r].1@)
}

proof fn lemma_word_holds(
    t: System,
    hash: Seq<usize>,
    label: Seq<usize>,
    masked: Seq<usize>,
    k: int,
)
    requires
        0 <= k < hash.len(),
        0 <= k < label.len(),
        0 <= k < masked.len(),
        hash[k] < t.values.len(),
        label[k] < t.values.len(),
        masked[k] < t.values.len(),
    ensures
        t.step_holds(crate::garble::word_step(hash, label, masked, k)) <==> t.values[hash[k] as int]
            ^ t.values[masked[k] as int] == t.values[label[k] as int],
{
    let oracles = seq![hash[k], label[k], masked[k]];
    let inputs = oracles.map_values(|o: usize| t.values[o as int]);
    let expr = crate::garble::sum_expr();
    let h = t.values[hash[k] as int];
    let l = t.values[label[k] as int];
    let m = t.values[masked[k] as int];
    reveal_with_fuel(crate::builder::ArithExpr::within, 3);
    reveal_with_fuel(crate::builder::ArithExpr::eval, 3);
    assert(expr.within(oracles.len()));
    assert(expr.eval(inputs) == (inputs[0] ^ inputs[1]) ^ inputs[2]);
    assert(expr.eval(inputs) == (h ^ l) ^ m);
    assert((h ^ l) ^ m == 0u32 <==> h ^ m == l) by (bit_vector);
}

/// The constraints on the words of a row hold just when the row opens to the
/// label that it hides.
proof fn lemma_row_opens(s: System, t: System, gate: WitnessedGate, a: bool, b: bool)
    requires
        t.extends(s),
        lives_in(s, gate),
        s.values.len() + 16 * row_index(a, b) + 16 <= t.values.len() <= usize::MAX,
        crate::garble::holds_row(s, t, gate, row_index(a, b)),
    ensures
        row_opens(s, gate, a, b) <==> forall|k: int|
            0 <= k < 4 ==> t.step_holds(
                #[trigger] crate::garble::word_step(
                    crate::garble::hash_ids(s, row_index(a, b)),
                    gate.hidden_label(row_index(a, b)),
                    gate.output@[row_index(a, b)].1@,
                    k,
                ),
            ),
{
    let r = row_index(a, b);
    let first = s.values.len() + 16 * r;
    let hash = crate::garble::hash_ids(s, r);
    let label = gate.hidden_label(r);
    let masked = gate.output@[r].1@;
    let left = opened(witnessed_row(s, gate, a, b));
    let right = witnessed_label(s, gate, a && b);
    assert(all_exist(s, masked));
    assert(all_exist(s, label));
    crate::builder::lemma_extends_agrees(s, t);
    assert forall|k: int| 0 <= k < 4 implies (t.step_holds(
        #[trigger] crate::garble::word_step(hash, label, masked, k),
    ) <==> left[k] == right[k]) by {
        lemma_word_holds(t, hash, label, masked, k);
        assert(t.values.subrange(first, first + 16)[k] == t.values[first + k]);
    }
    if forall|k: int|
        0 <= k < 4 ==> t.step_holds(
            #[trigger] crate::garble::word_step(hash, label, masked, k),
        ) {
        assert forall|k: int| 0 <= k < 4 implies left[k] == right[k] by {
            assert(t.step_holds(crate::garble::word_step(hash, label, masked, k)));
        }
        assert(left == right);
    }
}

/// Whether each of the first `n` rows of a witnessed gate opens to the label of
/// the conjunction of its bits.
pub open spec fn rows_open(s: System, gate: WitnessedGate, n: nat) -> bool {
    forall|a: bool, b: bool| row_index(a, b) < n ==> #[trigger] row_opens(s, gate, a, b)
}

/// The constraints that garbling a gate in-circuit adds say that the table
/// computes AND. Where the witness satisfies the constraints on the first `n`
/// rows, each of those opens to the label of the conjunction of its bits; and
/// where each does, adding the constraints keeps a satisfied system satisfied.
pub proof fn law_circuit_is_conjunction(s: System, gate: WitnessedGate, n: nat)
    requires
        n <= 4,
        s.has_room(16 * n),
        lives_in(s, gate),
    ensures
        gate.rows_constrained(s, n).extends(s),
        gate.rows_constrained(s, n).satisfied() ==> rows_open(s, gate, n),
        s.satisfied() && rows_open(s, gate, n) ==> gate.rows_constrained(s, n).satisfied(),
{
    let t = gate.rows_constrained(s, n);
    crate::garble::lemma_rows_constrained(gate, s, n);
    if t.satisfied() {
        assert forall|a: bool, b: bool| row_index(a, b) < n implies #[trigger] row_opens(
            s,
            gate,
            a,
            b,
        ) by {
            let r = row_index(a, b);
            let base = s.steps.len() + 5 * r;
            assert(crate::garble::holds_row(s, t, gate, r));
            lemma_row_opens(s, t, gate, a, b);
            assert forall|k: int| 0 <= k < 4 implies t.step_holds(
                #[trigger] crate::garble::word_step(
                    crate::garble::hash_ids(s, r),
                    gate.hidden_label(r),
                    gate.output@[r].1@,
                    k,
                ),
            ) by {
                assert(t.step_holds(t.steps[base + 1 + k]));
            }
        }
    }
    if s.satisfied() && rows_open(s, gate, n) {
        crate::builder::lemma_extends_agrees(s, t);
        assert forall|i: int| 0 <= i < t.steps.len() implies t.step_holds(
            #[trigger] t.steps[i],
        ) by {
            if i < s.steps.len() {
                assert(s.step_holds(s.steps[i]));
                law_extension_keeps_steps(s, t, s.steps[i]);
            } else {
                let r = (i - s.steps.len()) / 5;
                let k = (i - s.steps.len()) % 5 - 1;
                let a = r >= 2;
                let b = r == 1 || r == 3;
                assert(r == row_index(a, b));
                assert(crate::garble::holds_row(s, t, gate, r));
                assert(row_opens(s, gate, a, b));
                lemma_row_opens(s, t, gate, a, b);
                if k >= 0 {
                    assert(t.step_holds(
                        crate::garble::word_step(
                            crate::garble::hash_ids(s, r),
                            gate.hidden_label(r),
                            gate.output@[r].1@,
                            k,
                        ),
                    ));
                    assert(t.steps[s.steps.len() + 5 * r + 1 + k] == t.steps[i]);
                }
            }
        }
    }
}

/// Whether `witnessed` is `gate` under the garbling table `table`, with the
/// output labels and the table read from the witness.
pub open spec fn witnesses(
    s: System,
    witnessed: WitnessedGate,
    gate: Gate,
    table: Seq<Row>,
) -> bool {
    &&& lives_in(s, witnessed)
    &&& witness_of(s, witnessed.out.0.label@) == gate.out.0.label@
    &&& witness_of(s, witnessed.out.1.label@) == gate.out.1.label@
    &&& forall|r: int|
        #![trigger witnessed.output@[r]]
        0 <= r < 4 ==> {
            &&& witnessed.output@[r].0@ == table[r].state
            &&& witness_of(s, witnessed.output@[r].1@) == table[r].words
        }
}

/// A gate that was garbled natively passes in-circuit: constraining the first
/// `n` rows of its table keeps a satisfied system satisfied.
pub proof fn law_garbled_gate_passes(
    s: System,
    witnessed: WitnessedGate,
    gate: Gate,
    words: Seq<u32>,
    n: nat,
)
    requires
        n <= 4,
        s.has_room(16 * n),
        words.len() == 48,
        s.satisfied(),
        witnesses(s, witnessed, gate, gate.table(words)),
    ensures
        witnessed.rows_constrained(s, n).satisfied(),
{
    assert forall|a: bool, b: bool| row_index(a, b) < n implies #[trigger] row_opens(
        s,
        witnessed,
        a,
        b,
    ) by {
        law_table_is_conjunction(gate, words, a, b);
        assert(witnessed.output@[row_index(a, b)].0@ == gate.table(words)[row_index(a, b)].state);
        assert(witnessed_row(s, witnessed, a, b) == gate.table(words)[row_index(a, b)]);
    }
    law_circuit_is_conjunction(s, witnessed, n);
}

proof fn lemma_consecutive_witness(s: System, oracles: Seq<usize>, first: nat, words: Seq<u32>)
    requires
        crate::garble::consecutive(oracles, first),
        oracles.len() == words.len(),
        first + words.len() <= s.values.len(),
        s.values.subrange(first as int, (first + words.len()) as int) == words,
    ensures
        all_exist(s, oracles),
        witness_of(s, oracles) == words,
{
    assert forall|i: int| 0 <= i < oracles.len() implies witness_of(s, oracles)[i] == words[i] by {
        assert(oracles[i] == first + i);
        assert(s.values.subrange(first as int, (first + words.len()) as int)[i] == s.values[first + i]);
    }
}

/// The table that a witnessed gate holds can be read from the witness.
proof fn lemma_table_reads(s: System, witnessed: WitnessedGate, table: Seq<Row>)
    requires
        table.len() == 4,
        forall|r: int| 0 <= r < 4 ==> (#[trigger] table[r]).words.len() == 4,
        crate::garble::holds_table(witnessed.output@, table, s.values.len()),
    ensures
        ({
            let t = crate::garble::committed_table(s, table);
            forall|r: int|
                #![trigger witnessed.output@[r]]
                0 <= r < 4 ==> {
                    &&& witnessed.output@[r].0@ == table[r].state
                    &&& witness_of(t, witnessed.output@[r].1@) == table[r].words
                    &&& all_exist(t, witnessed.output@[r].1@)
                }
        }),
{
    let t = crate::garble::committed_table(s, table);
    crate::garble::lemma_committed_table(s, table);
    assert forall|r: int|
        #![trigger witnessed.output@[r]]
        0 <= r < 4 implies witnessed.output@[r].0@ == table[r].state && witness_of(
        t,
        witnessed.output@[r].1@,
    ) == table[r].words && all_exist(t, witnessed.output@[r].1@) by {
        assert(table[r].words.len() == 4);
        lemma_consecutive_witness(
            t,
            witnessed.output@[r].1@,
            (s.values.len() + 4 * r) as nat,
            table[r].words,
        );
    }
}

/// What committing a gate and its table leaves behind is that gate and that
/// table, read from the witness; and it keeps a satisfied system satisfied.
pub proof fn law_witness_reads_back(
    s: System,
    witnessed: WitnessedGate,
    gate: Gate,
    words: Seq<u32>,
)
    requires
        words.len() == 48,
        gate.witnessed_as(s, words, witnessed),
    ensures
        ({
            let t = gate.committed_on(s, words);
            &&& t.extends(s)
            &&& t.values.len() == s.values.len() + 24
            &&& witnesses(t, witnessed, gate, gate.table(words))
            &&& s.satisfied() ==> t.satisfied()
        }),
{
    let s1 = crate::garble::committed(s, gate.out.0.label@);
    let s2 = crate::garble::committed(s1, gate.out.1.label@);
    let table = gate.table(words);
    let t = crate::garble::committed_table(s2, table);
    let n = s.values.len();
    crate::garble::lemma_committed(s, gate.out.0.label@);
    crate::garble::lemma_committed(s1, gate.out.1.label@);
    crate::garble::lemma_committed_table(s2, table);
    crate::builder::lemma_extends_trans(s, s1, s2);
    crate::builder::lemma_extends_trans(s, s2, t);
    crate::builder::lemma_extends_agrees(s2, t);
    if s.satisfied() {
        law_committing_keeps_satisfied(s, s1);
        law_committing_keeps_satisfied(s1, s2);
        law_committing_keeps_satisfied(s2, t);
    }
    assert(t.values.subrange(n as int, (n + 4) as int) == gate.out.0.label@);
    assert(t.values.subrange((n + 4) as int, (n + 8) as int) == gate.out.1.label@);
    lemma_consecutive_witness(t, witnessed.out.0.label@, n, gate.out.0.label@);
    lemma_consecutive_witness(t, witnessed.out.1.label@, n + 4, gate.out.1.label@);
    lemma_table_reads(s2, witnessed, table);
}

/// Whether `wire` is wire `idx` with its labels in the witness.
pub open spec fn wire_reads(s: System, idx: usize, wire: Wire) -> bool {
    &&& wire.labels.0.idx == idx && wire.labels.1.idx == idx
    &&& wire.witnessed.0._idx == idx && wire.witnessed.1._idx == idx
    &&& all_exist(s, wire.witnessed.0.label@)
    &&& all_exist(s, wire.witnessed.1.label@)
    &&& witness_of(s, wire.witnessed.0.label@) == wire.labels.0.label@
    &&& witness_of(s, wire.witnessed.1.label@) == wire.labels.1.label@
}

/// Whether the witness satisfies the system and holds the labels of every wire.
pub open spec fn is_sound(scene: Scene) -> bool {
    &&& scene.system.satisfied()
    &&& forall|idx: usize| #[trigger]
        scene.wires.contains_key(idx) ==> wire_reads(scene.system, idx, scene.wires[idx])
}

proof fn lemma_wire_reads_on(s: System, t: System, idx: usize, wire: Wire)
    requires
        t.extends(s),
        wire_reads(s, idx, wire),
    ensures
        wire_reads(t, idx, wire),
{
    crate::builder::lemma_extends_agrees(s, t);
    assert(witness_of(t, wire.witnessed.0.label@) == witness_of(s, wire.witnessed.0.label@));
    assert(witness_of(t, wire.witnessed.1.label@) == witness_of(s, wire.witnessed.1.label@));
}

/// A circuit starts out sound.
pub proof fn law_start_is_sound(limit: usize)
    ensures
        is_sound(
            Scene {
                wires: Map::<usize, Wire>::empty(),
                system: System::empty(limit),
                drawn: Seq::<u32>::empty(),
            },
        ),
{
}

/// A wire keeps its labels: asking for it again finds the same ones and changes
/// nothing.
pub proof fn law_wire_is_found_again(scene: Scene, idx: usize, wire: Wire, again: Wire)
    requires
        scene.may_be(idx, wire),
        scene.with_wire(idx, wire).may_be(idx, again),
    ensures
        again == wire,
        scene.with_wire(idx, wire).with_wire(idx, again) == scene.with_wire(idx, wire),
{
}

/// Giving a wire labels keeps a circuit sound.
pub proof fn law_wire_keeps_sound(scene: Scene, idx: usize, wire: Wire)
    requires
        is_sound(scene),
        scene.may_be(idx, wire),
    ensures
        is_sound(scene.with_wire(idx, wire)),
        scene.with_wire(idx, wire).system.extends(scene.system),
        scene.with_wire(idx, wire).wires.contains_key(idx),
        scene.with_wire(idx, wire).wires[idx] == wire,
{
    if !scene.wires.contains_key(idx) {
        let s = scene.system;
        let n = s.values.len();
        let s1 = crate::garble::committed(s, wire.labels.0.label@);
        let s2 = crate::garble::committed(s1, wire.labels.1.label@);
        crate::garble::lemma_committed(s, wire.labels.0.label@);
        crate::garble::lemma_committed(s1, wire.labels.1.label@);
        law_committing_keeps_satisfied(s, s1);
        law_committing_keeps_satisfied(s1, s2);
        crate::builder::lemma_extends_trans(s, s1, s2);
        assert(s2.values.subrange(n as int, (n + 4) as int) == wire.labels.0.label@);
        assert(s2.values.subrange((n + 4) as int, (n + 8) as int) == wire.labels.1.label@);
        lemma_consecutive_witness(s2, wire.witnessed.0.label@, n, wire.labels.0.label@);
        lemma_consecutive_witness(s2, wire.witnessed.1.label@, n + 4, wire.labels.1.label@);
        let after = scene.with_wire(idx, wire);
        assert forall|i: usize| #[trigger] after.wires.contains_key(i) implies wire_reads(
            after.system,
            i,
            after.wires[i],
        ) by {
            if i != idx {
                assert(scene.wires.contains_key(i));
                lemma_wire_reads_on(s, s2, i, scene.wires[i]);
            }
        }
    } else {
        assert(scene.system.extends(scene.system));
    }
}

/// Giving wires labels, one after the other, keeps a circuit sound, what stood in
/// the system stays where it was, and every wire keeps its labels.
pub proof fn law_wires_keep_sound(scene: Scene, idxs: Seq<usize>, named: Map<usize, Wire>)
    requires
        is_sound(scene),
        scene.may_be_wired(idxs, named),
    ensures
        is_sound(scene.wired(idxs, named)),
        scene.wired(idxs, named).system.extends(scene.system),
        scene.wires.submap_of(scene.wired(idxs, named).wires),
        forall|i: int|
            0 <= i < idxs.len() ==> scene.wired(idxs, named).wires.contains_key(#[trigger] idxs[i]),
    decreases idxs.len(),
{
    if idxs.len() == 0 {
        assert(scene.system.extends(scene.system));
    } else {
        let mid = scene.wired(idxs.drop_last(), named);
        let after = scene.wired(idxs, named);
        law_wires_keep_sound(scene, idxs.drop_last(), named);
        law_wire_keeps_sound(mid, idxs.last(), named[idxs.last()]);
        crate::builder::lemma_extends_trans(scene.system, mid.system, after.system);
        assert forall|i: int| 0 <= i < idxs.len() implies after.wires.contains_key(
            #[trigger] idxs[i],
        ) by {
            if i < idxs.len() - 1 {
                assert(idxs.drop_last()[i] == idxs[i]);
            }
        }
    }
}

/// Garbling a gate keeps a circuit sound, and what stood in the system stays where
/// it was, also where the oracles run out before the last row.
pub proof fn law_gate_keeps_sound(before: Scene, wires: AndWires, after: Scene)
    requires
        is_sound(before),
        before.wires.contains_key(wires.out),
        before.garbles_to(wires, after),
    ensures
        is_sound(after),
        after.system.extends(before.system),
{
    let words = crate::rng::since(before.drawn, after.drawn);
    let gate = before.gate(wires);
    let table = gate.table(words);
    let witnessed = choose|witnessed: WitnessedGate| #[trigger]
        before.constrains_to(wires, table, witnessed, after.system);
    let t = crate::garble::committed_table(before.system, table);
    let n = crate::garble::rows_that_fit(t);
    crate::garble::lemma_committed_table(before.system, table);
    law_committing_keeps_satisfied(before.system, t);
    lemma_wire_reads_on(before.system, t, wires.out, before.wires[wires.out]);
    lemma_table_reads(before.system, witnessed, table);
    law_garbled_gate_passes(t, witnessed, gate, words, n);
    law_circuit_is_conjunction(t, witnessed, n);
    crate::builder::lemma_extends_trans(before.system, t, after.system);
    assert forall|i: usize| #[trigger] after.wires.contains_key(i) implies wire_reads(
        after.system,
        i,
        after.wires[i],
    ) by {
        assert(before.wires.contains_key(i));
        lemma_wire_reads_on(before.system, after.system, i, before.wires[i]);
    }
}

/// A line of a circuit file, refused or not, keeps a circuit sound. What stood in
/// the system stays where it was, and every wire keeps its labels.
pub proof fn law_line_keeps_sound(
    before: Scene,
    line: Seq<char>,
    after: Scene,
    refused: Option<CircuitError>,
)
    requires
        is_sound(before),
        before.leads_to(line, after, refused),
    ensures
        is_sound(after),
        after.system.extends(before.system),
        before.wires.submap_of(after.wires),
{
    let words = crate::bristol::words(line);
    let idxs = crate::bristol::wires_read(words);
    let ready = before.wired(idxs, after.wires);
    law_wires_keep_sound(before, idxs, after.wires);
    if let Ok(Some(wires)) = crate::bristol::and_wires(words) {
        assert(idxs[2] == wires.out);
        law_gate_keeps_sound(ready, wires, after);
        crate::builder::lemma_extends_trans(before.system, ready.system, after.system);
    }
}

/// Garbling the lines of a circuit file keeps a circuit sound, what stood in the
/// system stays where it was, and every wire keeps its labels. So the witness of
/// a circuit that was garbled from the start satisfies every constraint.
pub proof fn law_circuit_keeps_sound(before: Scene, lines: Seq<Seq<char>>, after: Scene)
    requires
        is_sound(before),
        before.leads_through(lines, after),
    ensures
        is_sound(after),
        after.system.extends(before.system),
        before.wires.submap_of(after.wires),
    decreases lines.len(),
{
    if lines.len() == 0 {
        assert(before.system.extends(before.system));
    } else {
        let mid = choose|mid: Scene|
            before.leads_through(lines.drop_last(), mid) && #[trigger] mid.leads_to(
                lines.last(),
                after,
                None,
            );
        law_circuit_keeps_sound(before, lines.drop_last(), mid);
        law_line_keeps_sound(mid, lines.last(), after, None);
        crate::builder::lemma_extends_trans(before.system, mid.system, after.system);
        vstd::map_lib::lemma_submap_of_trans(before.wires, mid.wires, after.wires);
    }
}

/// Garbling that stops at a refused line keeps a circuit sound, with all that the
/// lines before it and the line itself left behind.
pub proof fn law_refused_circuit_keeps_sound(
    before: Scene,
    lines: Seq<Seq<char>>,
    mid: Scene,
    line: Seq<char>,
    after: Scene,
    e: CircuitError,
)
    requires
        is_sound(before),
        before.leads_through(lines, mid),
        mid.leads_to(line, after, Some(e)),
    ensures
        is_sound(after),
        after.system.extends(before.system),
        before.wires.submap_of(after.wires),
{
    law_circuit_keeps_sound(before, lines, mid);
    law_line_keeps_sound(mid, line, after, Some(e));
    crate::builder::lemma_extends_trans(before.system, mid.system, after.system);
    vstd::map_lib::lemma_submap_of_trans(before.wires, mid.wires, after.wires);
}

proof fn lemma_wires_bounded(known: Set<usize>, idxs: Seq<usize>)
    ensures
        crate::circuit::oracles_for_wires(known, idxs) <= 8 * idxs.len(),
    decreases idxs.len(),
{
    if idxs.len() > 0 {
        lemma_wires_bounded(known, idxs.drop_last());
    }
}

proof fn lemma_lines_bounded(known: Set<usize>, lines: Seq<Seq<char>>)
    ensures
        crate::circuit::oracles_for_lines(known, lines) <= 104 * lines.len(),
    decreases lines.len(),
{
    if lines.len() > 0 {
        lemma_lines_bounded(known, lines.drop_last());
        lemma_wires_bounded(
            crate::circuit::wires_after(known, lines.drop_last()),
            crate::bristol::wires_read(crate::bristol::words(lines.last())),
        );
    }
}

/// With room for 104 oracles for each line, every line can be committed, and none
/// is refused that can be read.
pub proof fn law_lines_fit(scene: Scene, lines: Seq<Seq<char>>)
    requires
        scene.system.has_room(104 * lines.len()),
    ensures
        scene.can_commit(lines),
        crate::circuit::all_readable(lines) ==> scene.accepts(lines),
{
    let known = scene.wires.dom();
    lemma_lines_bounded(known, lines);
    assert forall|k: int| 0 <= k < lines.len() implies scene.system.has_room(
        crate::circuit::oracles_for_lines(known, lines.take(k))
            + crate::circuit::oracles_committed(
            crate::circuit::wires_after(known, lines.take(k)),
            #[trigger] lines[k],
        ),
    ) by {
        lemma_lines_bounded(known, lines.take(k));
        lemma_wires_bounded(
            crate::circuit::wires_after(known, lines.take(k)),
            crate::bristol::wires_read(crate::bristol::words(lines[k])),
        );
    }
}

} // verus!
