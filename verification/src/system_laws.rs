//! What holds of the constraint system, step by step.

use crate::blake3::CompressInput;
use crate::builder::ArithExpr;
use crate::builder::Step;
use crate::builder::StepView;
use crate::builder::System;
use crate::garble::Gate;
use crate::garble::Label;
use crate::garble::Output;
use crate::garble::WitnessedGate;
use crate::garble::WitnessedLabel;
use crate::garble::WitnessedOutput;
use vstd::prelude::*;

verus! {

/// Whether all that stands in `s` stands in `t`, at the same place.
pub open spec fn kept(s: System, t: System) -> bool {
    &&& t.limit == s.limit
    &&& s.values.len() <= t.values.len()
    &&& s.steps.len() <= t.steps.len()
    &&& forall|i: int| 0 <= i < s.values.len() ==> #[trigger] t.values[i] == s.values[i]
    &&& forall|i: int| 0 <= i < s.steps.len() ==> #[trigger] t.steps[i] == s.steps[i]
}

/// Whether `t` holds, behind all that stands in `s`, an unnamed committed oracle
/// for each of `words`, in order, and nothing else.
pub open spec fn commits(s: System, words: Seq<u32>, t: System) -> bool {
    &&& kept(s, t)
    &&& t.values.len() == s.values.len() + words.len()
    &&& t.steps.len() == s.steps.len() + words.len()
    &&& forall|k: int| 0 <= k < words.len() ==> t.values[s.values.len() + k] == #[trigger] words[k]
    &&& forall|k: int|
        0 <= k < words.len() ==> #[trigger] t.steps[s.steps.len() + k] == (StepView::Fixed {
            name: Seq::empty(),
            oracle: s.values.len() + k,
        })
}

/// Committing words puts an unnamed oracle for each behind the system, with that
/// word as its witness.
pub proof fn law_words_are_committed(s: System, words: Seq<u32>)
    ensures
        commits(s, words, crate::garble::committed(s, words)),
    decreases words.len(),
{
    reveal_strlit("");
    assert(""@ =~= Seq::<char>::empty());
    if words.len() > 0 {
        let init = words.drop_last();
        let mid = crate::garble::committed(s, init);
        let t = crate::garble::committed(s, words);
        law_words_are_committed(s, init);
        assert forall|i: int| 0 <= i < s.values.len() implies #[trigger] t.values[i]
            == s.values[i] by {
            assert(mid.values[i] == s.values[i]);
        }
        assert forall|i: int| 0 <= i < s.steps.len() implies #[trigger] t.steps[i]
            == s.steps[i] by {
            assert(mid.steps[i] == s.steps[i]);
        }
        assert forall|k: int| 0 <= k < words.len() implies t.values[s.values.len() + k]
            == #[trigger] words[k] by {
            if k < init.len() {
                assert(init[k] == words[k]);
            }
        }
        assert forall|k: int| 0 <= k < words.len() implies #[trigger] t.steps[s.steps.len() + k]
            == (StepView::Fixed { name: Seq::empty(), oracle: s.values.len() + k }) by {
            if k < init.len() {
                assert(mid.steps[s.steps.len() + k] == t.steps[s.steps.len() + k]);
            }
        }
    }
}

/// A committed oracle has its name, its place and its witness.
pub proof fn law_oracle_is_committed(s: System, name: Seq<char>, value: u32)
    ensures
        ({
            let t = s.fixed(name, value);
            &&& kept(s, t)
            &&& t.values.len() == s.values.len() + 1
            &&& t.values.last() == value
            &&& t.steps.len() == s.steps.len() + 1
            &&& t.steps.last() == (StepView::Fixed { name, oracle: s.values.len() as int })
        }),
{
}

/// A compression adds its sixteen words, in order, and a step that names its state
/// and the first of them.
pub proof fn law_compression_is_added(s: System, state: CompressInput)
    requires
        s.values.len() + 16 <= usize::MAX,
    ensures
        ({
            let t = s.compressed(state);
            let words = crate::blake3::compression(state);
            &&& kept(s, t)
            &&& t.values.len() == s.values.len() + 16
            &&& forall|k: int|
                0 <= k < 16 ==> t.values[s.values.len() + k] == #[trigger] words[k]
            &&& t.steps.len() == s.steps.len() + 1
            &&& t.steps.last() == (StepView::Compress { state, output: s.values.len() as int })
            &&& s.next_ids(16).len() == 16
            &&& forall|k: int| 0 <= k < 16 ==> #[trigger] s.next_ids(16)[k] == s.values.len() + k
        }),
{
}

/// A constraint adds one step that says what it was asked to, and no oracle.
pub proof fn law_constraint_is_added(
    s: System,
    name: Seq<char>,
    oracles: Seq<usize>,
    expr: ArithExpr,
)
    ensures
        ({
            let t = s.asserted_zero(name, oracles, expr);
            &&& kept(s, t)
            &&& t.values.len() == s.values.len()
            &&& t.steps.len() == s.steps.len() + 1
            &&& t.steps.last() == (StepView::AssertZero { name, oracles, expr })
        }),
{
}

/// A step is seen with every field as it stands.
pub proof fn law_step_is_seen_whole(step: Step)
    ensures
        match step {
            Step::Fixed { name, oracle } => step@ == (StepView::Fixed {
                name: name@,
                oracle: oracle as int,
            }),
            Step::Compress { state, output } => step@ == (StepView::Compress {
                state: state@,
                output: output as int,
            }),
            Step::AssertZero { name, oracles, expr } => step@ == (StepView::AssertZero {
                name: name@,
                oracles: oracles@,
                expr,
            }),
        },
{
}

/// A new system holds nothing, and has the limit that it was made with.
pub proof fn law_new_system_is_empty(limit: usize)
    ensures
        System::empty(limit).limit == limit,
        System::empty(limit).values.len() == 0,
        System::empty(limit).steps.len() == 0,
{
}

/// There is room for oracles as long as their number does not exceed the limit.
pub proof fn law_room_is_counted(s: System, n: nat, m: nat)
    ensures
        s.has_room(0),
        n > 0 ==> (s.has_room(n) <==> s.values.len() + n <= s.limit),
        n <= m && s.has_room(m) ==> s.has_room(n),
{
}

/// A label is committed word by word, and its oracles read as its words.
pub proof fn law_label_is_committed(label: Label, s: System, witnessed: WitnessedLabel)
    requires
        label.witnessed_as(s, witnessed),
    ensures
        witnessed._idx == label.idx,
        forall|k: int|
            0 <= k < 4 ==> {
                &&& #[trigger] witnessed.label[k] == s.values.len() + k
                &&& crate::garble::committed(s, label.label@).values[witnessed.label[k] as int]
                    == label.label[k]
            },
{
    law_words_are_committed(s, label.label@);
    let t = crate::garble::committed(s, label.label@);
    assert forall|k: int| 0 <= k < 4 implies {
        &&& #[trigger] witnessed.label[k] == s.values.len() + k
        &&& t.values[witnessed.label[k] as int] == label.label[k]
    } by {
        assert(witnessed.label@[k] == s.values.len() + k);
        assert(label.label@[k] == t.values[s.values.len() + k]);
    }
}

/// A row of a table is committed word by word, its oracles read as its words, and
/// its state stays as it is.
pub proof fn law_output_is_committed(output: Output, s: System, witnessed: WitnessedOutput)
    requires
        output.witnessed_as(s, witnessed),
    ensures
        witnessed.0 == output.0,
        forall|k: int|
            0 <= k < 4 ==> {
                &&& #[trigger] witnessed.1[k] == s.values.len() + k
                &&& crate::garble::committed(s, output@.words).values[witnessed.1[k] as int]
                    == output.1[k]
            },
{
    law_words_are_committed(s, output@.words);
    let t = crate::garble::committed(s, output@.words);
    assert forall|k: int| 0 <= k < 4 implies {
        &&& #[trigger] witnessed.1[k] == s.values.len() + k
        &&& t.values[witnessed.1[k] as int] == output.1[k]
    } by {
        assert(witnessed.1@[k] == s.values.len() + k);
        assert(output@.words[k] == t.values[s.values.len() + k]);
    }
}

/// The words of a table, row by row.
pub open spec fn table_words(table: Seq<crate::garble::Row>) -> Seq<u32> {
    Seq::new(16, |i: int| table[i / 4].words[i % 4])
}

/// Committing words behind words is committing all of them.
pub proof fn lemma_commits_in_turn(
    s: System,
    words: Seq<u32>,
    mid: System,
    more: Seq<u32>,
    t: System,
)
    requires
        commits(s, words, mid),
        commits(mid, more, t),
    ensures
        commits(s, words + more, t),
{
    let all = words + more;
    assert forall|i: int| 0 <= i < s.values.len() implies #[trigger] t.values[i]
        == s.values[i] by {
        assert(mid.values[i] == s.values[i]);
    }
    assert forall|i: int| 0 <= i < s.steps.len() implies #[trigger] t.steps[i] == s.steps[i] by {
        assert(mid.steps[i] == s.steps[i]);
    }
    assert forall|k: int| 0 <= k < all.len() implies t.values[s.values.len() + k]
        == #[trigger] all[k] by {
        if k < words.len() {
            assert(words[k] == mid.values[s.values.len() + k]);
            assert(t.values[s.values.len() + k] == mid.values[s.values.len() + k]);
        } else {
            assert(more[k - words.len()] == t.values[mid.values.len() + (k - words.len())]);
        }
    }
    assert forall|k: int| 0 <= k < all.len() implies #[trigger] t.steps[s.steps.len() + k]
        == (StepView::Fixed { name: Seq::empty(), oracle: s.values.len() + k }) by {
        if k < words.len() {
            assert(mid.steps[s.steps.len() + k] == t.steps[s.steps.len() + k]);
        } else {
            assert(t.steps[mid.steps.len() + (k - words.len())] == t.steps[s.steps.len() + k]);
        }
    }
}

/// Committing a table commits the words of its four rows, row by row.
pub proof fn law_table_is_committed(s: System, table: Seq<crate::garble::Row>)
    requires
        table.len() == 4,
        forall|r: int| 0 <= r < 4 ==> (#[trigger] table[r]).words.len() == 4,
    ensures
        commits(s, table_words(table), crate::garble::committed_table(s, table)),
{
    let s1 = crate::garble::committed(s, table[0].words);
    let s2 = crate::garble::committed(s1, table[1].words);
    let s3 = crate::garble::committed(s2, table[2].words);
    let s4 = crate::garble::committed(s3, table[3].words);
    crate::garble::lemma_four_rows(s, table);
    law_words_are_committed(s, table[0].words);
    law_words_are_committed(s1, table[1].words);
    law_words_are_committed(s2, table[2].words);
    law_words_are_committed(s3, table[3].words);
    let two = table[0].words + table[1].words;
    let three = two + table[2].words;
    lemma_commits_in_turn(s, table[0].words, s1, table[1].words, s2);
    lemma_commits_in_turn(s, two, s2, table[2].words, s3);
    lemma_commits_in_turn(s, three, s3, table[3].words, s4);
    assert(three + table[3].words =~= table_words(table));
}

/// A gate is committed with both labels of its output wire, then the table, row by
/// row. The oracles of the witnessed gate read as those words, and the states stay
/// as they are.
pub proof fn law_gate_is_committed(
    gate: Gate,
    s: System,
    words: Seq<u32>,
    witnessed: WitnessedGate,
)
    requires
        words.len() == 48,
        gate.witnessed_as(s, words, witnessed),
    ensures
        commits(
            s,
            gate.out.0.label@ + gate.out.1.label@ + table_words(gate.table(words)),
            gate.committed_on(s, words),
        ),
        witnessed.out.0._idx == gate.out.0.idx,
        witnessed.out.1._idx == gate.out.1.idx,
        forall|k: int|
            0 <= k < 4 ==> {
                &&& #[trigger] witnessed.out.0.label[k] == s.values.len() + k
                &&& witnessed.out.1.label[k] == s.values.len() + 4 + k
            },
        forall|r: int, k: int|
            0 <= r < 4 && 0 <= k < 4 ==> #[trigger] witnessed.output[r].1[k] == s.values.len() + 8
                + 4 * r + k,
        forall|r: int|
            0 <= r < 4 ==> (#[trigger] witnessed.output[r]).0@ == gate.table(words)[r].state,
{
    let table = gate.table(words);
    let s1 = crate::garble::committed(s, gate.out.0.label@);
    let s2 = crate::garble::committed(s1, gate.out.1.label@);
    law_words_are_committed(s, gate.out.0.label@);
    law_words_are_committed(s1, gate.out.1.label@);
    law_table_is_committed(s2, table);
    lemma_commits_in_turn(s, gate.out.0.label@, s1, gate.out.1.label@, s2);
    lemma_commits_in_turn(
        s,
        gate.out.0.label@ + gate.out.1.label@,
        s2,
        table_words(table),
        gate.committed_on(s, words),
    );
    assert forall|k: int| 0 <= k < 4 implies {
        &&& #[trigger] witnessed.out.0.label[k] == s.values.len() + k
        &&& witnessed.out.1.label[k] == s.values.len() + 4 + k
    } by {
        assert(witnessed.out.0.label@[k] == s.values.len() + k);
        assert(witnessed.out.1.label@[k] == s.values.len() + 4 + k);
    }
    assert forall|r: int, k: int| 0 <= r < 4 && 0 <= k < 4 implies #[trigger] witnessed.output[r].1[k]
        == s.values.len() + 8 + 4 * r + k by {
        assert(witnessed.output@[r].0@ == table[r].state);
        assert(witnessed.output@[r].1@[k] == s.values.len() + 8 + 4 * r + k);
    }
    assert forall|r: int| 0 <= r < 4 implies (#[trigger] witnessed.output[r]).0@
        == table[r].state by {
        assert(witnessed.output@[r].0@ == table[r].state);
    }
}

/// The constraint that adds a hash to a label and takes away the masked label.
pub open spec fn sum_constraint(hash: usize, label: usize, masked: usize) -> StepView {
    StepView::AssertZero {
        name: seq!['b', '3', '2', '_', 'a', 'd', 'd'],
        oracles: seq![hash, label, masked],
        expr: ArithExpr::Minus(
            Box::new(ArithExpr::Plus(Box::new(ArithExpr::Var(0)), Box::new(ArithExpr::Var(1)))),
            Box::new(ArithExpr::Var(2)),
        ),
    }
}

/// Whether row `r` of a table is constrained in `t`, with the oracles from `values`
/// on and the steps from `steps` on: the compression of its state, and a
/// constraint on each word of the label that the row hides.
pub open spec fn row_stands(
    t: System,
    values: int,
    steps: int,
    state: CompressInput,
    label: Seq<usize>,
    masked: Seq<usize>,
) -> bool {
    let words = crate::blake3::compression(state);
    &&& t.steps[steps] == (StepView::Compress { state, output: values })
    &&& forall|k: int| 0 <= k < 16 ==> t.values[values + k] == #[trigger] words[k]
    &&& forall|k: int|
        0 <= k < 4 ==> #[trigger] t.steps[steps + 1 + k] == sum_constraint(
            (values + k) as usize,
            label[k],
            masked[k],
        )
}

/// Constraining the first `n` rows of a gate adds, for each, the compression of its
/// state and four constraints. The first three rows hide the first output label,
/// the last row hides the second.
pub proof fn law_rows_are_constrained(gate: WitnessedGate, s: System, n: nat)
    requires
        n <= 4,
    ensures
        ({
            let t = gate.rows_constrained(s, n);
            &&& kept(s, t)
            &&& t.values.len() == s.values.len() + 16 * n
            &&& t.steps.len() == s.steps.len() + 5 * n
            &&& forall|r: int|
                0 <= r < n ==> row_stands(
                    t,
                    s.values.len() + 16 * r,
                    s.steps.len() + 5 * r,
                    (#[trigger] gate.output[r]).0@,
                    if r < 3 { gate.out.0.label@ } else { gate.out.1.label@ },
                    gate.output[r].1@,
                )
        }),
{
    let t = gate.rows_constrained(s, n);
    reveal_strlit("b32_add");
    assert("b32_add"@ =~= seq!['b', '3', '2', '_', 'a', 'd', 'd']);
    crate::garble::lemma_rows_constrained(gate, s, n);
    crate::builder::lemma_extends_agrees(s, t);
    assert forall|r: int| 0 <= r < n implies row_stands(
        t,
        s.values.len() + 16 * r,
        s.steps.len() + 5 * r,
        (#[trigger] gate.output[r]).0@,
        if r < 3 { gate.out.0.label@ } else { gate.out.1.label@ },
        gate.output[r].1@,
    ) by {
        let values = s.values.len() + 16 * r;
        let steps = s.steps.len() + 5 * r;
        let state = gate.output[r].0@;
        let words = crate::blake3::compression(state);
        let label = if r < 3 { gate.out.0.label@ } else { gate.out.1.label@ };
        assert(crate::garble::holds_row(s, t, gate, r));
        assert(gate.output@[r] == gate.output[r]);
        assert forall|k: int| 0 <= k < 16 implies t.values[values + k] == #[trigger] words[k] by {
            assert(t.values.subrange(values, values + 16)[k] == t.values[values + k]);
        }
        assert forall|k: int| 0 <= k < 4 implies #[trigger] t.steps[steps + 1 + k]
            == sum_constraint((values + k) as usize, label[k], gate.output[r].1@[k]) by {
            let step = crate::garble::word_step(
                crate::garble::hash_ids(s, r),
                gate.hidden_label(r),
                gate.output@[r].1@,
                k,
            );
            assert(t.steps[steps + 1 + k] == step);
        }
    }
}

/// As many rows are constrained as there are oracles for, sixteen for each, up to
/// all four.
pub proof fn law_rows_fit(s: System)
    ensures
        ({
            let n = crate::garble::rows_that_fit(s);
            &&& n <= 4
            &&& n > 0 ==> s.values.len() + 16 * n <= s.limit
            &&& n < 4 ==> s.values.len() + 16 * (n + 1) > s.limit
        }),
{
}

/// In a field of characteristic two, sum and difference are the bitwise exclusive
/// or, and an input is itself.
pub proof fn law_expressions_are_evaluated(
    a: ArithExpr,
    b: ArithExpr,
    i: usize,
    inputs: Seq<u32>,
)
    ensures
        ArithExpr::Var(i).eval(inputs) == inputs[i as int],
        ArithExpr::Plus(Box::new(a), Box::new(b)).eval(inputs) == a.eval(inputs) ^ b.eval(inputs),
        ArithExpr::Minus(Box::new(a), Box::new(b)).eval(inputs) == a.eval(inputs) ^ b.eval(inputs),
        forall|n: nat| #[trigger] ArithExpr::Var(i).within(n) <==> i < n,
        forall|n: nat| #[trigger]
            ArithExpr::Plus(Box::new(a), Box::new(b)).within(n) <==> a.within(n) && b.within(n),
        forall|n: nat| #[trigger]
            ArithExpr::Minus(Box::new(a), Box::new(b)).within(n) <==> a.within(n) && b.within(n),
{
    reveal_with_fuel(ArithExpr::eval, 2);
    reveal_with_fuel(ArithExpr::within, 2);
}

/// A system is satisfied just when each of its steps is.
pub proof fn law_every_step_counts(s: System, t: System, step: StepView)
    requires
        t.values == s.values,
        t.steps == s.steps.push(step),
    ensures
        t.satisfied() <==> s.satisfied() && t.step_holds(step),
        s.steps.len() == 0 ==> s.satisfied(),
{
    if t.satisfied() {
        assert forall|i: int| 0 <= i < s.steps.len() implies s.step_holds(
            #[trigger] s.steps[i],
        ) by {
            assert(t.step_holds(t.steps[i]));
            lemma_same_values(s, t, s.steps[i]);
        }
        assert(t.step_holds(t.steps[s.steps.len() as int]));
    }
    if s.satisfied() && t.step_holds(step) {
        assert forall|i: int| 0 <= i < t.steps.len() implies t.step_holds(
            #[trigger] t.steps[i],
        ) by {
            if i < s.steps.len() {
                assert(s.step_holds(s.steps[i]));
                lemma_same_values(s, t, s.steps[i]);
            }
        }
    }
}

proof fn lemma_same_values(s: System, t: System, step: StepView)
    requires
        t.values == s.values,
    ensures
        t.step_holds(step) == s.step_holds(step),
{
    match step {
        StepView::AssertZero { name, oracles, expr } => {
            assert(oracles.map_values(|o: usize| t.values[o as int]) =~= oracles.map_values(
                |o: usize| s.values[o as int],
            ));
        },
        _ => {},
    }
}

/// What the witness has to satisfy. A committed oracle has to be there. The
/// sixteen oracles of a compression have to be there and hold its words. The three
/// oracles of a constraint have to be there, and the hash, the label and the masked
/// label that they hold have to cancel out.
pub proof fn law_steps_are_checked(
    s: System,
    name: Seq<char>,
    oracle: int,
    state: CompressInput,
    hash: usize,
    label: usize,
    masked: usize,
)
    ensures
        s.step_holds(StepView::Fixed { name, oracle }) <==> 0 <= oracle < s.values.len(),
        s.step_holds(StepView::Compress { state, output: oracle }) <==> {
            &&& 0 <= oracle
            &&& oracle + 16 <= s.values.len()
            &&& forall|k: int|
                0 <= k < 16 ==> s.values[oracle + k] == #[trigger] crate::blake3::compression(state)[k]
        },
        s.step_holds(sum_constraint(hash, label, masked)) <==> {
            &&& hash < s.values.len()
            &&& label < s.values.len()
            &&& masked < s.values.len()
            &&& s.values[hash as int] ^ s.values[label as int] == s.values[masked as int]
        },
{
    let words = crate::blake3::compression(state);
    if 0 <= oracle && oracle + 16 <= s.values.len() {
        let part = s.values.subrange(oracle, oracle + 16);
        if part == words {
            assert forall|k: int| 0 <= k < 16 implies s.values[oracle + k] == #[trigger] words[k] by {
                assert(part[k] == s.values[oracle + k]);
            }
        }
        if forall|k: int| 0 <= k < 16 ==> s.values[oracle + k] == #[trigger] words[k] {
            assert forall|k: int| 0 <= k < 16 implies part[k] == words[k] by {
                assert(words[k] == s.values[oracle + k]);
            }
            assert(part =~= words);
        }
    }
    let oracles = seq![hash, label, masked];
    let inputs = oracles.map_values(|o: usize| s.values[o as int]);
    reveal_with_fuel(ArithExpr::eval, 3);
    reveal_with_fuel(ArithExpr::within, 3);
    assert(oracles[0] == hash && oracles[1] == label && oracles[2] == masked);
    let h = s.values[hash as int];
    let l = s.values[label as int];
    let m = s.values[masked as int];
    assert(inputs[0] == h && inputs[1] == l && inputs[2] == m);
    assert((h ^ l) ^ m == 0u32 <==> h ^ l == m) by (bit_vector);
    let expr = ArithExpr::Minus(
        Box::new(ArithExpr::Plus(Box::new(ArithExpr::Var(0)), Box::new(ArithExpr::Var(1)))),
        Box::new(ArithExpr::Var(2)),
    );
    assert(expr.within(3));
    assert(expr.eval(inputs) == (h ^ l) ^ m);
}

/// What the witness has to satisfy for any other constraint: the expression names
/// no input beyond the oracles, the oracles are there, and the expression over
/// what they hold is zero.
pub proof fn law_constraints_are_checked(
    s: System,
    name: Seq<char>,
    oracles: Seq<usize>,
    expr: ArithExpr,
    inputs: Seq<u32>,
)
    requires
        inputs.len() == oracles.len(),
        forall|i: int|
            0 <= i < oracles.len() && oracles[i] < s.values.len() ==> #[trigger] inputs[i]
                == s.values[oracles[i] as int],
    ensures
        s.step_holds(StepView::AssertZero { name, oracles, expr }) <==> {
            &&& expr.within(oracles.len())
            &&& forall|i: int| 0 <= i < oracles.len() ==> #[trigger] oracles[i] < s.values.len()
            &&& expr.eval(inputs) == 0
        },
{
    if forall|i: int| 0 <= i < oracles.len() ==> #[trigger] oracles[i] < s.values.len() {
        let read = oracles.map_values(|o: usize| s.values[o as int]);
        assert forall|i: int| 0 <= i < oracles.len() implies inputs[i] == read[i] by {
            assert(oracles[i] < s.values.len());
        }
        assert(inputs =~= read);
    }
}

} // verus!
