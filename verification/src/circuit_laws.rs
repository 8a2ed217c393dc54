//! What holds of a circuit that is garbled line by line.

use crate::blake3::CompressInput;
use crate::bristol::AndWires;
use crate::bristol::LineError;
use crate::builder::BuilderError;
use crate::builder::StepView;
use crate::circuit::CircuitError;
use crate::circuit::Scene;
use crate::circuit::Wire;
use crate::garble::Row;
use crate::garble::WitnessedGate;
use vstd::prelude::*;

verus! {

/// Whether `after` is `before` with `n` more words drawn, each of them committed to
/// an unnamed oracle, in order. All that stood in the system stands there still.
pub open spec fn drawn_and_committed(before: Scene, after: Scene, n: int) -> bool {
    &&& after.drawn.len() == before.drawn.len() + n
    &&& forall|i: int| 0 <= i < before.drawn.len() ==> #[trigger] after.drawn[i] == before.drawn[i]
    &&& crate::system_laws::kept(before.system, after.system)
    &&& after.system.values.len() == before.system.values.len() + n
    &&& after.system.steps.len() == before.system.steps.len() + n
    &&& forall|i: int|
        0 <= i < n ==> #[trigger] after.system.values[before.system.values.len() + i]
            == after.drawn[before.drawn.len() + i]
    &&& forall|i: int|
        0 <= i < n ==> #[trigger] after.system.steps[before.system.steps.len() + i] == (
        StepView::Fixed { name: Seq::empty(), oracle: before.system.values.len() + i })
}

/// Whether `wire` is wire `idx` with eight words of `drawn` from `first` on: four
/// for its first label and four for its second. Its oracles are those from
/// `oracle` on.
pub open spec fn labels_drawn(
    wire: Wire,
    idx: usize,
    drawn: Seq<u32>,
    first: int,
    oracle: int,
) -> bool {
    &&& wire.labels.0.idx == idx && wire.labels.1.idx == idx
    &&& wire.witnessed.0._idx == idx && wire.witnessed.1._idx == idx
    &&& forall|i: int| 0 <= i < 4 ==> #[trigger] wire.labels.0.label@[i] == drawn[first + i]
    &&& forall|i: int| 0 <= i < 4 ==> #[trigger] wire.labels.1.label@[i] == drawn[first + 4 + i]
    &&& forall|i: int| 0 <= i < 4 ==> #[trigger] wire.witnessed.0.label@[i] == oracle + i
    &&& forall|i: int| 0 <= i < 4 ==> #[trigger] wire.witnessed.1.label@[i] == oracle + 4 + i
}

/// Whether the wires of `after` are those of `before`, as they were, and those
/// among `idxs`.
pub open spec fn wires_added(
    before: Map<usize, Wire>,
    idxs: Set<usize>,
    after: Map<usize, Wire>,
) -> bool {
    &&& forall|j: usize| #[trigger]
        after.contains_key(j) <==> before.contains_key(j) || idxs.contains(j)
    &&& forall|j: usize| #[trigger] before.contains_key(j) ==> after[j] == before[j]
}

/// A wire that has no labels yet gets two, of eight words drawn for it in all: the
/// first four are the first label, the next four the second. They are committed in
/// that order. A wire that has labels keeps them, and nothing is drawn or
/// committed. No other wire changes.
pub proof fn law_wire_draws_its_labels(before: Scene, idx: usize, wire: Wire)
    requires
        before.may_be(idx, wire),
    ensures
        ({
            let after = before.with_wire(idx, wire);
            &&& wires_added(before.wires, set![idx], after.wires)
            &&& after.wires[idx] == wire
            &&& before.wires.contains_key(idx) ==> after == before && wire == before.wires[idx]
            &&& !before.wires.contains_key(idx) ==> {
                &&& drawn_and_committed(before, after, 8)
                &&& crate::rng::drew(before.drawn, after.drawn, 8)
                &&& labels_drawn(
                    wire,
                    idx,
                    after.drawn,
                    before.drawn.len() as int,
                    before.system.values.len() as int,
                )
            }
        }),
{
    let after = before.with_wire(idx, wire);
    if !before.wires.contains_key(idx) {
        let first = wire.labels.0.label@;
        let second = wire.labels.1.label@;
        let mid = crate::garble::committed(before.system, first);
        crate::system_laws::law_words_are_committed(before.system, first);
        crate::system_laws::law_words_are_committed(mid, second);
        crate::system_laws::lemma_commits_in_turn(
            before.system,
            first,
            mid,
            second,
            after.system,
        );
        let all = first + second;
        let v = before.system.values.len();
        let d = before.drawn.len();
        assert(after.drawn =~= before.drawn + all);
        assert(after.drawn.take(d as int) =~= before.drawn);
        assert forall|i: int| 0 <= i < 8 implies #[trigger] after.system.values[v + i]
            == after.drawn[d + i] by {
            assert(all[i] == after.system.values[v + i]);
        }
        assert forall|i: int| 0 <= i < 4 implies #[trigger] wire.witnessed.1.label@[i] == v + 4
            + i by {}
    }
}

/// Drawing and committing more words behind.
proof fn lemma_drawn_in_turn(before: Scene, mid: Scene, n: int, after: Scene, m: int)
    requires
        n >= 0,
        m >= 0,
        drawn_and_committed(before, mid, n),
        drawn_and_committed(mid, after, m),
    ensures
        drawn_and_committed(before, after, n + m),
{
    let v = before.system.values.len();
    let d = before.drawn.len();
    let s = before.system.steps.len();
    assert forall|i: int| 0 <= i < d implies #[trigger] after.drawn[i] == before.drawn[i] by {
        assert(mid.drawn[i] == before.drawn[i]);
    }
    assert forall|i: int| 0 <= i < v implies #[trigger] after.system.values[i]
        == before.system.values[i] by {
        assert(mid.system.values[i] == before.system.values[i]);
    }
    assert forall|i: int| 0 <= i < s implies #[trigger] after.system.steps[i]
        == before.system.steps[i] by {
        assert(mid.system.steps[i] == before.system.steps[i]);
    }
    assert forall|i: int| 0 <= i < n + m implies #[trigger] after.system.values[v + i]
        == after.drawn[d + i] by {
        if i < n {
            assert(mid.system.values[v + i] == mid.drawn[d + i]);
            assert(after.drawn[d + i] == mid.drawn[d + i]);
        } else {
            assert(after.system.values[mid.system.values.len() + (i - n)]
                == after.drawn[mid.drawn.len() + (i - n)]);
        }
    }
    assert forall|i: int| 0 <= i < n + m implies #[trigger] after.system.steps[s + i] == (
    StepView::Fixed { name: Seq::empty(), oracle: v + i }) by {
        if i < n {
            assert(mid.system.steps[s + i] == after.system.steps[s + i]);
        } else {
            assert(after.system.steps[mid.system.steps.len() + (i - n)]
                == after.system.steps[s + i]);
        }
    }
}

/// How many words are drawn for the labels of a wire that comes first.
pub open spec fn words_for_first(before: Scene, a: usize) -> int {
    if before.wires.contains_key(a) {
        0
    } else {
        8
    }
}

/// How many words are drawn for the labels of two wires.
pub open spec fn words_for_two(before: Scene, a: usize, b: usize) -> int {
    words_for_first(before, a) + (if before.wires.contains_key(b) || b == a {
        0int
    } else {
        8
    })
}

/// How many words are drawn for the labels of three wires.
pub open spec fn words_for_three(before: Scene, a: usize, b: usize, c: usize) -> int {
    words_for_two(before, a, b) + (if before.wires.contains_key(c) || c == a || c == b {
        0int
    } else {
        8
    })
}

/// Whether wire `idx`, where it had no labels before, has them from the words that
/// were drawn past the first `n`.
pub open spec fn drew_labels(before: Scene, idx: usize, after: Scene, n: int) -> bool {
    labels_drawn(
        after.wires[idx],
        idx,
        after.drawn,
        before.drawn.len() + n,
        before.system.values.len() + n,
    )
}

proof fn lemma_one_wire(before: Scene, a: usize, named: Map<usize, Wire>)
    requires
        before.may_be_wired(seq![a], named),
    ensures
        ({
            let after = before.wired(seq![a], named);
            &&& drawn_and_committed(before, after, words_for_first(before, a))
            &&& wires_added(before.wires, set![a], after.wires)
            &&& after.wires[a] == named[a]
            &&& !before.wires.contains_key(a) ==> drew_labels(before, a, after, 0)
        }),
{
    crate::circuit::lemma_few_wires(before, a, a, a, named);
    law_wire_draws_its_labels(before, a, named[a]);
}

proof fn lemma_two_wires(before: Scene, a: usize, b: usize, named: Map<usize, Wire>)
    requires
        before.may_be_wired(seq![a, b], named),
    ensures
        ({
            let after = before.wired(seq![a, b], named);
            &&& drawn_and_committed(before, after, words_for_two(before, a, b))
            &&& wires_added(before.wires, set![a, b], after.wires)
            &&& after.wires[a] == named[a] && after.wires[b] == named[b]
            &&& !before.wires.contains_key(a) ==> drew_labels(before, a, after, 0)
            &&& !before.wires.contains_key(b) && b != a ==> drew_labels(
                before,
                b,
                after,
                words_for_first(before, a),
            )
        }),
{
    crate::circuit::lemma_few_wires(before, a, b, b, named);
    let mid = before.wired(seq![a], named);
    let after = before.wired(seq![a, b], named);
    lemma_one_wire(before, a, named);
    law_wire_draws_its_labels(mid, b, named[b]);
    let n = words_for_first(before, a);
    let m = words_for_two(before, a, b) - n;
    assert(mid.wires.contains_key(b) <==> before.wires.contains_key(b) || b == a);
    if m == 8 {
        lemma_drawn_in_turn(before, mid, n, after, m);
        if !before.wires.contains_key(a) {
            assert(drew_labels(before, a, mid, 0));
            assert forall|i: int| 0 <= i < mid.drawn.len() implies #[trigger] after.drawn[i]
                == mid.drawn[i] by {}
            lemma_labels_stay(mid.wires[a], a, mid.drawn, after.drawn, before.drawn.len() as int, before.system.values.len() as int);
        }
    }
    assert(mid.wires.contains_key(a));
    assert forall|j: usize| #[trigger] after.wires.contains_key(j) <==> before.wires.contains_key(j)
        || set![a, b].contains(j) by {
        assert(mid.wires.contains_key(j) <==> before.wires.contains_key(j) || j == a);
    }
    assert forall|j: usize| #[trigger] before.wires.contains_key(j) implies after.wires[j]
        == before.wires[j] by {
        assert(mid.wires.contains_key(j));
    }
}

proof fn lemma_labels_stay(
    wire: Wire,
    idx: usize,
    drawn: Seq<u32>,
    after: Seq<u32>,
    first: int,
    oracle: int,
)
    requires
        0 <= first,
        first + 8 <= drawn.len(),
        drawn.len() <= after.len(),
        labels_drawn(wire, idx, drawn, first, oracle),
        forall|i: int| 0 <= i < drawn.len() ==> #[trigger] after[i] == drawn[i],
    ensures
        labels_drawn(wire, idx, after, first, oracle),
{
    assert forall|i: int| 0 <= i < 4 implies #[trigger] wire.labels.0.label@[i] == after[first
        + i] by {
        assert(after[first + i] == drawn[first + i]);
    }
    assert forall|i: int| 0 <= i < 4 implies #[trigger] wire.labels.1.label@[i] == after[first + 4
        + i] by {
        assert(after[first + 4 + i] == drawn[first + 4 + i]);
    }
}

proof fn lemma_three_wires(before: Scene, a: usize, b: usize, c: usize, named: Map<usize, Wire>)
    requires
        before.may_be_wired(seq![a, b, c], named),
    ensures
        ({
            let after = before.wired(seq![a, b, c], named);
            &&& drawn_and_committed(before, after, words_for_three(before, a, b, c))
            &&& wires_added(before.wires, set![a, b, c], after.wires)
            &&& after.wires[a] == named[a] && after.wires[b] == named[b] && after.wires[c]
                == named[c]
            &&& !before.wires.contains_key(a) ==> drew_labels(before, a, after, 0)
            &&& !before.wires.contains_key(b) && b != a ==> drew_labels(
                before,
                b,
                after,
                words_for_first(before, a),
            )
            &&& !before.wires.contains_key(c) && c != a && c != b ==> drew_labels(
                before,
                c,
                after,
                words_for_two(before, a, b),
            )
        }),
{
    crate::circuit::lemma_few_wires(before, a, b, c, named);
    let mid = before.wired(seq![a, b], named);
    let after = before.wired(seq![a, b, c], named);
    lemma_two_wires(before, a, b, named);
    law_wire_draws_its_labels(mid, c, named[c]);
    let n = words_for_two(before, a, b);
    let m = words_for_three(before, a, b, c) - n;
    let d = before.drawn.len() as int;
    let v = before.system.values.len() as int;
    assert(mid.wires.contains_key(c) <==> before.wires.contains_key(c) || c == a || c == b);
    if m == 8 {
        lemma_drawn_in_turn(before, mid, n, after, m);
        if !before.wires.contains_key(a) {
            lemma_labels_stay(mid.wires[a], a, mid.drawn, after.drawn, d, v);
        }
        if !before.wires.contains_key(b) && b != a {
            let k = words_for_first(before, a);
            lemma_labels_stay(mid.wires[b], b, mid.drawn, after.drawn, d + k, v + k);
        }
    }
    assert(mid.wires.contains_key(a));
    assert(mid.wires.contains_key(b));
    assert forall|j: usize| #[trigger] after.wires.contains_key(j) <==> before.wires.contains_key(j)
        || set![a, b, c].contains(j) by {
        assert(mid.wires.contains_key(j) <==> before.wires.contains_key(j) || set![a, b].contains(
            j,
        ));
    }
    assert forall|j: usize| #[trigger] before.wires.contains_key(j) implies after.wires[j]
        == before.wires[j] by {
        assert(mid.wires.contains_key(j));
    }
}

/// What there is once the wires of an AND gate have labels.
spec fn ready_for(before: Scene, wires: AndWires, after: Scene) -> Scene {
    before.wired(seq![wires.left, wires.right, wires.out], after.wires)
}

/// The table that is garbled once the wires have labels.
spec fn table_of(ready: Scene, wires: AndWires, after: Scene) -> Seq<Row> {
    ready.gate(wires).table(crate::rng::since(ready.drawn, after.drawn))
}

/// What garbling an AND gate comes down to.
#[verifier::opaque]
spec fn gate_done(before: Scene, wires: AndWires, after: Scene, witnessed: WitnessedGate) -> bool {
    let ready = ready_for(before, wires, after);
    let table = table_of(ready, wires, after);
    let committed = crate::garble::committed_table(ready.system, table);
    &&& before.may_be_wired(seq![wires.left, wires.right, wires.out], after.wires)
    &&& ready.wires == after.wires
    &&& crate::rng::drew(ready.drawn, after.drawn, 48)
    &&& table.len() == 4
    &&& crate::system_laws::commits(
        ready.system,
        crate::system_laws::table_words(table),
        committed,
    )
    &&& after.system == witnessed.rows_constrained(
        committed,
        crate::garble::rows_that_fit(committed),
    )
    &&& witnessed.out == after.wires[wires.out].witnessed
    &&& crate::garble::holds_table(witnessed.output@, table, ready.system.values.len())
}

proof fn lemma_gate_line(
    before: Scene,
    line: Seq<char>,
    after: Scene,
    refused: Option<CircuitError>,
    wires: AndWires,
) -> (witnessed: WitnessedGate)
    requires
        before.leads_to(line, after, refused),
        crate::bristol::and_wires(crate::bristol::words(line)) == Ok::<_, LineError>(Some(wires)),
    ensures
        gate_done(before, wires, after, witnessed),
{
    let ready = ready_for(before, wires, after);
    let table = table_of(ready, wires, after);
    let witnessed = choose|witnessed: WitnessedGate| #[trigger]
        ready.constrains_to(wires, table, witnessed, after.system);
    crate::system_laws::law_table_is_committed(ready.system, table);
    reveal(gate_done);
    witnessed
}

/// Behind the labels, garbling draws for the table and commits it.
proof fn lemma_table_behind(
    before: Scene,
    wires: AndWires,
    after: Scene,
    witnessed: WitnessedGate,
)
    requires
        gate_done(before, wires, after, witnessed),
    ensures
        stands_behind(ready_for(before, wires, after), after),
        before.may_be_wired(seq![wires.left, wires.right, wires.out], after.wires),
        ready_for(before, wires, after).wires == after.wires,
{
    reveal(gate_done);
    let ready = ready_for(before, wires, after);
    let table = table_of(ready, wires, after);
    let committed = crate::garble::committed_table(ready.system, table);
    let rows = crate::garble::rows_that_fit(committed);
    crate::system_laws::law_rows_are_constrained(witnessed, committed, rows);
    assert forall|i: int| 0 <= i < ready.drawn.len() implies #[trigger] after.drawn[i]
        == ready.drawn[i] by {
        assert(after.drawn.take(ready.drawn.len() as int)[i] == after.drawn[i]);
    }
    assert forall|i: int| 0 <= i < ready.system.values.len() implies #[trigger] after.system.values[i]
        == ready.system.values[i] by {
        assert(committed.values[i] == ready.system.values[i]);
    }
    assert forall|i: int| 0 <= i < ready.system.steps.len() implies #[trigger] after.system.steps[i]
        == ready.system.steps[i] by {
        assert(committed.steps[i] == ready.system.steps[i]);
    }
    assert forall|i: int| 0 <= i < 16 implies #[trigger] after.system.steps[ready.system.steps.len()
        + i] == (StepView::Fixed {
        name: Seq::empty(),
        oracle: ready.system.values.len() + i,
    }) by {
        assert(committed.steps[ready.system.steps.len() + i]
            == after.system.steps[ready.system.steps.len() + i]);
    }
}

/// Whether `after` holds, behind all of `ready`, 48 words drawn and sixteen oracles
/// committed at least.
spec fn stands_behind(ready: Scene, after: Scene) -> bool {
    &&& after.drawn.len() == ready.drawn.len() + 48
    &&& forall|i: int| 0 <= i < ready.drawn.len() ==> #[trigger] after.drawn[i] == ready.drawn[i]
    &&& crate::system_laws::kept(ready.system, after.system)
    &&& after.system.values.len() >= ready.system.values.len() + 16
    &&& after.system.steps.len() >= ready.system.steps.len() + 16
    &&& forall|i: int|
        0 <= i < 16 ==> #[trigger] after.system.steps[ready.system.steps.len() + i] == (
        StepView::Fixed { name: Seq::empty(), oracle: ready.system.values.len() + i })
}

/// What was drawn and committed before stands there still.
proof fn lemma_stands_behind(before: Scene, ready: Scene, after: Scene, n: int)
    requires
        n >= 0,
        drawn_and_committed(before, ready, n),
        stands_behind(ready, after),
    ensures
        ({
            let v = before.system.values.len();
            let s = before.system.steps.len();
            let d = before.drawn.len();
            &&& after.drawn.len() == d + n + 48
            &&& forall|i: int| 0 <= i < d ==> #[trigger] after.drawn[i] == before.drawn[i]
            &&& crate::system_laws::kept(before.system, after.system)
            &&& after.system.values.len() >= v + n + 16
            &&& after.system.steps.len() >= s + n + 16
            &&& forall|i: int|
                0 <= i < n ==> #[trigger] after.system.values[v + i] == after.drawn[d + i]
            &&& forall|i: int|
                0 <= i < n + 16 ==> #[trigger] after.system.steps[s + i] == (StepView::Fixed {
                    name: Seq::empty(),
                    oracle: v + i,
                })
        }),
{
    let v = before.system.values.len();
    let s = before.system.steps.len();
    let d = before.drawn.len();
    assert forall|i: int| 0 <= i < d implies #[trigger] after.drawn[i] == before.drawn[i] by {
        assert(ready.drawn[i] == before.drawn[i]);
    }
    assert forall|i: int| 0 <= i < v implies #[trigger] after.system.values[i]
        == before.system.values[i] by {
        assert(ready.system.values[i] == before.system.values[i]);
    }
    assert forall|i: int| 0 <= i < s implies #[trigger] after.system.steps[i]
        == before.system.steps[i] by {
        assert(ready.system.steps[i] == before.system.steps[i]);
    }
    assert forall|i: int| 0 <= i < n implies #[trigger] after.system.values[v + i]
        == after.drawn[d + i] by {
        assert(ready.system.values[v + i] == ready.drawn[d + i]);
        assert(after.drawn[d + i] == ready.drawn[d + i]);
    }
    assert forall|i: int| 0 <= i < n + 16 implies #[trigger] after.system.steps[s + i] == (
    StepView::Fixed { name: Seq::empty(), oracle: v + i }) by {
        if i < n {
            assert(after.system.steps[s + i] == ready.system.steps[s + i]);
        } else {
            assert(after.system.steps[ready.system.steps.len() + (i - n)]
                == after.system.steps[s + i]);
        }
    }
}

proof fn lemma_wires_labelled(
    before: Scene,
    wires: AndWires,
    after: Scene,
    witnessed: WitnessedGate,
)
    requires
        gate_done(before, wires, after, witnessed),
    ensures
        ({
            let (l, r, o) = (wires.left, wires.right, wires.out);
            let n = words_for_three(before, l, r, o);
            let v = before.system.values.len();
            let s = before.system.steps.len();
            let d = before.drawn.len();
            &&& wires_added(before.wires, set![l, r, o], after.wires)
            &&& !before.wires.contains_key(l) ==> drew_labels(before, l, after, 0)
            &&& !before.wires.contains_key(r) && r != l ==> drew_labels(
                before,
                r,
                after,
                words_for_first(before, l),
            )
            &&& !before.wires.contains_key(o) && o != l && o != r ==> drew_labels(
                before,
                o,
                after,
                words_for_two(before, l, r),
            )
            &&& after.drawn.len() == d + n + 48
            &&& forall|i: int| 0 <= i < d ==> #[trigger] after.drawn[i] == before.drawn[i]
            &&& crate::system_laws::kept(before.system, after.system)
            &&& after.system.values.len() >= v + n + 16
            &&& after.system.steps.len() >= s + n + 16
            &&& forall|i: int|
                0 <= i < n ==> #[trigger] after.system.values[v + i] == after.drawn[d + i]
            &&& forall|i: int|
                0 <= i < n + 16 ==> #[trigger] after.system.steps[s + i] == (StepView::Fixed {
                    name: Seq::empty(),
                    oracle: v + i,
                })
        }),
{
    let (l, r, o) = (wires.left, wires.right, wires.out);
    let v = before.system.values.len() as int;
    let d = before.drawn.len() as int;
    let ready = ready_for(before, wires, after);
    lemma_table_behind(before, wires, after, witnessed);
    lemma_three_wires(before, l, r, o, after.wires);
    lemma_stands_behind(before, ready, after, words_for_three(before, l, r, o));
    if !before.wires.contains_key(l) {
        lemma_labels_stay(ready.wires[l], l, ready.drawn, after.drawn, d, v);
    }
    if !before.wires.contains_key(r) && r != l {
        let k = words_for_first(before, l);
        lemma_labels_stay(ready.wires[r], r, ready.drawn, after.drawn, d + k, v + k);
    }
    if !before.wires.contains_key(o) && o != l && o != r {
        let k = words_for_two(before, l, r);
        lemma_labels_stay(ready.wires[o], o, ready.drawn, after.drawn, d + k, v + k);
    }
}

/// The line of an AND gate gives labels to those of its wires that have none, the
/// left one first, then the right one, then the output wire, eight words for each.
/// The words are committed as they are drawn. Then the table draws 48 words more,
/// and sixteen oracles are committed for it. Nothing that was there before changes.
pub proof fn law_gate_line_labels_its_wires(
    before: Scene,
    line: Seq<char>,
    after: Scene,
    refused: Option<CircuitError>,
    wires: AndWires,
)
    requires
        before.leads_to(line, after, refused),
        crate::bristol::and_wires(crate::bristol::words(line)) == Ok::<_, LineError>(Some(wires)),
    ensures
        ({
            let (l, r, o) = (wires.left, wires.right, wires.out);
            let n = words_for_three(before, l, r, o);
            let v = before.system.values.len();
            let s = before.system.steps.len();
            let d = before.drawn.len();
            &&& wires_added(before.wires, set![l, r, o], after.wires)
            &&& !before.wires.contains_key(l) ==> drew_labels(before, l, after, 0)
            &&& !before.wires.contains_key(r) && r != l ==> drew_labels(
                before,
                r,
                after,
                words_for_first(before, l),
            )
            &&& !before.wires.contains_key(o) && o != l && o != r ==> drew_labels(
                before,
                o,
                after,
                words_for_two(before, l, r),
            )
            &&& after.drawn.len() == d + n + 48
            &&& forall|i: int| 0 <= i < d ==> #[trigger] after.drawn[i] == before.drawn[i]
            &&& crate::system_laws::kept(before.system, after.system)
            &&& after.system.values.len() >= v + n + 16
            &&& after.system.steps.len() >= s + n + 16
            &&& forall|i: int|
                0 <= i < n ==> #[trigger] after.system.values[v + i] == after.drawn[d + i]
            &&& forall|i: int|
                0 <= i < n + 16 ==> #[trigger] after.system.steps[s + i] == (StepView::Fixed {
                    name: Seq::empty(),
                    oracle: v + i,
                })
        }),
{
    let witnessed = lemma_gate_line(before, line, after, refused, wires);
    lemma_wires_labelled(before, wires, after, witnessed);
}

/// The oracles of the label on a wire for a bit.
pub open spec fn oracles_of(wire: Wire, bit: bool) -> Seq<usize> {
    if bit {
        wire.witnessed.1.label@
    } else {
        wire.witnessed.0.label@
    }
}

proof fn lemma_rows_masked(
    before: Scene,
    wires: AndWires,
    after: Scene,
    witnessed: WitnessedGate,
    a: bool,
    b: bool,
    state: CompressInput,
)
    requires
        gate_done(before, wires, after, witnessed),
        crate::gate_laws::takes_in(
            state,
            crate::gate_laws::label_for(after.wires[wires.left].labels, a),
            crate::gate_laws::label_for(after.wires[wires.right].labels, b),
            after.drawn,
            before.drawn.len() + words_for_three(before, wires.left, wires.right, wires.out) + 12
                * crate::laws::row_index(a, b),
        ),
    ensures
        ({
            let n = words_for_three(before, wires.left, wires.right, wires.out);
            let row = crate::laws::row_index(a, b);
            let values = before.system.values.len() + n;
            let steps = before.system.steps.len() + n;
            &&& crate::gate_laws::hides(
                after.system.values.subrange(values + 4 * row, values + 4 * row + 4),
                crate::blake3::compression(state),
                crate::gate_laws::label_for(after.wires[wires.out].labels, a && b),
            )
            &&& values + 16 + 16 * row + 16 <= after.system.values.len()
                ==> crate::system_laws::row_stands(
                after.system,
                values + 16 + 16 * row,
                steps + 16 + 5 * row,
                state,
                oracles_of(after.wires[wires.out], a && b),
                Seq::new(4, |k: int| (values + 4 * row + k) as usize),
            )
        }),
{
    let (l, r, o) = (wires.left, wires.right, wires.out);
    let n = words_for_three(before, l, r, o);
    let row = crate::laws::row_index(a, b);
    let values = before.system.values.len() + n;
    let steps = before.system.steps.len() + n;
    reveal(gate_done);
    let ready = ready_for(before, wires, after);
    let words = crate::rng::since(ready.drawn, after.drawn);
    let gate = ready.gate(wires);
    let table = table_of(ready, wires, after);
    let committed = crate::garble::committed_table(ready.system, table);
    let rows = crate::garble::rows_that_fit(committed);
    let left = crate::gate_laws::label_for(after.wires[l].labels, a);
    let right = crate::gate_laws::label_for(after.wires[r].labels, b);
    let label = crate::gate_laws::label_for(after.wires[o].labels, a && b);
    lemma_three_wires(before, l, r, o, after.wires);
    crate::gate_laws::law_row_hides_its_label(gate, words, a, b);
    assert(crate::gate_laws::takes_in(state, left, right, words, 12 * row)) by {
        let d = ready.drawn.len();
        assert forall|i: int| 0 <= i < 8 implies #[trigger] state.cv[i] == words[12 * row + i] by {
            assert(state.cv[i] == after.drawn[d + 12 * row + i]);
        }
    }
    crate::gate_laws::lemma_same_taken_in(state, table[row].state, left, right, words, 12 * row);
    crate::system_laws::law_rows_are_constrained(witnessed, committed, rows);
    let masked = after.system.values.subrange(values + 4 * row, values + 4 * row + 4);
    let all = crate::system_laws::table_words(table);
    assert forall|k: int| 0 <= k < 4 implies #[trigger] masked[k] == crate::blake3::compression(
        state,
    )[k] ^ label[k] by {
        assert(masked[k] == after.system.values[values + 4 * row + k]);
        assert(after.system.values[values + 4 * row + k] == committed.values[values + 4 * row
            + k]);
        assert(all[4 * row + k] == committed.values[ready.system.values.len() + (4 * row + k)]);
        assert(all[4 * row + k] == table[row].words[k]);
    }
    if values + 16 + 16 * row + 16 <= after.system.values.len() {
        assert(row < rows);
        assert(witnessed.output[row] == witnessed.output@[row]);
        let ids = Seq::new(4, |k: int| (values + 4 * row + k) as usize);
        assert(witnessed.output@[row].0@ == table[row].state);
        assert forall|k: int| 0 <= k < 4 implies witnessed.output[row].1@[k] == ids[k] by {
            assert(witnessed.output@[row].1@[k] == ready.system.values.len() + 4 * row + k);
        }
        assert(witnessed.output[row].1@ =~= ids);
    }
}

/// The rows of the AND gate that a line stands for are masked by the labels of the
/// wires that the line names. For the bits `a` and `b`, the state that takes in the
/// label of `a` on the left wire and the label of `b` on the right wire, as the
/// wires hold them, is the one whose compression hides the label of the
/// conjunction on the output wire; and where the row is constrained, it is that
/// state whose compression is added, and that label on which the constraints are.
pub proof fn law_gate_line_masks_its_rows(
    before: Scene,
    line: Seq<char>,
    after: Scene,
    refused: Option<CircuitError>,
    wires: AndWires,
    a: bool,
    b: bool,
    state: CompressInput,
)
    requires
        before.leads_to(line, after, refused),
        crate::bristol::and_wires(crate::bristol::words(line)) == Ok::<_, LineError>(Some(wires)),
        crate::gate_laws::takes_in(
            state,
            crate::gate_laws::label_for(after.wires[wires.left].labels, a),
            crate::gate_laws::label_for(after.wires[wires.right].labels, b),
            after.drawn,
            before.drawn.len() + words_for_three(before, wires.left, wires.right, wires.out) + 12
                * crate::laws::row_index(a, b),
        ),
    ensures
        ({
            let n = words_for_three(before, wires.left, wires.right, wires.out);
            let row = crate::laws::row_index(a, b);
            let values = before.system.values.len() + n;
            let steps = before.system.steps.len() + n;
            &&& crate::gate_laws::hides(
                after.system.values.subrange(values + 4 * row, values + 4 * row + 4),
                crate::blake3::compression(state),
                crate::gate_laws::label_for(after.wires[wires.out].labels, a && b),
            )
            &&& values + 16 + 16 * row + 16 <= after.system.values.len()
                ==> crate::system_laws::row_stands(
                after.system,
                values + 16 + 16 * row,
                steps + 16 + 5 * row,
                state,
                oracles_of(after.wires[wires.out], a && b),
                Seq::new(4, |k: int| (values + 4 * row + k) as usize),
            )
        }),
{
    let witnessed = lemma_gate_line(before, line, after, refused, wires);
    lemma_rows_masked(before, wires, after, witnessed, a, b, state);
}

proof fn lemma_rows_counted(
    before: Scene,
    wires: AndWires,
    after: Scene,
    witnessed: WitnessedGate,
)
    requires
        gate_done(before, wires, after, witnessed),
    ensures
        ({
            let n = words_for_three(before, wires.left, wires.right, wires.out);
            let values = before.system.values.len() + n + 16;
            let steps = before.system.steps.len() + n + 16;
            let limit = before.system.limit;
            let rows = (after.system.values.len() - values) / 16;
            &&& 0 <= rows <= 4
            &&& after.system.values.len() == values + 16 * rows
            &&& after.system.steps.len() == steps + 5 * rows
            &&& rows > 0 ==> after.system.values.len() <= limit
            &&& rows < 4 ==> after.system.values.len() + 16 > limit
        }),
{
    reveal(gate_done);
    let ready = ready_for(before, wires, after);
    let committed = crate::garble::committed_table(ready.system, table_of(ready, wires, after));
    lemma_three_wires(before, wires.left, wires.right, wires.out, after.wires);
    crate::system_laws::law_rows_fit(committed);
    crate::system_laws::law_rows_are_constrained(
        witnessed,
        committed,
        crate::garble::rows_that_fit(committed),
    );
}

/// How far the line of an AND gate gets. It adds the oracles of its labels, sixteen
/// for its table, and sixteen for each row that is constrained, with five steps. It
/// is refused only where the oracles run out before the last row, and then no
/// further row would fit.
pub proof fn law_gate_line_goes_as_far_as_it_can(
    before: Scene,
    line: Seq<char>,
    after: Scene,
    refused: Option<CircuitError>,
    wires: AndWires,
    rows: int,
)
    requires
        before.leads_to(line, after, refused),
        crate::bristol::and_wires(crate::bristol::words(line)) == Ok::<_, LineError>(Some(wires)),
        rows == (after.system.values.len() - before.system.values.len() - words_for_three(
            before,
            wires.left,
            wires.right,
            wires.out,
        ) - 16) / 16,
    ensures
        ({
            let n = words_for_three(before, wires.left, wires.right, wires.out);
            let values = before.system.values.len() + n + 16;
            let steps = before.system.steps.len() + n + 16;
            let limit = before.system.limit;
            &&& 0 <= rows <= 4
            &&& after.system.values.len() == values + 16 * rows
            &&& after.system.steps.len() == steps + 5 * rows
            &&& rows > 0 ==> after.system.values.len() <= limit
            &&& rows < 4 ==> after.system.values.len() + 16 > limit
            &&& refused is None <==> values + 64 <= limit
            &&& refused is Some ==> refused == Some(
                CircuitError::Builder(BuilderError::TooManyOracles),
            )
            &&& crate::circuit::oracles_committed(before.wires.dom(), line) == n + 16
            &&& crate::circuit::oracles_for_line(before.wires.dom(), line) == n + 80
        }),
{
    let (l, r, o) = (wires.left, wires.right, wires.out);
    let witnessed = lemma_gate_line(before, line, after, refused, wires);
    lemma_rows_counted(before, wires, after, witnessed);
    lemma_three_wires(before, l, r, o, after.wires);
    crate::circuit::lemma_wires_room(before, seq![l, r, o], after.wires);
}

/// A line is refused with the error that comes back, and with none where none does.
pub proof fn law_refusals_come_back(e: CircuitError)
    ensures
        crate::circuit::refusal(Err(e)) == Some(e),
        crate::circuit::refusal(Ok(())) is None,
{
}

/// A line without an AND gate changes nothing, and is not refused.
pub proof fn law_other_line_changes_nothing(
    before: Scene,
    line: Seq<char>,
    after: Scene,
    refused: Option<CircuitError>,
)
    requires
        before.leads_to(line, after, refused),
        crate::bristol::and_wires(crate::bristol::words(line)) == Ok::<
            Option<AndWires>,
            LineError,
        >(None),
    ensures
        after == before,
        refused is None,
        crate::circuit::oracles_for_line(before.wires.dom(), line) == 0,
{
}

/// A line that cannot be read is refused for that reason. The wires that it names
/// before the one that is not an index have labels then, for which the oracles
/// were counted, and nothing else has changed.
pub proof fn law_unread_line_keeps_its_wires(
    before: Scene,
    line: Seq<char>,
    after: Scene,
    refused: Option<CircuitError>,
    e: LineError,
)
    requires
        before.leads_to(line, after, refused),
        crate::bristol::and_wires(crate::bristol::words(line)) == Err::<Option<AndWires>, _>(e),
    ensures
        refused == Some(CircuitError::Line(e)),
        crate::circuit::oracles_committed(before.wires.dom(), line)
            == after.system.values.len() - before.system.values.len(),
        match e {
            LineError::InvalidLeft => after == before,
            LineError::InvalidRight { left } => {
                &&& wires_added(before.wires, set![left], after.wires)
                &&& drawn_and_committed(before, after, words_for_first(before, left))
                &&& !before.wires.contains_key(left) ==> drew_labels(before, left, after, 0)
            },
            LineError::InvalidOut { left, right } => {
                &&& wires_added(before.wires, set![left, right], after.wires)
                &&& drawn_and_committed(before, after, words_for_two(before, left, right))
                &&& !before.wires.contains_key(left) ==> drew_labels(before, left, after, 0)
                &&& !before.wires.contains_key(right) && right != left ==> drew_labels(
                    before,
                    right,
                    after,
                    words_for_first(before, left),
                )
            },
        },
{
    crate::circuit::lemma_wires_room(
        before,
        crate::bristol::wires_read(crate::bristol::words(line)),
        after.wires,
    );
    match e {
        LineError::InvalidLeft => {},
        LineError::InvalidRight { left } => {
            lemma_one_wire(before, left, after.wires);
        },
        LineError::InvalidOut { left, right } => {
            lemma_two_wires(before, left, right, after.wires);
        },
    }
}

/// Lines are garbled one after the other: no lines change nothing, one line leads
/// where it leads, and lines behind others lead on from where those led.
pub proof fn law_lines_lead_on(
    before: Scene,
    lines: Seq<Seq<char>>,
    mid: Scene,
    more: Seq<Seq<char>>,
    after: Scene,
)
    ensures
        before.leads_through(Seq::empty(), after) <==> after == before,
        before.leads_through(lines, mid) && mid.leads_through(more, after)
            ==> before.leads_through(lines + more, after),
        forall|line: Seq<char>|
            before.leads_through(seq![line], after) <==> #[trigger] before.leads_to(
                line,
                after,
                None,
            ),
    decreases more.len(),
{
    if before.leads_through(lines, mid) && mid.leads_through(more, after) {
        if more.len() == 0 {
            assert(lines + more == lines);
        } else {
            let last = choose|last: Scene|
                mid.leads_through(more.drop_last(), last) && #[trigger] last.leads_to(
                    more.last(),
                    after,
                    None,
                );
            law_lines_lead_on(before, lines, mid, more.drop_last(), last);
            let all = lines + more;
            assert(all.drop_last() == lines + more.drop_last());
            assert(all.last() == more.last());
            assert(last.leads_to(all.last(), after, None));
        }
    }
    assert forall|line: Seq<char>|
        before.leads_through(seq![line], after) <==> #[trigger] before.leads_to(
            line,
            after,
            None,
        ) by {
        let one = seq![line];
        assert(one.drop_last() == Seq::<Seq<char>>::empty());
        assert(one.last() == line);
        reveal_with_fuel(Scene::leads_through, 2);
        if before.leads_to(line, after, None) {
            assert(before.leads_through(one.drop_last(), before));
            assert(before.leads_to(one.last(), after, None));
        }
    }
}

/// Lines that led somewhere can be taken apart at any place.
pub proof fn law_lines_can_be_taken_apart(
    before: Scene,
    lines: Seq<Seq<char>>,
    more: Seq<Seq<char>>,
    after: Scene,
) -> (mid: Scene)
    requires
        before.leads_through(lines + more, after),
    ensures
        before.leads_through(lines, mid),
        mid.leads_through(more, after),
    decreases more.len(),
{
    let all = lines + more;
    if more.len() == 0 {
        assert(all == lines);
        after
    } else {
        let last = choose|last: Scene|
            before.leads_through(all.drop_last(), last) && #[trigger] last.leads_to(
                all.last(),
                after,
                None,
            );
        assert(all.drop_last() == lines + more.drop_last());
        assert(all.last() == more.last());
        let mid = law_lines_can_be_taken_apart(before, lines, more.drop_last(), last);
        assert(last.leads_to(more.last(), after, None));
        mid
    }
}

/// Lines are accepted just when none of them is refused: lines that lead somewhere
/// are accepted, and lines are not where one of them is refused.
pub proof fn law_accepted_lines_are_not_refused(
    before: Scene,
    lines: Seq<Seq<char>>,
    mid: Scene,
    line: Seq<char>,
    after: Scene,
    more: Seq<Seq<char>>,
)
    requires
        before.leads_through(lines, mid),
    ensures
        before.accepts(lines),
        forall|e: CircuitError| #[trigger]
            mid.leads_to(line, after, Some(e)) ==> !before.accepts(lines.push(line) + more),
    decreases lines.len(),
{
    if lines.len() > 0 {
        let k = lines.len() - 1;
        let last = choose|last: Scene|
            before.leads_through(lines.drop_last(), last) && #[trigger] last.leads_to(
                lines.last(),
                mid,
                None,
            );
        law_accepted_lines_are_not_refused(before, lines.drop_last(), last, line, after, more);
        assert(lines.take(k) == lines.drop_last());
        assert(lines.take(k + 1) == lines);
        crate::circuit::lemma_line_accepted(before, lines, k, last, mid);
    }
    assert forall|e: CircuitError| #[trigger] mid.leads_to(line, after, Some(e)) implies !before.accepts(
        lines.push(line) + more,
    ) by {
        let all = lines.push(line) + more;
        let k = lines.len() as int;
        assert(all.take(k) == lines);
        assert(all[k] == line);
        crate::circuit::lemma_line_refused(before, all, k, mid, after, e);
    }
}

} // verus!
