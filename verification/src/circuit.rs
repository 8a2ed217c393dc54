//! The AND gates of a circuit, garbled one after the other.

use crate::bristol::parse_line;
use crate::bristol::AndWires;
use crate::bristol::LineError;
use crate::builder::BuilderError;
use crate::builder::ConstraintSystemBuilder;
use crate::builder::System;
use crate::garble::witness_table;
use crate::garble::Gate;
use crate::garble::Label;
use crate::garble::Output;
use crate::garble::Row;
use crate::garble::WitnessedGate;
use crate::garble::WitnessedLabel;
use crate::rng::RandomWords;
use crate::rng::WordSource;
use std::collections::BTreeMap;
use vstd::prelude::*;

verus! {

/// The two labels of a wire, and the oracles that hold them.
#[derive(Debug, Copy, Clone)]
pub struct Wire {
    pub labels: (Label, Label),
    pub witnessed: (WitnessedLabel, WitnessedLabel),
}

/// How many oracles it takes for wire `idx` to have labels, where the wires in
/// `known` have theirs.
pub open spec fn oracles_for(known: Set<usize>, idx: usize) -> nat {
    if known.contains(idx) {
        0
    } else {
        8
    }
}

/// The wires that have labels once those in `idxs` do, where those in `known`
/// had them before.
pub open spec fn wires_known(known: Set<usize>, idxs: Seq<usize>) -> Set<usize>
    decreases idxs.len(),
{
    if idxs.len() == 0 {
        known
    } else {
        wires_known(known, idxs.drop_last()).insert(idxs.last())
    }
}

/// How many oracles it takes for the wires in `idxs` to have labels, where those
/// in `known` have theirs.
pub open spec fn oracles_for_wires(known: Set<usize>, idxs: Seq<usize>) -> nat
    decreases idxs.len(),
{
    if idxs.len() == 0 {
        0
    } else {
        oracles_for_wires(known, idxs.drop_last()) + oracles_for(
            wires_known(known, idxs.drop_last()),
            idxs.last(),
        )
    }
}

/// How many oracles a line of a circuit file commits: those for the labels of
/// the wires that it names, and sixteen for the table of its gate.
pub open spec fn oracles_committed(known: Set<usize>, line: Seq<char>) -> nat {
    let words = crate::bristol::words(line);
    oracles_for_wires(known, crate::bristol::wires_read(words)) + (
    match crate::bristol::and_wires(words) {
        Ok(Some(_)) => 16nat,
        _ => 0,
    })
}

/// How many oracles it takes to garble the AND gate of a line: those that the line
/// commits, and sixteen for the compression of each row.
pub open spec fn oracles_for_line(known: Set<usize>, line: Seq<char>) -> nat {
    oracles_committed(known, line) + (
    match crate::bristol::and_wires(crate::bristol::words(line)) {
        Ok(Some(_)) => 64nat,
        _ => 0,
    })
}

/// The wires that have labels once these lines are garbled, where those in
/// `known` had them before.
pub open spec fn wires_after(known: Set<usize>, lines: Seq<Seq<char>>) -> Set<usize>
    decreases lines.len(),
{
    if lines.len() == 0 {
        known
    } else {
        wires_known(
            wires_after(known, lines.drop_last()),
            crate::bristol::wires_read(crate::bristol::words(lines.last())),
        )
    }
}

/// How many oracles it takes to garble the gates of these lines, where the wires
/// in `known` have labels.
pub open spec fn oracles_for_lines(known: Set<usize>, lines: Seq<Seq<char>>) -> nat
    decreases lines.len(),
{
    if lines.len() == 0 {
        0
    } else {
        oracles_for_lines(known, lines.drop_last()) + oracles_for_line(
            wires_after(known, lines.drop_last()),
            lines.last(),
        )
    }
}

/// Whether every line of a circuit file can be read.
pub open spec fn all_readable(lines: Seq<Seq<char>>) -> bool {
    forall|i: int|
        0 <= i < lines.len() ==> crate::bristol::and_wires(
            crate::bristol::words(#[trigger] lines[i]),
        ) is Ok
}

/// All that garbling a gate changes.
pub struct Scene {
    /// The wires that have labels, by index.
    pub wires: Map<usize, Wire>,
    pub system: System,
    /// The random words drawn.
    pub drawn: Seq<u32>,
}

impl Scene {
    /// Whether `wire` may be wire `idx`: it is the one that is there, or else
    /// its labels are next to be committed.
    pub open spec fn may_be(self, idx: usize, wire: Wire) -> bool {
        if self.wires.contains_key(idx) {
            wire == self.wires[idx]
        } else {
            &&& wire.labels.0.idx == idx && wire.labels.1.idx == idx
            &&& wire.witnessed.0._idx == idx && wire.witnessed.1._idx == idx
            &&& crate::garble::consecutive(wire.witnessed.0.label@, self.system.values.len())
            &&& crate::garble::consecutive(wire.witnessed.1.label@, self.system.values.len() + 4)
        }
    }

    /// What is left once wire `idx` is `wire`: nothing changes where it was
    /// there before, else its labels are drawn and committed.
    pub open spec fn with_wire(self, idx: usize, wire: Wire) -> Scene {
        if self.wires.contains_key(idx) {
            self
        } else {
            Scene {
                wires: self.wires.insert(idx, wire),
                system: crate::garble::committed(
                    crate::garble::committed(self.system, wire.labels.0.label@),
                    wire.labels.1.label@,
                ),
                drawn: self.drawn + wire.labels.0.label@ + wire.labels.1.label@,
            }
        }
    }

    /// Whether the wires in `idxs`, taken in order, may be as `named`.
    pub open spec fn may_be_wired(self, idxs: Seq<usize>, named: Map<usize, Wire>) -> bool
        decreases idxs.len(),
    {
        idxs.len() > 0 ==> {
            &&& self.may_be_wired(idxs.drop_last(), named)
            &&& self.wired(idxs.drop_last(), named).may_be(idxs.last(), named[idxs.last()])
        }
    }

    /// What is left once the wires in `idxs`, taken in order, are as `named`.
    pub open spec fn wired(self, idxs: Seq<usize>, named: Map<usize, Wire>) -> Scene
        decreases idxs.len(),
    {
        if idxs.len() == 0 {
            self
        } else {
            self.wired(idxs.drop_last(), named).with_wire(idxs.last(), named[idxs.last()])
        }
    }

    /// An AND gate on wires that have labels.
    pub open spec fn gate(self, wires: AndWires) -> Gate {
        Gate {
            left: self.wires[wires.left].labels,
            right: self.wires[wires.right].labels,
            out: self.wires[wires.out].labels,
        }
    }

    /// Whether `after` is what garbling a gate on wires that have labels leaves:
    /// its table, under the words drawn meanwhile, is committed, and as many of
    /// the rows as fit are constrained.
    pub open spec fn garbles_to(self, wires: AndWires, after: Scene) -> bool {
        let table = self.gate(wires).table(crate::rng::since(self.drawn, after.drawn));
        &&& after.wires == self.wires
        &&& crate::rng::drew(self.drawn, after.drawn, 48)
        &&& exists|witnessed: WitnessedGate| #[trigger]
            self.constrains_to(wires, table, witnessed, after.system)
    }

    /// Whether `after` is the system with `table` committed and as many of the
    /// rows of `witnessed`, which holds that table, constrained as fit.
    pub open spec fn constrains_to(
        self,
        wires: AndWires,
        table: Seq<Row>,
        witnessed: WitnessedGate,
        after: System,
    ) -> bool {
        let committed = crate::garble::committed_table(self.system, table);
        &&& witnessed.out == self.wires[wires.out].witnessed
        &&& crate::garble::holds_table(witnessed.output@, table, self.system.values.len())
        &&& after == witnessed.rows_constrained(committed, crate::garble::rows_that_fit(committed))
    }

    /// Whether a line of a circuit file leads to `after`, and is `refused` for
    /// that reason, if at all. The wires that it names before the first that is
    /// not an index have labels then. Where the line is that of an AND gate, its
    /// table is committed, and constrained as far as the oracles reach.
    pub open spec fn leads_to(
        self,
        line: Seq<char>,
        after: Scene,
        refused: Option<CircuitError>,
    ) -> bool {
        let words = crate::bristol::words(line);
        let ready = self.wired(crate::bristol::wires_read(words), after.wires);
        &&& self.may_be_wired(crate::bristol::wires_read(words), after.wires)
        &&& match crate::bristol::and_wires(words) {
            Ok(None) => after == ready && refused is None,
            Err(e) => after == ready && refused == Some(CircuitError::Line(e)),
            Ok(Some(wires)) => {
                &&& ready.garbles_to(wires, after)
                &&& refused == (if self.system.has_room(oracles_for_line(self.wires.dom(), line)) {
                    None
                } else {
                    Some(CircuitError::Builder(BuilderError::TooManyOracles))
                })
            },
        }
    }

    /// Whether the lines, one after the other and none of them refused, lead to
    /// `after`.
    pub open spec fn leads_through(self, lines: Seq<Seq<char>>, after: Scene) -> bool
        decreases lines.len(),
    {
        if lines.len() == 0 {
            after == self
        } else {
            exists|mid: Scene|
                self.leads_through(lines.drop_last(), mid) && #[trigger] mid.leads_to(
                    lines.last(),
                    after,
                    None,
                )
        }
    }

    /// Whether none of the lines is refused: all can be read, and there are
    /// oracles enough.
    pub open spec fn accepts(self, lines: Seq<Seq<char>>) -> bool {
        &&& all_readable(lines)
        &&& self.system.has_room(oracles_for_lines(self.wires.dom(), lines))
    }

    /// Whether there are oracles for what the lines commit, up to the first that
    /// is refused.
    pub open spec fn can_commit(self, lines: Seq<Seq<char>>) -> bool {
        forall|k: int|
            0 <= k < lines.len() && self.accepts(#[trigger] lines.take(k)) ==> self.system.has_room(
                oracles_for_lines(self.wires.dom(), lines.take(k)) + oracles_committed(
                    wires_after(self.wires.dom(), lines.take(k)),
                    lines[k],
                ),
            )
    }
}

/// Why a line of a circuit file is refused.
#[derive(Debug, Copy, Clone, PartialEq, Eq, Structural)]
pub enum CircuitError {
    /// The line cannot be read.
    Line(LineError),
    /// The oracles ran out before every row was constrained.
    Builder(BuilderError),
}

/// The reason for which `result` refuses, if it does.
pub open spec fn refusal(result: Result<(), CircuitError>) -> Option<CircuitError> {
    match result {
        Ok(()) => None,
        Err(e) => Some(e),
    }
}

/// The wires of a circuit that have labels so far.
pub struct WireTable {
    wires: BTreeMap<usize, Wire>,
}

impl View for WireTable {
    type V = Map<usize, Wire>;

    closed spec fn view(&self) -> Map<usize, Wire> {
        self.wires@
    }
}

impl WireTable {
    /// A table without wires.
    pub fn new() -> (table: Self)
        ensures
            table@ == Map::<usize, Wire>::empty(),
    {
        WireTable { wires: BTreeMap::new() }
    }

    /// The labels of wire `idx`. At the first use of a wire they are drawn and
    /// committed, and every later use finds them again.
    pub fn witness_wire<R: RandomWords>(
        &mut self,
        idx: usize,
        builder: &mut ConstraintSystemBuilder,
        rng: &mut WordSource<R>,
    ) -> (wire: Wire)
        requires
            !old(self)@.contains_key(idx) ==> old(builder)@.has_room(8),
        ensures
            ({
                let before = Scene { wires: old(self)@, system: old(builder)@, drawn: old(rng)@ };
                let after = Scene {
                    wires: final(self)@,
                    system: final(builder)@,
                    drawn: final(rng)@,
                };
                before.may_be(idx, wire) && after == before.with_wire(idx, wire)
            }),
    {
        if let Some(wire) = self.wires.get(&idx) {
            return *wire;
        }
        let labels = (Label::random(idx, rng), Label::random(idx, rng));
        let first = labels.0.witness(builder);
        proof {
            crate::garble::lemma_committed(old(builder)@, labels.0.label@);
        }
        let second = labels.1.witness(builder);
        let wire = Wire { labels, witnessed: (first, second) };
        self.wires.insert(idx, wire);
        wire
    }
}

/// Giving wires labels takes as many oracles as were counted.
pub proof fn lemma_wires_room(scene: Scene, idxs: Seq<usize>, named: Map<usize, Wire>)
    ensures
        scene.wired(idxs, named).system.limit == scene.system.limit,
        scene.wired(idxs, named).system.values.len() == scene.system.values.len()
            + oracles_for_wires(scene.wires.dom(), idxs),
        scene.wired(idxs, named).wires.dom() == wires_known(scene.wires.dom(), idxs),
    decreases idxs.len(),
{
    if idxs.len() > 0 {
        let mid = scene.wired(idxs.drop_last(), named);
        let wire = named[idxs.last()];
        lemma_wires_room(scene, idxs.drop_last(), named);
        crate::garble::lemma_committed(mid.system, wire.labels.0.label@);
        crate::garble::lemma_committed(
            crate::garble::committed(mid.system, wire.labels.0.label@),
            wire.labels.1.label@,
        );
        assert(scene.wired(idxs, named).wires.dom() == mid.wires.dom().insert(idxs.last()));
    }
}

/// One, two and three wires, taken in order.
pub proof fn lemma_few_wires(scene: Scene, a: usize, b: usize, c: usize, named: Map<usize, Wire>)
    ensures
        scene.wired(seq![], named) == scene,
        scene.may_be_wired(seq![], named),
        scene.wired(seq![a], named) == scene.with_wire(a, named[a]),
        scene.may_be_wired(seq![a], named) == scene.may_be(a, named[a]),
        scene.wired(seq![a, b], named) == scene.wired(seq![a], named).with_wire(b, named[b]),
        scene.may_be_wired(seq![a, b], named) == (scene.may_be_wired(seq![a], named)
            && scene.wired(seq![a], named).may_be(b, named[b])),
        scene.wired(seq![a, b, c], named) == scene.wired(seq![a, b], named).with_wire(c, named[c]),
        scene.may_be_wired(seq![a, b, c], named) == (scene.may_be_wired(seq![a, b], named)
            && scene.wired(seq![a, b], named).may_be(c, named[c])),
        oracles_for_wires(scene.wires.dom(), seq![a]) == oracles_for(scene.wires.dom(), a),
        oracles_for_wires(scene.wires.dom(), seq![a, b]) == oracles_for_wires(
            scene.wires.dom(),
            seq![a],
        ) + oracles_for(wires_known(scene.wires.dom(), seq![a]), b),
        oracles_for_wires(scene.wires.dom(), seq![a, b, c]) == oracles_for_wires(
            scene.wires.dom(),
            seq![a, b],
        ) + oracles_for(wires_known(scene.wires.dom(), seq![a, b]), c),
{
    assert(seq![a].drop_last() == Seq::<usize>::empty());
    assert(seq![a, b].drop_last() == seq![a]);
    assert(seq![a, b, c].drop_last() == seq![a, b]);
    reveal_with_fuel(Scene::wired, 2);
    reveal_with_fuel(Scene::may_be_wired, 2);
    reveal_with_fuel(oracles_for_wires, 2);
    reveal_with_fuel(wires_known, 2);
}

/// A line that is not refused takes as many oracles as were counted, and the
/// wires that it names have labels then.
proof fn lemma_line_room(before: Scene, line: Seq<char>, after: Scene)
    requires
        before.leads_to(line, after, None),
    ensures
        after.system.limit == before.system.limit,
        after.system.values.len() == before.system.values.len() + oracles_for_line(
            before.wires.dom(),
            line,
        ),
        after.wires.dom() == wires_known(
            before.wires.dom(),
            crate::bristol::wires_read(crate::bristol::words(line)),
        ),
{
    let words = crate::bristol::words(line);
    let idxs = crate::bristol::wires_read(words);
    let ready = before.wired(idxs, after.wires);
    lemma_wires_room(before, idxs, after.wires);
    if let Ok(Some(wires)) = crate::bristol::and_wires(words) {
        let table = ready.gate(wires).table(crate::rng::since(ready.drawn, after.drawn));
        let witnessed = choose|witnessed: WitnessedGate| #[trigger]
            ready.constrains_to(wires, table, witnessed, after.system);
        let committed = crate::garble::committed_table(ready.system, table);
        crate::garble::lemma_committed_table(ready.system, table);
        assert(committed.has_room(64));
        crate::garble::lemma_rows_constrained(witnessed, committed, 4);
    }
}

/// Lines that are not refused take as many oracles as were counted, and the wires
/// that they name have labels then.
proof fn lemma_lines_room(before: Scene, lines: Seq<Seq<char>>, after: Scene)
    requires
        before.leads_through(lines, after),
    ensures
        after.system.limit == before.system.limit,
        after.system.values.len() == before.system.values.len() + oracles_for_lines(
            before.wires.dom(),
            lines,
        ),
        after.wires.dom() == wires_after(before.wires.dom(), lines),
    decreases lines.len(),
{
    if lines.len() > 0 {
        let mid = choose|mid: Scene|
            before.leads_through(lines.drop_last(), mid) && #[trigger] mid.leads_to(
                lines.last(),
                after,
                None,
            );
        lemma_lines_room(before, lines.drop_last(), mid);
        lemma_line_room(mid, lines.last(), after);
    }
}

/// More lines take no fewer oracles.
proof fn lemma_lines_grow(known: Set<usize>, lines: Seq<Seq<char>>, k: int)
    requires
        0 <= k <= lines.len(),
    ensures
        oracles_for_lines(known, lines.take(k)) <= oracles_for_lines(known, lines),
    decreases lines.len(),
{
    if k < lines.len() {
        lemma_lines_grow(known, lines.drop_last(), k);
        assert(lines.drop_last().take(k) == lines.take(k));
    } else {
        assert(lines.take(k) == lines);
    }
}

/// Where every line so far is accepted, there are oracles for what the next line
/// commits.
proof fn lemma_next_commits(before: Scene, lines: Seq<Seq<char>>, k: int, scene: Scene)
    requires
        0 <= k < lines.len(),
        before.can_commit(lines),
        before.accepts(lines.take(k)),
        before.leads_through(lines.take(k), scene),
    ensures
        scene.system.has_room(oracles_committed(scene.wires.dom(), lines[k])),
{
    lemma_lines_room(before, lines.take(k), scene);
}

/// A line that is not refused leads one line further.
pub proof fn lemma_line_accepted(
    before: Scene,
    lines: Seq<Seq<char>>,
    k: int,
    scene: Scene,
    next: Scene,
)
    requires
        0 <= k < lines.len(),
        before.leads_through(lines.take(k), scene),
        before.accepts(lines.take(k)),
        scene.leads_to(lines[k], next, None),
    ensures
        before.leads_through(lines.take(k + 1), next),
        before.accepts(lines.take(k + 1)),
{
    let more = lines.take(k + 1);
    assert(more.drop_last() == lines.take(k));
    assert(more.last() == lines[k]);
    assert(scene.leads_to(more.last(), next, None));
    lemma_lines_room(before, lines.take(k), scene);
    assert forall|j: int| 0 <= j < more.len() implies crate::bristol::and_wires(
        crate::bristol::words(#[trigger] more[j]),
    ) is Ok by {
        if j < k {
            assert(lines.take(k)[j] == more[j]);
        }
    }
}

/// Where one line is refused, not all are accepted.
pub proof fn lemma_line_refused(
    before: Scene,
    lines: Seq<Seq<char>>,
    k: int,
    scene: Scene,
    next: Scene,
    e: CircuitError,
)
    requires
        0 <= k < lines.len(),
        before.leads_through(lines.take(k), scene),
        scene.leads_to(lines[k], next, Some(e)),
    ensures
        !before.accepts(lines),
{
    let known = before.wires.dom();
    let more = lines.take(k + 1);
    assert(more.drop_last() == lines.take(k));
    assert(more.last() == lines[k]);
    lemma_lines_room(before, lines.take(k), scene);
    lemma_lines_grow(known, lines, k + 1);
    assert(oracles_for_lines(known, more) == oracles_for_lines(known, lines.take(k))
        + oracles_for_line(scene.wires.dom(), lines[k]));
}

/// Garbles an AND gate: gives its wires labels where they have none, commits the
/// garbling table and constrains it. Rows that fit before the oracles run out
/// stay constrained.
pub fn garble_gate<R: RandomWords>(
    wires: AndWires,
    table: &mut WireTable,
    builder: &mut ConstraintSystemBuilder,
    rng: &mut WordSource<R>,
) -> (result: Result<(), BuilderError>)
    requires
        old(builder)@.has_room(
            oracles_for_wires(old(table)@.dom(), seq![wires.left, wires.right, wires.out]) + 16,
        ),
    ensures
        ({
            let before = Scene { wires: old(table)@, system: old(builder)@, drawn: old(rng)@ };
            let after = Scene { wires: final(table)@, system: final(builder)@, drawn: final(rng)@ };
            let idxs = seq![wires.left, wires.right, wires.out];
            &&& before.may_be_wired(idxs, after.wires)
            &&& before.wired(idxs, after.wires).garbles_to(wires, after)
            &&& result is Ok <==> before.system.has_room(
                oracles_for_wires(before.wires.dom(), idxs) + 16 + 64,
            )
            &&& result is Err ==> result == Err::<(), _>(BuilderError::TooManyOracles)
        }),
{
    let ghost before = Scene { wires: table@, system: builder@, drawn: rng@ };
    proof {
        lemma_few_wires(before, wires.left, wires.right, wires.out, table@);
    }
    let left = table.witness_wire(wires.left, builder, rng);
    proof {
        lemma_few_wires(before, wires.left, wires.right, wires.out, table@);
        lemma_wires_room(before, seq![wires.left], table@);
    }
    let right = table.witness_wire(wires.right, builder, rng);
    proof {
        lemma_few_wires(before, wires.left, wires.right, wires.out, table@);
        lemma_wires_room(before, seq![wires.left, wires.right], table@);
    }
    let out = table.witness_wire(wires.out, builder, rng);
    let ghost ready = Scene { wires: table@, system: builder@, drawn: rng@ };
    proof {
        lemma_few_wires(before, wires.left, wires.right, wires.out, table@);
        lemma_wires_room(before, seq![wires.left, wires.right, wires.out], table@);
        assert(ready == before.wired(seq![wires.left, wires.right, wires.out], table@));
    }
    let gate = Gate { left: left.labels, right: right.labels, out: out.labels };
    let outputs = gate.garble_and_gate(rng);
    let ghost rows = outputs@.map_values(|o: Output| o@);
    let output = witness_table(&outputs, builder);
    proof {
        crate::garble::lemma_committed_table(ready.system, rows);
    }
    let witnessed_gate = WitnessedGate { out: out.witnessed, output };
    let result = witnessed_gate.garble_and_gate(builder);
    proof {
        let after = Scene { wires: table@, system: builder@, drawn: rng@ };
        assert(ready.gate(wires) == gate);
        assert(rows == gate.table(crate::rng::since(ready.drawn, after.drawn)));
        assert(ready.constrains_to(
            wires,
            ready.gate(wires).table(crate::rng::since(ready.drawn, after.drawn)),
            witnessed_gate,
            after.system,
        ));
        assert(ready.garbles_to(wires, after));
    }
    result
}

/// Garbles the AND gate that a line of a circuit file stands for. Any other line
/// changes nothing. Where a wire is not an index, those that the line names
/// before it have labels all the same.
pub fn garble_line<R: RandomWords>(
    line: &str,
    table: &mut WireTable,
    builder: &mut ConstraintSystemBuilder,
    rng: &mut WordSource<R>,
) -> (result: Result<(), CircuitError>)
    requires
        crate::bristol::is_complete(crate::bristol::words(line@)),
        old(builder)@.has_room(oracles_committed(old(table)@.dom(), line@)),
    ensures
        ({
            let before = Scene { wires: old(table)@, system: old(builder)@, drawn: old(rng)@ };
            let after = Scene { wires: final(table)@, system: final(builder)@, drawn: final(rng)@ };
            before.leads_to(line@, after, refusal(result))
        }),
{
    let ghost before = Scene { wires: table@, system: builder@, drawn: rng@ };
    match parse_line(line) {
        Ok(None) => {
            proof {
                lemma_few_wires(before, 0, 0, 0, table@);
            }
            Ok(())
        },
        Err(LineError::InvalidLeft) => {
            proof {
                lemma_few_wires(before, 0, 0, 0, table@);
            }
            Err(CircuitError::Line(LineError::InvalidLeft))
        },
        Err(LineError::InvalidRight { left }) => {
            proof {
                lemma_few_wires(before, left, 0, 0, table@);
            }
            table.witness_wire(left, builder, rng);
            proof {
                lemma_few_wires(before, left, 0, 0, table@);
            }
            Err(CircuitError::Line(LineError::InvalidRight { left }))
        },
        Err(LineError::InvalidOut { left, right }) => {
            proof {
                lemma_few_wires(before, left, right, 0, table@);
            }
            table.witness_wire(left, builder, rng);
            proof {
                lemma_few_wires(before, left, right, 0, table@);
                lemma_wires_room(before, seq![left], table@);
            }
            table.witness_wire(right, builder, rng);
            proof {
                lemma_few_wires(before, left, right, 0, table@);
            }
            Err(CircuitError::Line(LineError::InvalidOut { left, right }))
        },
        Ok(Some(wires)) => match garble_gate(wires, table, builder, rng) {
            Ok(()) => Ok(()),
            Err(e) => Err(CircuitError::Builder(e)),
        },
    }
}

/// Garbles the AND gates of a circuit file, line by line, up to the first line
/// that is refused.
pub fn garble_circuit<R: RandomWords>(
    lines: &Vec<String>,
    table: &mut WireTable,
    builder: &mut ConstraintSystemBuilder,
    rng: &mut WordSource<R>,
) -> (result: Result<(), CircuitError>)
    requires
        forall|i: int|
            0 <= i < lines@.len() ==> crate::bristol::is_complete(
                crate::bristol::words(#[trigger] lines@[i]@),
            ),
        (Scene { wires: old(table)@, system: old(builder)@, drawn: old(rng)@ }).can_commit(
            lines@.map_values(|l: String| l@),
        ),
    ensures
        ({
            let before = Scene { wires: old(table)@, system: old(builder)@, drawn: old(rng)@ };
            let after = Scene { wires: final(table)@, system: final(builder)@, drawn: final(rng)@ };
            let texts = lines@.map_values(|l: String| l@);
            &&& result is Ok <==> before.accepts(texts)
            &&& result is Ok ==> before.leads_through(texts, after)
            &&& result is Err ==> exists|k: int, mid: Scene|
                0 <= k < texts.len() && before.leads_through(texts.take(k), mid)
                    && #[trigger] mid.leads_to(texts[k], after, refusal(result))
        }),
{
    let ghost before = Scene { wires: table@, system: builder@, drawn: rng@ };
    let ghost texts = lines@.map_values(|l: String| l@);
    let ghost mut scene = before;
    assert(texts.take(0) == Seq::<Seq<char>>::empty());
    for i in 0..lines.len()
        invariant
            forall|k: int|
                0 <= k < lines@.len() ==> crate::bristol::is_complete(
                    crate::bristol::words(#[trigger] lines@[k]@),
                ),
            texts == lines@.map_values(|l: String| l@),
            before == (Scene { wires: old(table)@, system: old(builder)@, drawn: old(rng)@ }),
            before.can_commit(texts),
            scene == (Scene { wires: table@, system: builder@, drawn: rng@ }),
            before.leads_through(texts.take(i as int), scene),
            before.accepts(texts.take(i as int)),
    {
        proof {
            lemma_next_commits(before, texts, i as int, scene);
        }
        let result = garble_line(lines[i].as_str(), table, builder, rng);
        let ghost next = Scene { wires: table@, system: builder@, drawn: rng@ };
        match result {
            Ok(()) => {
                proof {
                    lemma_line_accepted(before, texts, i as int, scene, next);
                    scene = next;
                }
            },
            Err(e) => {
                proof {
                    lemma_line_refused(before, texts, i as int, scene, next, e);
                }
                return Err(e);
            },
        }
    }
    assert(texts.take(texts.len() as int) == texts);
    Ok(())
}

} // verus!
