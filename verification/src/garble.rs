//! Garbled AND gates, natively and in a constraint system.

use crate::blake3::Blake3CompressState;
use crate::blake3::CompressInput;
use crate::builder::ArithExpr;
use crate::builder::BuilderError;
use crate::builder::ConstraintSystemBuilder;
use crate::builder::OracleId;
use crate::builder::StepView;
use crate::builder::System;
use crate::rng::RandomWords;
use crate::rng::WordSource;
use vstd::prelude::*;

verus! {

/// The words of `a` and `b`, combined by the bitwise exclusive or.
pub open spec fn xored(a: Seq<u32>, b: Seq<u32>) -> Seq<u32> {
    Seq::new(a.len(), |i: int| a[i] ^ b[i])
}

/// Whether `ids` are the oracles from `first` on.
pub open spec fn consecutive(ids: Seq<usize>, first: nat) -> bool {
    forall|i: int| 0 <= i < ids.len() ==> #[trigger] ids[i] == first + i
}

/// The system `s` with an unnamed committed oracle for each of `words`.
pub open spec fn committed(s: System, words: Seq<u32>) -> System
    decreases words.len(),
{
    if words.len() == 0 {
        s
    } else {
        committed(s, words.drop_last()).fixed(""@, words.last())
    }
}

/// Whether `t` is `s` with nothing behind it but committed oracles.
pub open spec fn only_commits(s: System, t: System) -> bool {
    &&& t.extends(s)
    &&& forall|i: int|
        #![trigger t.steps[i]]
        s.steps.len() <= i < t.steps.len() ==> t.steps[i] is Fixed && t.step_holds(t.steps[i])
}

/// Committing words puts them behind the witness, and does nothing else.
pub proof fn lemma_committed(s: System, words: Seq<u32>)
    ensures
        committed(s, words).values == s.values + words,
        committed(s, words).steps.len() == s.steps.len() + words.len(),
        only_commits(s, committed(s, words)),
    decreases words.len(),
{
    if words.len() > 0 {
        let mid = committed(s, words.drop_last());
        lemma_committed(s, words.drop_last());
        assert(committed(s, words).extends(mid));
        crate::builder::lemma_extends_trans(s, mid, committed(s, words));
        assert(s.values + words.drop_last().push(words.last()) == s.values + words) by {
            assert(words.drop_last().push(words.last()) == words);
        }
    } else {
        assert(s.extends(s));
    }
}

/// Commits four words, in order.
fn commit_words(builder: &mut ConstraintSystemBuilder, words: &[u32; 4]) -> (ids: [OracleId; 4])
    requires
        old(builder)@.has_room(4),
    ensures
        final(builder)@ == committed(old(builder)@, words@),
        consecutive(ids@, old(builder)@.values.len()),
{
    let mut ids: [OracleId; 4] = [0; 4];
    assert(words@.take(0) == Seq::<u32>::empty());
    for i in 0..4usize
        invariant
            old(builder)@.has_room(4),
            builder@ == committed(old(builder)@, words@.take(i as int)),
            forall|k: int| 0 <= k < i ==> #[trigger] ids@[k] == old(builder)@.values.len() + k,
    {
        proof {
            lemma_committed(old(builder)@, words@.take(i as int));
            assert(words@.take(i + 1).drop_last() == words@.take(i as int));
        }
        ids[i] = builder.fixed_u32("", words[i]).unwrap();
    }
    assert(words@.take(4) == words@);
    ids
}

/// A 128-bit label for a wire
#[derive(Debug, Copy, Clone)]
pub struct Label {
    pub idx: usize,
    pub label: [u32; 4],
}

/// A label whose words are oracles of a constraint system.
#[derive(Debug, Copy, Clone)]
pub struct WitnessedLabel {
    pub _idx: usize,
    pub label: [OracleId; 4],
}

impl Label {
    /// A label for wire `idx` of four words drawn from `rng`.
    pub fn random<R: RandomWords>(idx: usize, rng: &mut WordSource<R>) -> (label: Self)
        ensures
            label.idx == idx,
            final(rng)@ == old(rng)@ + label.label@,
    {
        let label: [u32; 4] = rng.draw_words();
        Label { idx, label }
    }

    /// Whether `witnessed` is this label, with its words committed on top of `s`.
    pub open spec fn witnessed_as(self, s: System, witnessed: WitnessedLabel) -> bool {
        &&& witnessed._idx == self.idx
        &&& consecutive(witnessed.label@, s.values.len())
    }

    /// Commits the words of the label.
    pub fn witness(&self, builder: &mut ConstraintSystemBuilder) -> (witnessed: WitnessedLabel)
        requires
            old(builder)@.has_room(4),
        ensures
            final(builder)@ == committed(old(builder)@, self.label@),
            self.witnessed_as(old(builder)@, witnessed),
    {
        let label = commit_words(builder, &self.label);
        WitnessedLabel { _idx: self.idx, label }
    }
}

/// A 128-bit output in a garbling table
#[derive(Debug, Copy, Clone)]
pub struct Output(pub Blake3CompressState, pub [u32; 4]);

/// An output whose words are oracles of a constraint system.
#[derive(Debug, Copy, Clone)]
pub struct WitnessedOutput(pub Blake3CompressState, pub [OracleId; 4]);

/// A row of a garbling table, over mathematical sequences.
pub struct Row {
    /// What was compressed to mask the row.
    pub state: CompressInput,
    /// The masked output label.
    pub words: Seq<u32>,
}

impl View for Output {
    type V = Row;

    open spec fn view(&self) -> Row {
        Row { state: self.0@, words: self.1@ }
    }
}

impl Output {
    /// Whether `witnessed` is this output, with its words committed on top of `s`.
    pub open spec fn witnessed_as(self, s: System, witnessed: WitnessedOutput) -> bool {
        &&& witnessed.0 == self.0
        &&& consecutive(witnessed.1@, s.values.len())
    }

    /// Commits the words of the output.
    pub fn witness(&self, builder: &mut ConstraintSystemBuilder) -> (witnessed: WitnessedOutput)
        requires
            old(builder)@.has_room(4),
        ensures
            final(builder)@ == committed(old(builder)@, self@.words),
            self.witnessed_as(old(builder)@, witnessed),
    {
        let ids = commit_words(builder, &self.1);
        WitnessedOutput(self.0, ids)
    }
}

/// The label that stands for `bit` on a wire with these two labels.
pub open spec fn label_of(wire: (Label, Label), bit: bool) -> Seq<u32> {
    if bit {
        wire.1.label@
    } else {
        wire.0.label@
    }
}

/// The message block that masks a row: the labels of both inputs, then zeros.
pub open spec fn row_block(left: Seq<u32>, right: Seq<u32>) -> Seq<u32> {
    left + right + Seq::new(8, |i: int| 0u32)
}

/// The row that hides the label `out` behind the labels `left` and `right`,
/// with twelve words of chance.
pub open spec fn garbled_row(
    left: Seq<u32>,
    right: Seq<u32>,
    out: Seq<u32>,
    words: Seq<u32>,
) -> Row {
    let state = crate::blake3::input_from_words(row_block(left, right), words);
    Row { state, words: xored(crate::blake3::compression(state).take(4), out) }
}

/// The first eight words are the two labels, the others are zero.
fn block_of(left: &[u32; 4], right: &[u32; 4]) -> (block: [u32; 16])
    ensures
        block@ == row_block(left@, right@),
{
    let mut block: [u32; 16] = [0; 16];
    for i in 0..4usize
        invariant
            forall|k: int| 0 <= k < i ==> #[trigger] block@[k] == left@[k],
            forall|k: int| 4 <= k < 4 + i ==> #[trigger] block@[k] == right@[k - 4],
            forall|k: int| 8 <= k < 16 ==> #[trigger] block@[k] == 0,
    {
        block[i] = left[i];
        block[i + 4] = right[i];
    }
    block
}

/// hash(left, right) XOR out
fn garble_row(left: &Label, right: &Label, out: &Label, words: &[u32; 12]) -> (output: Output)
    ensures
        output@ == garbled_row(left.label@, right.label@, out.label@, words@),
{
    let state = Blake3CompressState::from_words(block_of(&left.label, &right.label), words);
    let hash = state.compress();
    let masked = [
        hash[0] ^ out.label[0],
        hash[1] ^ out.label[1],
        hash[2] ^ out.label[2],
        hash[3] ^ out.label[3],
    ];
    let output = Output(state, masked);
    assert(output@.words == xored(crate::blake3::compression(state@).take(4), out.label@));
    output
}

/// The four words that the label at `place` takes.
fn label_words(words: &[u32; 24], place: usize) -> (picked: [u32; 4])
    requires
        place < 6,
    ensures
        picked@ == words@.subrange(4 * place as int, 4 * place + 4),
{
    let picked = [
        words[4 * place],
        words[4 * place + 1],
        words[4 * place + 2],
        words[4 * place + 3],
    ];
    assert(picked@ == words@.subrange(4 * place as int, 4 * place + 4));
    picked
}

/// The twelve words of chance that row `row` takes.
fn row_words(words: &[u32; 48], row: usize) -> (picked: [u32; 12])
    requires
        row < 4,
    ensures
        picked@ == words@.subrange(12 * row as int, 12 * row + 12),
{
    let mut picked: [u32; 12] = [0; 12];
    for i in 0..12usize
        invariant
            row < 4,
            forall|k: int| 0 <= k < i ==> #[trigger] picked@[k] == words@[12 * row + k],
    {
        picked[i] = words[12 * row + i];
    }
    picked
}

/// A gate with left, right, and output wires
#[derive(Debug, Copy, Clone)]
pub struct Gate {
    pub left: (Label, Label),
    pub right: (Label, Label),
    pub out: (Label, Label),
}

impl Gate {
    /// The row for the input bits `a` and `b`: it hides the output label of
    /// their conjunction.
    pub open spec fn row(self, a: bool, b: bool, words: Seq<u32>) -> Row {
        garbled_row(label_of(self.left, a), label_of(self.right, b), label_of(self.out, a && b), words)
    }

    /// The garbling table under 48 words of chance, twelve for each row.
    pub open spec fn table(self, words: Seq<u32>) -> Seq<Row> {
        seq![
            self.row(false, false, words.subrange(0, 12)),
            self.row(false, true, words.subrange(12, 24)),
            self.row(true, false, words.subrange(24, 36)),
            self.row(true, true, words.subrange(36, 48)),
        ]
    }

    /// Whether this is a gate on the wires `left`, `right` and `out`, with the
    /// labels that `words` make up, four words for each, in order.
    pub open spec fn labelled(
        self,
        left: usize,
        right: usize,
        out: usize,
        words: Seq<u32>,
    ) -> bool {
        &&& self.left.0.idx == left && self.left.1.idx == left
        &&& self.right.0.idx == right && self.right.1.idx == right
        &&& self.out.0.idx == out && self.out.1.idx == out
        &&& self.left.0.label@ == words.subrange(0, 4)
        &&& self.left.1.label@ == words.subrange(4, 8)
        &&& self.right.0.label@ == words.subrange(8, 12)
        &&& self.right.1.label@ == words.subrange(12, 16)
        &&& self.out.0.label@ == words.subrange(16, 20)
        &&& self.out.1.label@ == words.subrange(20, 24)
    }

    /// The system `s` with the output labels and the table under these words of
    /// chance committed.
    pub open spec fn committed_on(self, s: System, words: Seq<u32>) -> System {
        committed_table(
            committed(committed(s, self.out.0.label@), self.out.1.label@),
            self.table(words),
        )
    }

    /// Whether `witnessed` is this gate, with the output labels and the table
    /// under these words of chance committed on top of `s`.
    pub open spec fn witnessed_as(
        self,
        s: System,
        words: Seq<u32>,
        witnessed: WitnessedGate,
    ) -> bool {
        &&& witnessed.out.0._idx == self.out.0.idx
        &&& witnessed.out.1._idx == self.out.1.idx
        &&& consecutive(witnessed.out.0.label@, s.values.len())
        &&& consecutive(witnessed.out.1.label@, s.values.len() + 4)
        &&& holds_table(witnessed.output@, self.table(words), s.values.len() + 8)
    }

    /// Generate wire labels for a gate
    pub fn generate_labels<R: RandomWords>(
        left: usize,
        right: usize,
        out: usize,
        rng: &mut WordSource<R>,
    ) -> (gate: Self)
        ensures
            crate::rng::drew(old(rng)@, final(rng)@, 24),
            gate.labelled(left, right, out, crate::rng::since(old(rng)@, final(rng)@)),
            final(rng)@ == old(rng)@ + gate.left.0.label@ + gate.left.1.label@ + gate.right.0.label@
                + gate.right.1.label@ + gate.out.0.label@ + gate.out.1.label@,
    {
        let words: [u32; 24] = rng.draw_words();
        assert(rng@.take(old(rng)@.len() as int) == old(rng)@);
        assert(crate::rng::since(old(rng)@, rng@) == words@);
        let gate = Self::labels_from_words(left, right, out, &words);
        assert(rng@ == old(rng)@ + gate.left.0.label@ + gate.left.1.label@ + gate.right.0.label@
            + gate.right.1.label@ + gate.out.0.label@ + gate.out.1.label@);
        gate
    }

    /// Make up the wire labels of a gate from given words, four for each label.
    pub fn labels_from_words(left: usize, right: usize, out: usize, words: &[u32; 24]) -> (gate:
        Gate)
        ensures
            gate.labelled(left, right, out, words@),
    {
        let left = (
            Label { idx: left, label: label_words(words, 0) },
            Label { idx: left, label: label_words(words, 1) },
        );
        let right = (
            Label { idx: right, label: label_words(words, 2) },
            Label { idx: right, label: label_words(words, 3) },
        );
        let out = (
            Label { idx: out, label: label_words(words, 4) },
            Label { idx: out, label: label_words(words, 5) },
        );

        Gate { left, right, out }
    }

    /// Garble the output values of an AND gate
    ///
    /// Left | Right | Out
    ///   0  |   0   |  0
    ///   0  |   1   |  0
    ///   1  |   0   |  0
    ///   1  |   1   |  1
    pub fn garble_and_gate<R: RandomWords>(&self, rng: &mut WordSource<R>) -> (table: [Output; 4])
        ensures
            crate::rng::drew(old(rng)@, final(rng)@, 48),
            table@.map_values(|o: Output| o@) == self.table(
                crate::rng::since(old(rng)@, final(rng)@),
            ),
    {
        let words: [u32; 48] = rng.draw_words();
        assert(rng@.take(old(rng)@.len() as int) == old(rng)@);
        assert(crate::rng::since(old(rng)@, rng@) == words@);
        self.garble_with_words(&words)
    }

    /// Garble the output values of an AND gate under given words of chance,
    /// twelve for each row.
    pub fn garble_with_words(&self, words: &[u32; 48]) -> (table: [Output; 4])
        ensures
            table@.map_values(|o: Output| o@) == self.table(words@),
    {
        let output_0 = garble_row(&self.left.0, &self.right.0, &self.out.0, &row_words(words, 0));
        let output_1 = garble_row(&self.left.0, &self.right.1, &self.out.0, &row_words(words, 1));
        let output_2 = garble_row(&self.left.1, &self.right.0, &self.out.0, &row_words(words, 2));
        let output_3 = garble_row(&self.left.1, &self.right.1, &self.out.1, &row_words(words, 3));

        [output_0, output_1, output_2, output_3]
    }

    /// Commits the labels of the output wire, garbles, and commits the garbling
    /// table.
    pub fn witness<R: RandomWords>(
        &self,
        builder: &mut ConstraintSystemBuilder,
        rng: &mut WordSource<R>,
    ) -> (witnessed: WitnessedGate)
        requires
            old(builder)@.has_room(24),
        ensures
            crate::rng::drew(old(rng)@, final(rng)@, 48),
            final(builder)@ == self.committed_on(
                old(builder)@,
                crate::rng::since(old(rng)@, final(rng)@),
            ),
            self.witnessed_as(
                old(builder)@,
                crate::rng::since(old(rng)@, final(rng)@),
                witnessed,
            ),
    {
        let words: [u32; 48] = rng.draw_words();
        assert(rng@.take(old(rng)@.len() as int) == old(rng)@);
        assert(crate::rng::since(old(rng)@, rng@) == words@);
        self.witness_with_words(builder, &words)
    }

    /// Commits the labels of the output wire, garbles under given words of
    /// chance, and commits the garbling table.
    pub fn witness_with_words(
        &self,
        builder: &mut ConstraintSystemBuilder,
        words: &[u32; 48],
    ) -> (witnessed: WitnessedGate)
        requires
            old(builder)@.has_room(24),
        ensures
            final(builder)@ == self.committed_on(old(builder)@, words@),
            self.witnessed_as(old(builder)@, words@, witnessed),
    {
        let ghost s0 = builder@;
        let first = self.out.0.witness(builder);
        proof {
            lemma_committed(s0, self.out.0.label@);
        }
        let ghost s1 = builder@;
        let second = self.out.1.witness(builder);
        proof {
            lemma_committed(s1, self.out.1.label@);
        }
        let out = (first, second);
        let table = self.garble_with_words(words);
        let output = witness_table(&table, builder);
        WitnessedGate { out, output }
    }
}

/// The system `s` with the words of every row committed, row by row.
pub open spec fn committed_table(s: System, table: Seq<Row>) -> System
    decreases table.len(),
{
    if table.len() == 0 {
        s
    } else {
        committed(committed_table(s, table.drop_last()), table.last().words)
    }
}

/// Committing a table puts the words of its rows behind the witness, row by row,
/// and does nothing else.
pub proof fn lemma_committed_table(s: System, table: Seq<Row>)
    requires
        forall|r: int| 0 <= r < table.len() ==> (#[trigger] table[r]).words.len() == 4,
    ensures
        ({
            let t = committed_table(s, table);
            &&& t.values.len() == s.values.len() + 4 * table.len()
            &&& only_commits(s, t)
            &&& forall|r: int|
                #![trigger table[r]]
                0 <= r < table.len() ==> t.values.subrange(
                    s.values.len() + 4 * r,
                    s.values.len() + 4 * r + 4,
                ) == table[r].words
        }),
    decreases table.len(),
{
    if table.len() > 0 {
        let init = table.drop_last();
        let mid = committed_table(s, init);
        let t = committed_table(s, table);
        assert forall|r: int| 0 <= r < init.len() implies (#[trigger] init[r]).words.len() == 4 by {
            assert(init[r] == table[r]);
        }
        lemma_committed_table(s, init);
        lemma_committed(mid, table.last().words);
        crate::builder::lemma_extends_trans(s, mid, t);
        crate::builder::lemma_extends_agrees(mid, t);
        assert forall|r: int|
            #![trigger table[r]]
            0 <= r < table.len() implies t.values.subrange(
            s.values.len() + 4 * r,
            s.values.len() + 4 * r + 4,
        ) == table[r].words by {
            let from = s.values.len() + 4 * r;
            if r < init.len() {
                assert(init[r] == table[r]);
                assert(t.values.subrange(from, from + 4) == mid.values.subrange(from, from + 4));
            } else {
                assert(t.values.subrange(from, from + 4) == table[r].words);
            }
        }
    } else {
        assert(s.extends(s));
    }
}

/// Committing a table is committing its four rows in order.
pub proof fn lemma_four_rows(s: System, table: Seq<Row>)
    requires
        table.len() == 4,
    ensures
        committed_table(s, table) == committed(
            committed(committed(committed(s, table[0].words), table[1].words), table[2].words),
            table[3].words,
        ),
{
    assert(table.drop_last() == table.take(3));
    assert(table.take(3).drop_last() == table.take(2));
    assert(table.take(2).drop_last() == table.take(1));
    assert(table.take(1).drop_last() == Seq::<Row>::empty());
    reveal_with_fuel(committed_table, 5);
}

/// Whether `outputs` are the rows of `table`, with the words committed to the
/// oracles from `first` on.
pub open spec fn holds_table(outputs: Seq<WitnessedOutput>, table: Seq<Row>, first: nat) -> bool {
    &&& outputs.len() == table.len()
    &&& forall|r: int|
        #![trigger outputs[r]]
        0 <= r < outputs.len() ==> {
            &&& outputs[r].0@ == table[r].state
            &&& consecutive(outputs[r].1@, (first + 4 * r) as nat)
        }
}

/// Commits the four outputs of a garbling table, in order.
pub fn witness_table(table: &[Output; 4], builder: &mut ConstraintSystemBuilder) -> (witnessed:
    [WitnessedOutput; 4])
    requires
        old(builder)@.has_room(16),
    ensures
        final(builder)@ == committed_table(
            old(builder)@,
            table@.map_values(|o: Output| o@),
        ),
        holds_table(
            witnessed@,
            table@.map_values(|o: Output| o@),
            old(builder)@.values.len(),
        ),
{
    let ghost rows = table@.map_values(|o: Output| o@);
    let ghost s0 = builder@;
    let output_0 = table[0].witness(builder);
    let ghost s1 = builder@;
    proof {
        lemma_committed(s0, rows[0].words);
    }
    let output_1 = table[1].witness(builder);
    let ghost s2 = builder@;
    proof {
        lemma_committed(s1, rows[1].words);
    }
    let output_2 = table[2].witness(builder);
    proof {
        lemma_committed(s2, rows[2].words);
    }
    let output_3 = table[3].witness(builder);
    proof {
        lemma_four_rows(s0, rows);
    }
    [output_0, output_1, output_2, output_3]
}

/// A gate whose output labels and garbling table are oracles of a constraint
/// system.
#[derive(Debug, Copy, Clone)]
pub struct WitnessedGate {
    pub out: (WitnessedLabel, WitnessedLabel),
    pub output: [WitnessedOutput; 4],
}

/// The expression that is zero when the third input is the sum of the first
/// two.
pub open spec fn sum_expr() -> ArithExpr {
    ArithExpr::Minus(
        Box::new(ArithExpr::Plus(Box::new(ArithExpr::Var(0)), Box::new(ArithExpr::Var(1)))),
        Box::new(ArithExpr::Var(2)),
    )
}

fn make_sum_expr() -> (expr: ArithExpr)
    ensures
        expr == sum_expr(),
{
    ArithExpr::Minus(
        Box::new(ArithExpr::Plus(Box::new(ArithExpr::Var(0)), Box::new(ArithExpr::Var(1)))),
        Box::new(ArithExpr::Var(2)),
    )
}

/// The constraint on word `k` of a row: the hash and the label add up to the
/// masked label.
pub open spec fn word_step(
    hash: Seq<usize>,
    label: Seq<usize>,
    masked: Seq<usize>,
    k: int,
) -> StepView {
    StepView::AssertZero {
        name: "b32_add"@,
        oracles: seq![hash[k], label[k], masked[k]],
        expr: sum_expr(),
    }
}

/// The system `s` with the first `n` words of a row constrained.
pub open spec fn words_constrained(
    s: System,
    hash: Seq<usize>,
    label: Seq<usize>,
    masked: Seq<usize>,
    n: nat,
) -> System
    decreases n,
{
    if n == 0 {
        s
    } else {
        let k = n - 1;
        words_constrained(s, hash, label, masked, k as nat).asserted_zero(
            "b32_add"@,
            seq![hash[k], label[k], masked[k]],
            sum_expr(),
        )
    }
}

/// How many rows can be constrained before the oracles run out.
pub open spec fn rows_that_fit(s: System) -> nat {
    if s.has_room(64) {
        4
    } else if s.has_room(48) {
        3
    } else if s.has_room(32) {
        2
    } else if s.has_room(16) {
        1
    } else {
        0
    }
}

impl WitnessedGate {
    /// The oracles of the output label that row `row` hides.
    pub open spec fn hidden_label(self, row: int) -> Seq<usize> {
        if row == 3 {
            self.out.1.label@
        } else {
            self.out.0.label@
        }
    }

    /// The system `s` with the first `n` rows of the table constrained.
    pub open spec fn rows_constrained(self, s: System, n: nat) -> System
        decreases n,
    {
        if n == 0 {
            s
        } else {
            let row = n - 1;
            let before = self.rows_constrained(s, row as nat);
            words_constrained(
                before.compressed(self.output@[row].0@),
                before.next_ids(16),
                self.hidden_label(row),
                self.output@[row].1@,
                4,
            )
        }
    }

    /// Constrains row `row` of the table.
    fn constrain_row(&self, row: usize, builder: &mut ConstraintSystemBuilder) -> (result: Result<
        (),
        BuilderError,
    >)
        requires
            row < 4,
        ensures
            result is Ok <==> old(builder)@.has_room(16),
            result is Ok ==> final(builder)@ == words_constrained(
                old(builder)@.compressed(self.output@[row as int].0@),
                old(builder)@.next_ids(16),
                self.hidden_label(row as int),
                self.output@[row as int].1@,
                4,
            ),
            result is Err ==> {
                &&& result == Err::<(), _>(BuilderError::TooManyOracles)
                &&& final(builder)@ == old(builder)@
            },
    {
        let hash_input_labels = match builder.blake3_compress(self.output[row].0) {
            Ok(oracle) => oracle.output,
            Err(e) => return Err(e),
        };
        let output_wire_label = match row {
            3 => self.out.1.label,
            _ => self.out.0.label,
        };
        let ghost s = builder@;
        for word in 0..4usize
            invariant
                row < 4,
                output_wire_label@ == self.hidden_label(row as int),
                hash_input_labels@ == old(builder)@.next_ids(16),
                builder@ == words_constrained(
                    s,
                    old(builder)@.next_ids(16),
                    self.hidden_label(row as int),
                    self.output@[row as int].1@,
                    word as nat,
                ),
        {
            let oracles = [
                hash_input_labels[word],
                output_wire_label[word],
                self.output[row].1[word],
            ];
            builder.assert_zero("b32_add", oracles, make_sum_expr());
            assert(oracles@ == seq![
                old(builder)@.next_ids(16)[word as int],
                self.hidden_label(row as int)[word as int],
                self.output@[row as int].1@[word as int],
            ]);
        }
        Ok(())
    }

    /// Garble the output values of an AND gate in-circuit
    ///
    /// Left | Right | Out
    ///   0  |   0   |  0
    ///   0  |   1   |  0
    ///   1  |   0   |  0
    ///   1  |   1   |  1
    ///
    /// Rows that fit before the oracles run out stay constrained.
    pub fn garble_and_gate(&self, builder: &mut ConstraintSystemBuilder) -> (result: Result<
        (),
        BuilderError,
    >)
        ensures
            final(builder)@ == self.rows_constrained(
                old(builder)@,
                rows_that_fit(old(builder)@),
            ),
            result is Ok <==> old(builder)@.has_room(64),
            result is Err ==> result == Err::<(), _>(BuilderError::TooManyOracles),
    {
        for row in 0..4usize
            invariant
                builder@ == self.rows_constrained(old(builder)@, row as nat),
                row <= rows_that_fit(old(builder)@),
        {
            proof {
                lemma_rows_constrained(*self, old(builder)@, row as nat);
            }
            match self.constrain_row(row, builder) {
                Ok(()) => {},
                Err(e) => return Err(e),
            }
        }
        Ok(())
    }
}

/// Constraining words adds their constraints, and nothing else.
proof fn lemma_words_constrained(
    s: System,
    hash: Seq<usize>,
    label: Seq<usize>,
    masked: Seq<usize>,
    n: nat,
)
    ensures
        ({
            let t = words_constrained(s, hash, label, masked, n);
            &&& t.extends(s)
            &&& t.values == s.values
            &&& t.steps.len() == s.steps.len() + n
            &&& forall|k: int|
                0 <= k < n ==> t.steps[s.steps.len() + k] == #[trigger] word_step(
                    hash,
                    label,
                    masked,
                    k,
                )
        }),
    decreases n,
{
    if n > 0 {
        let mid = words_constrained(s, hash, label, masked, (n - 1) as nat);
        lemma_words_constrained(s, hash, label, masked, (n - 1) as nat);
        assert(words_constrained(s, hash, label, masked, n).extends(mid));
        crate::builder::lemma_extends_trans(s, mid, words_constrained(s, hash, label, masked, n));
    } else {
        assert(s.extends(s));
    }
}

/// The oracles that hold the hash of row `row` of a gate that was constrained on
/// top of `s`.
pub open spec fn hash_ids(s: System, row: int) -> Seq<usize> {
    Seq::new(16, |i: int| (s.values.len() + 16 * row + i) as usize)
}

/// Whether row `row` of a gate that was constrained on top of `s` stands in `t`:
/// its hash, and the constraints on its words.
pub open spec fn holds_row(s: System, t: System, gate: WitnessedGate, row: int) -> bool {
    let first = s.values.len() + 16 * row;
    let base = s.steps.len() + 5 * row;
    let state = gate.output@[row].0@;
    &&& t.values.subrange(first, first + 16) == crate::blake3::compression(state)
    &&& t.steps[base] == (StepView::Compress { state, output: first })
    &&& forall|k: int|
        0 <= k < 4 ==> t.steps[base + 1 + k] == #[trigger] word_step(
            hash_ids(s, row),
            gate.hidden_label(row),
            gate.output@[row].1@,
            k,
        )
}

/// Constraining rows adds sixteen oracles and five steps for each, and nothing
/// else.
pub proof fn lemma_rows_constrained(gate: WitnessedGate, s: System, n: nat)
    requires
        n <= 4,
    ensures
        ({
            let t = gate.rows_constrained(s, n);
            &&& t.extends(s)
            &&& t.values.len() == s.values.len() + 16 * n
            &&& t.steps.len() == s.steps.len() + 5 * n
            &&& forall|row: int| 0 <= row < n ==> #[trigger] holds_row(s, t, gate, row)
        }),
    decreases n,
{
    if n > 0 {
        let last = n - 1;
        let before = gate.rows_constrained(s, last as nat);
        let state = gate.output@[last].0@;
        let mid = before.compressed(state);
        let label = gate.hidden_label(last);
        let masked = gate.output@[last].1@;
        let t = gate.rows_constrained(s, n);
        lemma_rows_constrained(gate, s, last as nat);
        assert(before.next_ids(16) == hash_ids(s, last));
        lemma_words_constrained(mid, hash_ids(s, last), label, masked, 4);
        assert(mid.extends(before));
        crate::builder::lemma_extends_trans(s, before, mid);
        crate::builder::lemma_extends_trans(s, mid, t);
        crate::builder::lemma_extends_agrees(mid, t);
        assert forall|row: int| 0 <= row < n implies #[trigger] holds_row(s, t, gate, row) by {
            let first = s.values.len() + 16 * row;
            let base = s.steps.len() + 5 * row;
            if row < last {
                assert(holds_row(s, before, gate, row));
                assert(t.values.subrange(first, first + 16) == before.values.subrange(
                    first,
                    first + 16,
                ));
                assert(t.steps[base] == before.steps[base]);
                assert forall|k: int| 0 <= k < 4 implies t.steps[base + 1 + k]
                    == #[trigger] word_step(
                    hash_ids(s, row),
                    gate.hidden_label(row),
                    gate.output@[row].1@,
                    k,
                ) by {
                    assert(t.steps[base + 1 + k] == before.steps[base + 1 + k]);
                }
            } else {
                assert(t.values.subrange(first, first + 16) == crate::blake3::compression(state));
                assert(t.steps[base] == mid.steps[base]);
                assert forall|k: int| 0 <= k < 4 implies t.steps[base + 1 + k]
                    == #[trigger] word_step(hash_ids(s, last), label, masked, k) by {
                    assert(t.steps[mid.steps.len() + k] == word_step(
                        hash_ids(s, last),
                        label,
                        masked,
                        k,
                    ));
                }
            }
        }
    } else {
        assert(s.extends(s));
    }
}

} // verus!
