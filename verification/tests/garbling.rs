use garbling::blake3::Blake3CompressState;
use garbling::builder::ArithExpr;
use garbling::builder::BuilderError;
use garbling::builder::ConstraintSystemBuilder;
use garbling::builder::Step;
use garbling::garble::witness_table;
use garbling::garble::Gate;
use garbling::garble::Label;
use garbling::garble::Output;
use garbling::garble::WitnessedGate;
use garbling::garble::WitnessedLabel;
use garbling::garble::WitnessedOutput;
use garbling::rng::WordSource;
use rand::rngs::OsRng;
use rand::rngs::ThreadRng;

const IV: [u32; 8] = [
    0x6A09E667, 0xBB67AE85, 0x3C6EF372, 0xA54FF53A, 0x510E527F, 0x9B05688C, 0x1F83D9AB, 0x5BE0CD19,
];

/// The first words of the hash of the empty message.
const EMPTY_HASH: [u32; 8] = [
    0xb94913af, 0xa6a1f9f5, 0xea4d40a0, 0x49c9dc36, 0xc925cb9b, 0xb712c1ad, 0xca939acc, 0x62321fe4,
];

/// Chunk start, chunk end and root.
const WHOLE_MESSAGE: u32 = 11;

fn system() -> WordSource<OsRng> {
    WordSource::new(OsRng)
}

fn thread() -> WordSource<ThreadRng> {
    WordSource::new(rand::thread_rng())
}

/// The words from one upwards.
fn counted<const N: usize>() -> [u32; N] {
    let mut words = [0; N];
    for i in 0..N {
        words[i] = i as u32 + 1;
    }
    words
}

/// Words under which the hash of a zero block is the hash of the empty message.
fn hashing_nothing() -> [u32; 48] {
    let mut words = [0; 48];
    for row in 0..4 {
        words[12 * row..12 * row + 8].copy_from_slice(&IV);
        words[12 * row + 11] = WHOLE_MESSAGE;
    }
    words
}

/// The words that were drawn for a table.
fn words_of(table: &[Output; 4]) -> [u32; 48] {
    let mut words = [0; 48];
    for row in 0..4 {
        let state = table[row].0;
        words[12 * row..12 * row + 8].copy_from_slice(&state.cv);
        words[12 * row + 8] = state.counter_low;
        words[12 * row + 9] = state.counter_high;
        words[12 * row + 10] = state.block_len;
        words[12 * row + 11] = state.flags;
    }
    words
}

fn assert_same(a: &Output, b: &Output) {
    assert_eq!(a.0.cv, b.0.cv);
    assert_eq!(a.0.block, b.0.block);
    assert_eq!(a.0.counter_low, b.0.counter_low);
    assert_eq!(a.0.counter_high, b.0.counter_high);
    assert_eq!(a.0.block_len, b.0.block_len);
    assert_eq!(a.0.flags, b.0.flags);
    assert_eq!(a.1, b.1);
}

/// The sample gate under the words from one upwards, committed.
fn witnessed_sample(builder: &mut ConstraintSystemBuilder) -> WitnessedGate {
    let gate = sample_gate();
    let out = (gate.out.0.witness(builder), gate.out.1.witness(builder));
    let output = witness_table(&gate.garble_with_words(&counted()), builder);
    WitnessedGate { out, output }
}

fn label(idx: usize, word: u32) -> Label {
    Label { idx, label: [word, word + 1, word + 2, word + 3] }
}

fn sample_gate() -> Gate {
    Gate {
        left: (label(0, 10), label(0, 20)),
        right: (label(1, 30), label(1, 40)),
        out: (label(2, 50), label(2, 60)),
    }
}

fn opened(output: &Output) -> [u32; 4] {
    let mask = output.0.compress();
    [
        mask[0] ^ output.1[0],
        mask[1] ^ output.1[1],
        mask[2] ^ output.1[2],
        mask[3] ^ output.1[3],
    ]
}

#[test]
fn compresses_the_empty_message() {
    let state = Blake3CompressState {
        cv: IV,
        block: [0; 16],
        counter_low: 0,
        counter_high: 0,
        block_len: 0,
        flags: WHOLE_MESSAGE,
    };
    let upper = [
        0xe7030fe0, 0x6bf29ab6, 0x9ff0aa7f, 0x503033cd, 0xe0df8d33, 0x86ccb885, 0x208ba99c, 0x3a24086c,
    ];
    assert_eq!(state.compress()[..8], EMPTY_HASH);
    assert_eq!(state.compress()[8..], upper);
}

#[test]
fn compresses_a_short_message() {
    let mut block = [0; 16];
    block[0] = 0x00636261;
    let state = Blake3CompressState {
        cv: IV,
        block,
        counter_low: 0,
        counter_high: 0,
        block_len: 3,
        flags: WHOLE_MESSAGE,
    };
    let expected = [
        0xacb33764, 0x33514638, 0x753bb6ff, 0xb58d3a27, 0x4658c548, 0x03db795d, 0x6c9c35fd, 0x859dbdd5,
    ];
    assert_eq!(state.compress()[..8], expected);
}

#[test]
fn both_counter_words_are_taken_in() {
    let mut state = Blake3CompressState {
        cv: [0; 8],
        block: [7; 16],
        counter_low: 1,
        counter_high: 2,
        block_len: 3,
        flags: 4,
    };
    let first = state.compress();
    state.counter_low = 2;
    assert_ne!(state.compress(), first);
    state.counter_low = 1;
    state.counter_high = 1;
    assert_ne!(state.compress(), first);
}

#[test]
fn state_takes_its_words_in_order() {
    let mut block = [0; 16];
    block[3] = 99;
    let state = Blake3CompressState::from_words(block, &counted());
    assert_eq!(state.cv, [1, 2, 3, 4, 5, 6, 7, 8]);
    assert_eq!(state.block, block);
    assert_eq!(state.counter_low, 9);
    assert_eq!(state.counter_high, 10);
    assert_eq!(state.block_len, 11);
    assert_eq!(state.flags, 12);
}

#[test]
fn random_state_keeps_the_block_and_draws_the_rest() {
    let mut block = [0; 16];
    block[3] = 99;
    let mut rng = system();
    let first = Blake3CompressState::random(block, &mut rng);
    let second = Blake3CompressState::random(block, &mut rng);
    assert_eq!(first.block, block);
    assert_eq!(second.block, block);
    assert_ne!(first.cv, second.cv);
    assert_ne!(
        [first.counter_low, first.counter_high, first.block_len, first.flags],
        [second.counter_low, second.counter_high, second.block_len, second.flags],
    );
}

#[test]
fn random_label_is_of_its_wire() {
    let label = Label::random(5, &mut thread());
    assert_eq!(label.idx, 5);
    assert_ne!(label.label, [0; 4]);
}

#[test]
fn labels_from_the_system_and_thread_generators_differ() {
    let mut system = system();
    let a = Label::random(0, &mut system);
    let b = Label::random(0, &mut system);
    assert_ne!(a.label, b.label);
    let mut thread = thread();
    let c = Label::random(0, &mut thread);
    let d = Label::random(0, &mut thread);
    assert_ne!(c.label, d.label);
    assert_ne!(a.label, c.label);
}

#[test]
fn drawn_words_do_not_repeat() {
    let mut rng = system();
    let first: [u32; 8] = rng.draw_words();
    let second: [u32; 8] = rng.draw_words();
    assert_ne!(first, second);
    assert_ne!([rng.draw(), rng.draw(), rng.draw()], [first[0], first[1], first[2]]);
    let none: [u32; 0] = rng.draw_words();
    assert_eq!(none.len(), 0);
}

#[test]
fn generated_gate_has_fresh_labels_on_its_wires() {
    let gate = Gate::generate_labels(7, 8, 9, &mut thread());
    assert_eq!((gate.left.0.idx, gate.left.1.idx), (7, 7));
    assert_eq!((gate.right.0.idx, gate.right.1.idx), (8, 8));
    assert_eq!((gate.out.0.idx, gate.out.1.idx), (9, 9));
    let labels = [
        gate.left.0.label,
        gate.left.1.label,
        gate.right.0.label,
        gate.right.1.label,
        gate.out.0.label,
        gate.out.1.label,
    ];
    for i in 0..6 {
        for j in 0..i {
            assert_ne!(labels[i], labels[j]);
        }
    }
}

#[test]
fn garbled_row_is_hash_xor_output_label() {
    let zero = Label { idx: 0, label: [0; 4] };
    let gate = Gate { left: (zero, zero), right: (zero, zero), out: (label(2, 50), label(2, 60)) };
    let table = gate.garble_with_words(&hashing_nothing());
    for row in 0..3 {
        for word in 0..4 {
            assert_eq!(table[row].1[word], EMPTY_HASH[word] ^ (50 + word as u32));
        }
    }
    for word in 0..4 {
        assert_eq!(table[3].1[word], EMPTY_HASH[word] ^ (60 + word as u32));
    }
}

#[test]
fn garbled_table_computes_and() {
    let gate = sample_gate();
    for table in [
        gate.garble_with_words(&counted()),
        gate.garble_and_gate(&mut system()),
        gate.garble_and_gate(&mut thread()),
    ] {
        assert_eq!(opened(&table[0]), gate.out.0.label);
        assert_eq!(opened(&table[1]), gate.out.0.label);
        assert_eq!(opened(&table[2]), gate.out.0.label);
        assert_eq!(opened(&table[3]), gate.out.1.label);
    }
}

#[test]
fn random_table_is_the_table_under_its_words() {
    let gate = sample_gate();
    let table = gate.garble_and_gate(&mut system());
    let again = gate.garble_with_words(&words_of(&table));
    for row in 0..4 {
        assert_same(&table[row], &again[row]);
        for other in 0..row {
            assert_ne!(table[row].0.cv, table[other].0.cv);
        }
    }
}

#[test]
fn rows_are_masked_by_their_input_labels() {
    let gate = sample_gate();
    let table = gate.garble_with_words(&counted());
    assert_eq!(table[0].0.block, [10, 11, 12, 13, 30, 31, 32, 33, 0, 0, 0, 0, 0, 0, 0, 0]);
    assert_eq!(table[1].0.block, [10, 11, 12, 13, 40, 41, 42, 43, 0, 0, 0, 0, 0, 0, 0, 0]);
    assert_eq!(table[2].0.block, [20, 21, 22, 23, 30, 31, 32, 33, 0, 0, 0, 0, 0, 0, 0, 0]);
    assert_eq!(table[3].0.block, [20, 21, 22, 23, 40, 41, 42, 43, 0, 0, 0, 0, 0, 0, 0, 0]);
    assert_eq!(table[2].0.cv, [25, 26, 27, 28, 29, 30, 31, 32]);
}

#[test]
fn witnessed_label_commits_its_words() {
    let mut builder = ConstraintSystemBuilder::new();
    let first = label(4, 10).witness(&mut builder);
    let second = label(5, 20).witness(&mut builder);
    assert_eq!(first._idx, 4);
    assert_eq!(first.label, [0, 1, 2, 3]);
    assert_eq!(second._idx, 5);
    assert_eq!(second.label, [4, 5, 6, 7]);
    assert_eq!(*builder.values(), vec![10, 11, 12, 13, 20, 21, 22, 23]);
    assert_eq!(builder.steps().len(), 8);
    match &builder.steps()[6] {
        Step::Fixed { name, oracle } => {
            assert_eq!(*name, "");
            assert_eq!(*oracle, 6);
        }
        _ => panic!("not a committed oracle"),
    }
    assert!(builder.validate());
}

#[test]
fn witnessed_output_keeps_its_state() {
    let table = sample_gate().garble_with_words(&counted());
    let mut builder = ConstraintSystemBuilder::new();
    let witnessed = table[1].witness(&mut builder);
    assert_eq!(witnessed.0.cv, table[1].0.cv);
    assert_eq!(witnessed.0.block, table[1].0.block);
    assert_eq!(witnessed.1, [0, 1, 2, 3]);
    assert_eq!(builder.values()[..], table[1].1[..]);
}

#[test]
fn witnessed_table_commits_row_by_row() {
    let table = sample_gate().garble_with_words(&counted());
    let mut builder = ConstraintSystemBuilder::new();
    let witnessed = witness_table(&table, &mut builder);
    for row in 0..4 {
        for word in 0..4 {
            assert_eq!(witnessed[row].1[word], 4 * row + word);
            assert_eq!(builder.values()[4 * row + word], table[row].1[word]);
        }
    }
}

#[test]
fn witnessed_gate_reads_back() {
    let gate = sample_gate();
    let mut builder = ConstraintSystemBuilder::new();
    let witnessed = gate.witness(&mut builder, &mut system());
    assert_eq!(builder.values().len(), 24);
    assert_eq!((witnessed.out.0._idx, witnessed.out.1._idx), (2, 2));
    for word in 0..4 {
        assert_eq!(builder.values()[witnessed.out.0.label[word]], gate.out.0.label[word]);
        assert_eq!(builder.values()[witnessed.out.1.label[word]], gate.out.1.label[word]);
    }
    for row in 0..4 {
        let mut words = [0; 4];
        for word in 0..4 {
            words[word] = builder.values()[witnessed.output[row].1[word]];
        }
        let output = Output(witnessed.output[row].0, words);
        let hidden = if row == 3 { gate.out.1 } else { gate.out.0 };
        assert_eq!(opened(&output), hidden.label);
    }
}

#[test]
fn natively_garbled_gate_passes_in_circuit() {
    let gate = Gate::generate_labels(0, 1, 2, &mut thread());
    let mut builder = ConstraintSystemBuilder::new();
    let witnessed = gate.witness(&mut builder, &mut thread());
    assert_eq!(witnessed.garble_and_gate(&mut builder), Ok(()));
    assert_eq!(builder.values().len(), 88);
    assert_eq!(builder.steps().len(), 44);
    assert!(builder.validate());
}

#[test]
fn constraints_add_hash_and_label() {
    let mut builder = ConstraintSystemBuilder::new();
    let witnessed = witnessed_sample(&mut builder);
    assert_eq!(witnessed.garble_and_gate(&mut builder), Ok(()));
    match &builder.steps()[24] {
        Step::Compress { state, output } => {
            assert_eq!(state.cv, [1, 2, 3, 4, 5, 6, 7, 8]);
            assert_eq!(*output, 24);
        }
        _ => panic!("not a compression"),
    }
    match &builder.steps()[25 + 3 * 5 + 2] {
        Step::AssertZero { name, oracles, expr } => {
            assert_eq!(*name, "b32_add");
            assert_eq!(*oracles, [24 + 3 * 16 + 2, 4 + 2, 8 + 3 * 4 + 2]);
            assert!(matches!(expr, ArithExpr::Minus(_, _)));
            assert_eq!(expr.evaluate(&[1, 2, 4]), 7);
            assert_eq!(expr.evaluate(&[5, 3, 6]), 0);
        }
        _ => panic!("not a constraint"),
    }
}

#[test]
fn wrong_table_fails_in_circuit() {
    let gate = sample_gate();
    for row in 0..4 {
        for word in 0..4 {
            let mut table = gate.garble_with_words(&counted());
            table[row].1[word] ^= 1;
            let mut builder = ConstraintSystemBuilder::new();
            let out = (gate.out.0.witness(&mut builder), gate.out.1.witness(&mut builder));
            let output = witness_table(&table, &mut builder);
            assert!(builder.validate());
            let witnessed = WitnessedGate { out, output };
            assert_eq!(witnessed.garble_and_gate(&mut builder), Ok(()));
            assert!(!builder.validate());
        }
    }
}

#[test]
fn swapped_output_labels_fail_in_circuit() {
    let mut builder = ConstraintSystemBuilder::new();
    let mut witnessed = witnessed_sample(&mut builder);
    witnessed.out = (witnessed.out.1, witnessed.out.0);
    assert_eq!(witnessed.garble_and_gate(&mut builder), Ok(()));
    assert!(!builder.validate());
}

#[test]
fn missing_oracles_fail_validation() {
    let state = Blake3CompressState::from_words([0; 16], &counted());
    let nowhere = WitnessedLabel { _idx: 0, label: [1000; 4] };
    let gate = WitnessedGate {
        out: (nowhere, nowhere),
        output: [WitnessedOutput(state, [1000; 4]); 4],
    };
    let mut builder = ConstraintSystemBuilder::new();
    assert_eq!(gate.garble_and_gate(&mut builder), Ok(()));
    assert!(!builder.validate());
}

#[test]
fn rows_stop_when_the_oracles_run_out() {
    for (limit, rows) in [(24, 0), (39, 0), (40, 1), (56, 2), (87, 3)] {
        let mut builder = ConstraintSystemBuilder::with_limit(limit);
        let witnessed = witnessed_sample(&mut builder);
        assert_eq!(witnessed.garble_and_gate(&mut builder), Err(BuilderError::TooManyOracles));
        assert_eq!(builder.values().len(), 24 + 16 * rows);
        assert_eq!(builder.steps().len(), 24 + 5 * rows);
        assert!(builder.validate());
    }
    let mut builder = ConstraintSystemBuilder::with_limit(88);
    let witnessed = witnessed_sample(&mut builder);
    assert_eq!(witnessed.garble_and_gate(&mut builder), Ok(()));
}

#[test]
fn full_builder_refuses_oracles() {
    let mut builder = ConstraintSystemBuilder::with_limit(1);
    assert!(builder.has_room(1));
    assert!(!builder.has_room(2));
    assert_eq!(builder.fixed_u32("x", 7), Ok(0));
    assert_eq!(builder.fixed_u32("y", 8), Err(BuilderError::TooManyOracles));
    assert_eq!(*builder.values(), vec![7]);
    assert_eq!(builder.steps().len(), 1);
}

#[test]
fn compression_oracles_hold_the_output() {
    let state = Blake3CompressState::from_words([3; 16], &counted());
    let mut builder = ConstraintSystemBuilder::new();
    assert_eq!(builder.fixed_u32("", 1), Ok(0));
    let oracle = builder.blake3_compress(state).unwrap();
    for i in 0..16 {
        assert_eq!(oracle.output[i], i + 1);
    }
    assert_eq!(builder.values()[1..], state.compress());
    assert!(builder.validate());
    let mut small = ConstraintSystemBuilder::with_limit(15);
    assert!(matches!(small.blake3_compress(state), Err(BuilderError::TooManyOracles)));
    assert_eq!(small.values().len(), 0);
}

#[test]
fn expression_beyond_its_inputs_fails_validation() {
    let mut builder = ConstraintSystemBuilder::new();
    assert_eq!(builder.fixed_u32("", 0), Ok(0));
    builder.assert_zero("same", [0, 0, 0], ArithExpr::Var(2));
    assert!(builder.validate());
    assert!(ArithExpr::Var(2).is_ternary());
    assert!(!ArithExpr::Var(3).is_ternary());
    builder.assert_zero("beyond", [0, 0, 0], ArithExpr::Var(3));
    assert!(!builder.validate());
}

#[test]
fn labels_take_their_words_in_order() {
    let gate = Gate::labels_from_words(7, 8, 9, &counted());
    assert_eq!((gate.left.0.idx, gate.left.1.idx), (7, 7));
    assert_eq!((gate.right.0.idx, gate.right.1.idx), (8, 8));
    assert_eq!((gate.out.0.idx, gate.out.1.idx), (9, 9));
    assert_eq!(gate.left.0.label, [1, 2, 3, 4]);
    assert_eq!(gate.left.1.label, [5, 6, 7, 8]);
    assert_eq!(gate.right.0.label, [9, 10, 11, 12]);
    assert_eq!(gate.right.1.label, [13, 14, 15, 16]);
    assert_eq!(gate.out.0.label, [17, 18, 19, 20]);
    assert_eq!(gate.out.1.label, [21, 22, 23, 24]);
}

#[test]
fn indices_take_no_part_in_the_labels() {
    let gate = Gate::labels_from_words(7, 8, 9, &counted());
    let other = Gate::labels_from_words(0, usize::MAX, 0, &counted());
    assert_eq!(gate.left.0.label, other.left.0.label);
    assert_eq!(gate.left.1.label, other.left.1.label);
    assert_eq!(gate.right.0.label, other.right.0.label);
    assert_eq!(gate.right.1.label, other.right.1.label);
    assert_eq!(gate.out.0.label, other.out.0.label);
    assert_eq!(gate.out.1.label, other.out.1.label);
    assert_eq!((other.right.0.idx, other.right.1.idx), (usize::MAX, usize::MAX));
}

#[test]
fn rows_differ_as_their_hidden_labels_do() {
    let gate = sample_gate();
    let mut other = gate;
    other.out = (label(2, 700), label(2, 900));
    let table = gate.garble_with_words(&counted());
    let other_table = other.garble_with_words(&counted());
    for row in 0..4 {
        let (hidden, other_hidden) =
            if row == 3 { (gate.out.1, other.out.1) } else { (gate.out.0, other.out.0) };
        assert_eq!(table[row].0.cv, other_table[row].0.cv);
        assert_eq!(table[row].0.block, other_table[row].0.block);
        for word in 0..4 {
            assert_eq!(
                table[row].1[word] ^ other_table[row].1[word],
                hidden.label[word] ^ other_hidden.label[word],
            );
        }
    }
}

#[test]
fn witnessing_is_done_by_hand() {
    let gate = sample_gate();
    let mut builder = ConstraintSystemBuilder::new();
    let witnessed = gate.witness_with_words(&mut builder, &counted());

    let mut by_hand = ConstraintSystemBuilder::new();
    let out = (gate.out.0.witness(&mut by_hand), gate.out.1.witness(&mut by_hand));
    let table = gate.garble_with_words(&counted());
    for row in 0..4 {
        let output = table[row].witness(&mut by_hand);
        assert_eq!(witnessed.output[row].1, output.1);
        assert_eq!(witnessed.output[row].0.cv, output.0.cv);
        assert_eq!(witnessed.output[row].0.block, output.0.block);
    }
    assert_eq!(witnessed.out.0.label, out.0.label);
    assert_eq!(witnessed.out.1.label, out.1.label);
    assert_eq!((witnessed.out.0._idx, witnessed.out.1._idx), (out.0._idx, out.1._idx));
    assert_eq!(builder.values(), by_hand.values());
    assert_eq!(builder.steps().len(), by_hand.steps().len());
}
