use garbling::bristol::line_is_complete;
use garbling::bristol::parse_line;
use garbling::bristol::AndWires;
use garbling::bristol::LineError;
use garbling::builder::BuilderError;
use garbling::builder::ConstraintSystemBuilder;
use garbling::circuit::garble_circuit;
use garbling::circuit::garble_gate;
use garbling::circuit::garble_line;
use garbling::circuit::CircuitError;
use garbling::circuit::WireTable;
use garbling::rng::WordSource;
use rand::rngs::OsRng;
use rand::rngs::ThreadRng;

fn system() -> WordSource<OsRng> {
    WordSource::new(OsRng)
}

fn thread() -> WordSource<ThreadRng> {
    WordSource::new(rand::thread_rng())
}

fn texts(lines: &[&str]) -> Vec<String> {
    lines.iter().map(|line| line.to_string()).collect()
}

#[test]
fn reads_the_wires_of_an_and_gate() {
    let wires = AndWires { left: 3, right: 14, out: 15 };
    assert_eq!(parse_line("2 1 3 14 15 AND"), Ok(Some(wires)));
    assert_eq!(parse_line("  2\t1 3\u{a0}14 \u{3000}15 AND \n"), Ok(Some(wires)));
    assert_eq!(parse_line("2 1 +3 014 15 AND"), Ok(Some(wires)));
}

#[test]
fn other_lines_say_nothing() {
    assert_eq!(parse_line(""), Ok(None));
    assert_eq!(parse_line("   "), Ok(None));
    assert_eq!(parse_line("2 1 3 14 15 XOR"), Ok(None));
    assert_eq!(parse_line("1 1 3 15 INV"), Ok(None));
    assert_eq!(parse_line("2 1 3 14 15 and"), Ok(None));
    assert_eq!(parse_line("2 1 3 14 15 NAND"), Ok(None));
    assert_eq!(parse_line("AND 2 1 3 14 15"), Ok(None));
}

#[test]
fn wires_that_are_no_index_are_refused() {
    let no_right = Err(LineError::InvalidRight { left: 3 });
    let no_out = Err(LineError::InvalidOut { left: 3, right: 14 });
    assert_eq!(parse_line("2 1 x 14 15 AND"), Err(LineError::InvalidLeft));
    assert_eq!(parse_line("2 1 x y z AND"), Err(LineError::InvalidLeft));
    assert_eq!(parse_line("2 1 99999999999999999999999 14 15 AND"), Err(LineError::InvalidLeft));
    assert_eq!(parse_line("2 1 3 -4 15 AND"), no_right);
    assert_eq!(parse_line("2 1 3 x y AND"), no_right);
    assert_eq!(parse_line("2 1 3 14 + AND"), no_out);
    assert_eq!(parse_line("2 1 3 14 ++1 AND"), no_out);
    assert_eq!(parse_line("2 1 3 14 1_0 AND"), no_out);
}

#[test]
fn and_is_no_wire() {
    assert_eq!(parse_line("2 1 AND"), Err(LineError::InvalidLeft));
    assert_eq!(parse_line("2 1 3 AND"), Err(LineError::InvalidRight { left: 3 }));
    assert_eq!(parse_line("2 1 x AND"), Err(LineError::InvalidLeft));
    assert_eq!(parse_line("2 1 3 14 AND"), Err(LineError::InvalidOut { left: 3, right: 14 }));
}

#[test]
fn largest_wire_index_is_read() {
    let line = format!("2 1 {} 0 1 AND", usize::MAX);
    assert_eq!(parse_line(&line), Ok(Some(AndWires { left: usize::MAX, right: 0, out: 1 })));
    let line = format!("2 1 {} 0 1 AND", usize::MAX as u128 + 1);
    assert_eq!(parse_line(&line), Err(LineError::InvalidLeft));
}

#[test]
fn short_and_lines_are_incomplete() {
    assert!(!line_is_complete("AND"));
    assert!(!line_is_complete(" 1 AND "));
    assert!(line_is_complete("2 1 AND"));
    assert!(line_is_complete("2 1 3 14 15 AND"));
    assert!(line_is_complete("XOR"));
    assert!(line_is_complete(""));
}

#[test]
fn wire_is_found_again() {
    let mut table = WireTable::new();
    let mut builder = ConstraintSystemBuilder::new();
    let mut rng = system();
    let first = table.witness_wire(6, &mut builder, &mut rng);
    assert_eq!((first.labels.0.idx, first.labels.1.idx), (6, 6));
    assert_eq!((first.witnessed.0._idx, first.witnessed.1._idx), (6, 6));
    assert_ne!(first.labels.0.label, first.labels.1.label);
    assert_eq!(first.witnessed.0.label, [0, 1, 2, 3]);
    assert_eq!(first.witnessed.1.label, [4, 5, 6, 7]);
    assert_eq!(builder.values()[..4], first.labels.0.label);
    assert_eq!(builder.values()[4..], first.labels.1.label);
    let other = table.witness_wire(5, &mut builder, &mut rng);
    assert_ne!(other.labels.0.label, first.labels.0.label);
    let again = table.witness_wire(6, &mut builder, &mut rng);
    assert_eq!(again.labels.0.label, first.labels.0.label);
    assert_eq!(again.labels.1.label, first.labels.1.label);
    assert_eq!(again.witnessed.1.label, first.witnessed.1.label);
    assert_eq!(builder.values().len(), 16);
}

#[test]
fn gates_that_share_wires_share_labels() {
    let mut table = WireTable::new();
    let mut builder = ConstraintSystemBuilder::new();
    let mut rng = thread();
    let lines = ["2 3", "", "2 1 0 1 2 AND", "2 1 0 2 3 XOR", "2 1 2 1 4 AND", "2 1 4 4 5 AND"];
    for line in lines {
        assert_eq!(garble_line(line, &mut table, &mut builder, &mut rng), Ok(()));
        assert!(builder.validate());
    }
    // Five wires of eight oracles, and eighty for each gate.
    assert_eq!(builder.values().len(), 5 * 8 + 3 * 80);
}

#[test]
fn refused_line_keeps_the_wires_before_the_fault() {
    for (line, oracles) in [
        ("2 1 x 1 2 AND", 0),
        ("2 1 0 y 2 AND", 8),
        ("2 1 0 1 z AND", 16),
        ("2 1 0 0 z AND", 8),
        ("2 1 AND", 0),
        ("2 1 0 AND", 8),
        ("2 1 0 1 AND", 16),
    ] {
        let mut table = WireTable::new();
        let mut builder = ConstraintSystemBuilder::new();
        let mut rng = system();
        let result = garble_line(line, &mut table, &mut builder, &mut rng);
        assert_eq!(result, Err(CircuitError::Line(parse_line(line).unwrap_err())));
        assert_eq!(builder.values().len(), oracles);
        assert_eq!(builder.steps().len(), oracles);
        if oracles > 0 {
            let left = table.witness_wire(0, &mut builder, &mut rng);
            assert_eq!(left.witnessed.0.label, [0, 1, 2, 3]);
            assert_eq!(builder.values()[..4], left.labels.0.label);
            assert_eq!(builder.values().len(), oracles);
        }
        assert!(builder.validate());
    }
}

#[test]
fn rows_that_fit_stay_when_the_oracles_run_out() {
    for (limit, rows) in [(40, 0), (55, 0), (56, 1), (72, 2), (103, 3)] {
        let mut table = WireTable::new();
        let mut builder = ConstraintSystemBuilder::with_limit(limit);
        let result = garble_line("2 1 0 1 2 AND", &mut table, &mut builder, &mut thread());
        assert_eq!(result, Err(CircuitError::Builder(BuilderError::TooManyOracles)));
        assert_eq!(builder.values().len(), 3 * 8 + 16 + 16 * rows);
        assert_eq!(builder.steps().len(), 3 * 8 + 16 + 5 * rows);
        assert!(builder.validate());
    }
}

#[test]
fn gate_needs_its_oracles_and_no_more() {
    let wires = AndWires { left: 0, right: 0, out: 1 };
    let mut builder = ConstraintSystemBuilder::with_limit(96);
    assert_eq!(garble_gate(wires, &mut WireTable::new(), &mut builder, &mut thread()), Ok(()));
    assert!(builder.validate());
    assert!(!builder.has_room(1));
    let mut builder = ConstraintSystemBuilder::with_limit(95);
    assert_eq!(
        garble_gate(wires, &mut WireTable::new(), &mut builder, &mut thread()),
        Err(BuilderError::TooManyOracles),
    );
    assert_eq!(builder.values().len(), 80);
}

#[test]
fn circuit_is_garbled_line_by_line() {
    let lines = texts(&["2 3", "2 1 0 1 2 AND", "2 1 0 2 3 XOR", "2 1 2 1 4 AND"]);
    let mut table = WireTable::new();
    let mut builder = ConstraintSystemBuilder::new();
    let mut rng = system();
    assert_eq!(garble_circuit(&lines, &mut table, &mut builder, &mut rng), Ok(()));
    assert_eq!(builder.values().len(), 4 * 8 + 2 * 80);
    assert!(builder.validate());
}

#[test]
fn circuit_stops_at_the_first_refused_line() {
    let lines = texts(&["2 1 0 1 2 AND", "2 1 5 z 3 AND", "2 1 2 1 4 AND"]);
    let mut builder = ConstraintSystemBuilder::new();
    let result = garble_circuit(&lines, &mut WireTable::new(), &mut builder, &mut system());
    assert_eq!(result, Err(CircuitError::Line(LineError::InvalidRight { left: 5 })));
    // The wire named before the fault has labels.
    assert_eq!(builder.values().len(), 3 * 8 + 80 + 8);
    assert!(builder.validate());
}

#[test]
fn circuit_needs_its_oracles_and_no_more() {
    let lines = texts(&["2 1 0 1 2 AND", "2 1 2 1 4 AND"]);
    let needed = 4 * 8 + 2 * 80;
    let mut builder = ConstraintSystemBuilder::with_limit(needed);
    let result = garble_circuit(&lines, &mut WireTable::new(), &mut builder, &mut system());
    assert_eq!(result, Ok(()));
    let mut builder = ConstraintSystemBuilder::with_limit(needed - 1);
    let result = garble_circuit(&lines, &mut WireTable::new(), &mut builder, &mut system());
    assert_eq!(result, Err(CircuitError::Builder(BuilderError::TooManyOracles)));
    // The last row of the last gate is missing.
    assert_eq!(builder.values().len(), needed - 16);
    assert!(builder.validate());
}

#[test]
fn empty_circuit_needs_nothing() {
    let mut builder = ConstraintSystemBuilder::with_limit(0);
    let result = garble_circuit(&texts(&[]), &mut WireTable::new(), &mut builder, &mut system());
    assert_eq!(result, Ok(()));
    assert!(builder.validate());
}

#[test]
fn lines_fit_into_their_bound() {
    let lines = texts(&["2 1 0 1 2 AND", "2 1 3 4 5 AND", "2 1 2 5 6 XOR"]);
    let mut builder = ConstraintSystemBuilder::with_limit(3 * 104);
    let result = garble_circuit(&lines, &mut WireTable::new(), &mut builder, &mut thread());
    assert_eq!(result, Ok(()));
    assert_eq!(builder.values().len(), 2 * 104);
    assert!(builder.validate());
}
