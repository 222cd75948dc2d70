use tri_kernel::tri_motor::{classify, execute, full_cycle, Coordinates, TriMotor};

#[test]
fn test_classify_iot_pattern() {
    let data = b"AAAAAABBBBBB";
    let coords = classify(data);
    assert_eq!(coords, Coordinates(2, 1, 1));
}

#[test]
fn test_execute_compress() {
    let data = b"TESTDATA";
    let coords = Coordinates(1, 0, 3);
    let result = execute(coords, data);
    assert!(!result.is_empty());
}

#[test]
fn test_resonance_calculation() {
    let last = Some(Coordinates(1, 0, 3));
    let current = Coordinates(2, 1, 3);
    let resonance = TriMotor::resonance_state(last, current);
    assert_eq!(resonance, 0);
}

#[test]
fn classify_empty_block() {
    assert_eq!(classify(b""), Coordinates(0, 0, 1));
}

#[test]
fn classify_structure_axis_is_length_modulo_five() {
    assert_eq!(classify(b"AAAAA").0, 0);
    assert_eq!(classify(b"AAAAAA").0, 1);
    assert_eq!(classify(b"AAAAAAAAA").0, 4);
}

#[test]
fn classify_complexity_axis_thresholds() {
    assert_eq!(classify(&[7u8; 9]).1, 0);
    assert_eq!(classify(&[7u8; 10]).1, 1);
    assert_eq!(classify(&[7u8; 49]).1, 1);
    assert_eq!(classify(&[7u8; 50]).1, 2);
}

#[test]
fn classify_temporal_axis_thresholds() {
    // 9 changes in 10 bytes: above four fifths.
    assert_eq!(classify(b"ABABABABAB"), Coordinates(0, 1, 3));
    // 5 changes in 8 bytes: above one half, not above four fifths.
    assert_eq!(classify(b"AABCAABC"), Coordinates(3, 0, 2));
    // 4 changes in 5 bytes: exactly four fifths is not above it.
    assert_eq!(classify(b"ABCDE").2, 2);
    // 1 change in 2 bytes: exactly one half is not above it.
    assert_eq!(classify(b"AB").2, 1);
    // a single byte has no neighbour.
    assert_eq!(classify(b"A").2, 1);
}

#[test]
fn member_classify_agrees_with_free_function() {
    let data = b"some block of bytes";
    assert_eq!(TriMotor::classify(data), classify(data));
}

#[test]
fn execute_compresses_under_both_compressing_profiles() {
    let expected: Vec<u8> =
        vec![b'T', 1, b'E', 1, b'S', 1, b'T', 1, b'D', 1, b'A', 1, b'T', 1, b'A', 1];
    assert_eq!(execute(Coordinates(1, 0, 3), b"TESTDATA"), expected);
    assert_eq!(execute(Coordinates(1, 1, 3), b"TESTDATA"), expected);
    assert_eq!(TriMotor::execute(Coordinates(1, 0, 3), b"TESTDATA"), expected);
}

#[test]
fn execute_compresses_runs() {
    let out = execute(Coordinates(1, 0, 3), b"AAAABBC");
    assert_eq!(out, vec![b'A', 4, b'B', 2, b'C', 1]);
}

#[test]
fn execute_compresses_only_the_first_block() {
    let data = [9u8; 40];
    let out = execute(Coordinates(1, 1, 3), &data);
    assert_eq!(out, vec![9, 32]);
}

#[test]
fn execute_gives_the_whole_encoding_of_thirty_two_runs() {
    let data: Vec<u8> = (1..=32u8).collect();
    let out = execute(Coordinates(1, 0, 3), &data);
    let expected: Vec<u8> = (1..=32u8).flat_map(|b| [b, 1]).collect();
    assert_eq!(out, expected);
}

#[test]
fn execute_stops_at_a_zero_byte_of_the_encoding() {
    let out = execute(Coordinates(1, 0, 3), &[5, 0, 5]);
    assert_eq!(out, vec![5, 1]);
}

#[test]
fn execute_passes_data_through_under_other_coordinates() {
    let data = b"TESTDATA";
    assert_eq!(execute(Coordinates(2, 2, 2), data), data.to_vec());
    assert_eq!(execute(Coordinates(3, 2, 2), data), data.to_vec());
    assert_eq!(execute(Coordinates(3, 1, 2), data), data.to_vec());
    assert_eq!(execute(Coordinates(2, 1, 2), data), data.to_vec());
    assert_eq!(execute(Coordinates(0, 0, 0), data), data.to_vec());
    assert_eq!(execute(Coordinates(1, 2, 3), data), data.to_vec());
    assert_eq!(execute(Coordinates(1, 0, 2), data), data.to_vec());
    assert_eq!(execute(Coordinates(0, 0, 3), b""), Vec::<u8>::new());
}

#[test]
fn resonance_without_previous_coordinates_is_zero() {
    assert_eq!(TriMotor::resonance_state(None, Coordinates(4, 2, 3)), 0);
}

#[test]
fn resonance_is_a_third_of_the_axis_distances() {
    let r = TriMotor::resonance_state(Some(Coordinates(0, 0, 0)), Coordinates(4, 2, 3));
    assert_eq!(r, 3);
    let r = TriMotor::resonance_state(Some(Coordinates(4, 2, 3)), Coordinates(0, 0, 0));
    assert_eq!(r, 3);
    let r = TriMotor::resonance_state(Some(Coordinates(4, 0, 1)), Coordinates(0, 2, 3));
    assert_eq!(r, 2);
    let r = TriMotor::resonance_state(Some(Coordinates(255, 255, 255)), Coordinates(0, 0, 0));
    assert_eq!(r, 255);
}

#[test]
fn full_cycle_classifies_executes_and_starts_without_resonance() {
    let (coords, result, resonance) = full_cycle(b"ABCDEF");
    assert_eq!(coords, Coordinates(1, 0, 3));
    assert_eq!(
        result,
        vec![b'A', 1, b'B', 1, b'C', 1, b'D', 1, b'E', 1, b'F', 1]
    );
    assert_eq!(resonance, 0);

    let (coords, result, resonance) = full_cycle(b"AAAAAABBBBBB");
    assert_eq!(coords, Coordinates(2, 1, 1));
    assert_eq!(result, b"AAAAAABBBBBB".to_vec());
    assert_eq!(resonance, 0);
}
