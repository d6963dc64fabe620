use particle_sim::records::{
    instances_to_words, results_to_words, CellIndex, ComputeInstance, ComputeInstanceRaw,
    Parameters, Result, SortParams, CELL_INDEX_WORDS, INSTANCE_WORDS, PARAMETERS_WORDS,
    RESULT_WORDS, SORT_PARAMS_WORDS,
};

fn particle(id: u32) -> ComputeInstance {
    ComputeInstance {
        id,
        position: [1.0f32.to_bits(), 2.0f32.to_bits(), 3.0f32.to_bits()],
        radius: 0.2f32.to_bits(),
        velocity: [(-1.0f32).to_bits(), 0.5f32.to_bits(), 0.0f32.to_bits()],
    }
}

#[test]
fn record_sizes_in_words() {
    assert_eq!(INSTANCE_WORDS, 12);
    assert_eq!(PARAMETERS_WORDS, 3);
    assert_eq!(SORT_PARAMS_WORDS, 2);
    assert_eq!(CELL_INDEX_WORDS, 2);
    assert_eq!(RESULT_WORDS, 8);
}

#[test]
fn to_raw_copies_fields_and_zeroes_the_rest() {
    let p = particle(42);
    let raw = p.to_raw();
    assert_eq!(
        raw,
        ComputeInstanceRaw {
            id: 42,
            radius: p.radius,
            cell_index: 0,
            _padding_radius: 0,
            position: p.position,
            _padding_position: 0,
            velocity: p.velocity,
            _padding_velocity: 0,
        }
    );
}

#[test]
fn raw_record_words_are_in_buffer_order() {
    let raw = ComputeInstanceRaw {
        id: 1,
        radius: 2,
        cell_index: 3,
        _padding_radius: 4,
        position: [5, 6, 7],
        _padding_position: 8,
        velocity: [9, 10, 11],
        _padding_velocity: 12,
    };
    let mut out = vec![99];
    raw.push_words(&mut out);
    assert_eq!(out, vec![99, 1, 2, 3, 4, 5, 6, 7, 8, 9, 10, 11, 12]);
}

#[test]
fn instances_to_words_lays_records_end_to_end() {
    let a = ComputeInstance { id: 7, position: [1, 2, 3], radius: 4, velocity: [5, 6, 7] };
    let b = ComputeInstance { id: 8, position: [11, 12, 13], radius: 14, velocity: [15, 16, 17] };
    assert_eq!(
        instances_to_words(&[a, b]),
        vec![7, 4, 0, 0, 1, 2, 3, 0, 5, 6, 7, 0, 8, 14, 0, 0, 11, 12, 13, 0, 15, 16, 17, 0]
    );
    assert_eq!(instances_to_words(&[]), Vec::<u32>::new());
}

#[test]
fn parameter_words() {
    let p = Parameters { time_step: 0.25f32.to_bits(), boundary: 10.0f32.to_bits(), grid_size: 1 };
    assert_eq!(p.to_words(), vec![0.25f32.to_bits(), 10.0f32.to_bits(), 1]);
}

#[test]
fn sort_params_words() {
    assert_eq!(SortParams { j: 2, k: 8 }.to_words(), vec![2, 8]);
}

#[test]
fn cell_index_is_a_plain_pair() {
    let c = CellIndex { start: 3, end: 9 };
    assert_eq!(c, CellIndex { start: 3, end: 9 });
    assert_ne!(c, CellIndex { start: 3, end: 10 });
}

#[test]
fn result_read_takes_six_of_eight_words() {
    let words = vec![0, 0, 0, 0, 0, 0, 0, 0, 10, 11, 12, 13, 14, 15, 16, 17];
    let r = Result::read(&words, 1);
    assert_eq!(
        r,
        Result { position: [10, 11, 12], _padding: 13, velocity: [14, 15, 16], _padding2: 17 }
    );
    let first = Result::read(&words, 0);
    assert_eq!(first.position, [0, 0, 0]);
}

#[test]
fn results_words_round_trip() {
    let a = Result { position: [1, 2, 3], _padding: 0, velocity: [4, 5, 6], _padding2: 0 };
    let b = Result { position: [7, 8, 9], _padding: 0, velocity: [10, 11, 12], _padding2: 0 };
    let words = results_to_words(&[a, b]);
    assert_eq!(words, vec![1, 2, 3, 0, 4, 5, 6, 0, 7, 8, 9, 0, 10, 11, 12, 0]);
    assert_eq!(Result::read(&words, 0), a);
    assert_eq!(Result::read(&words, 1), b);
}

#[test]
fn records_as_bytes() {
    let p = Parameters { time_step: 0x0102_0304, boundary: 0x0506_0708, grid_size: 9 };
    let mut expected = Vec::new();
    expected.extend_from_slice(&0x0102_0304u32.to_ne_bytes());
    expected.extend_from_slice(&0x0506_0708u32.to_ne_bytes());
    expected.extend_from_slice(&9u32.to_ne_bytes());
    assert_eq!(p.to_bytes(), expected);
    assert_eq!(p.to_bytes().len(), 12);

    let s = SortParams { j: 0x0a0b_0c0d, k: 0x8000_0000 };
    let mut sort_bytes = Vec::new();
    sort_bytes.extend_from_slice(&0x0a0b_0c0du32.to_ne_bytes());
    sort_bytes.extend_from_slice(&0x8000_0000u32.to_ne_bytes());
    assert_eq!(s.to_bytes(), sort_bytes);
}
