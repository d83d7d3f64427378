use quick_noise::combine::{
    fill_block, load, load_state, store, store_state, Combiner, Layout, Pass,
};

const LAYOUT: Layout = Layout { total_size: 6, state_size: 2 };

/// Sums the octaves; one state plane counts them, the other keeps the last
/// value.
fn initialize(value: Vec<i64>) -> (Vec<Vec<i64>>, Vec<i64>) {
    (vec![vec![1; value.len()], value.clone()], value)
}

fn apply(state: Vec<Vec<i64>>, result: Vec<i64>, value: Vec<i64>) -> (Vec<Vec<i64>>, Vec<i64>) {
    let counts = state[0].iter().map(|c| c + 1).collect();
    let sums = result.iter().zip(&value).map(|(r, v)| r + v).collect();
    (vec![counts, value], sums)
}

fn finalize(state: Vec<Vec<i64>>, result: Vec<i64>) -> Vec<i64> {
    result.iter().zip(&state[0]).map(|(r, c)| r * 100 + c).collect()
}

fn octave(
    init: bool,
    last: bool,
    start: usize,
    value: &[i64],
    state: &mut Vec<i64>,
    dst: &mut Vec<i64>,
) {
    let combiner = Combiner { initialize, apply, finalize };
    fill_block(&combiner, Pass { init, last }, LAYOUT, start, value.to_vec(), state, dst);
}

#[test]
fn buffers_are_read_and_written_in_blocks() {
    let mut buffer = vec![1, 2, 3, 4, 5];
    assert_eq!(load(&buffer, 1, 3), [2, 3, 4]);
    store(&mut buffer, 2, &vec![9, 8]);
    assert_eq!(buffer, [1, 2, 9, 8, 5]);

    let mut state: Vec<i64> = (0..12).collect();
    assert_eq!(load_state(&state, LAYOUT, 1, 2), [vec![1, 2], vec![7, 8]]);
    store_state(&mut state, LAYOUT, 4, &vec![vec![-1, -2], vec![-3, -4]]);
    assert_eq!(state, [0, 1, 2, 3, -1, -2, 6, 7, 8, 9, -3, -4]);
}

#[test]
fn a_single_octave_touches_no_state() {
    let mut state = vec![7; 12];
    let mut dst = vec![0; 6];
    octave(true, true, 1, &[10, 20], &mut state, &mut dst);
    assert_eq!(dst, [0, 1001, 2001, 0, 0, 0]);
    assert_eq!(state, [7; 12]);
}

#[test]
fn octaves_are_carried_in_state() {
    let mut state = vec![-1; 12];
    let mut dst = vec![-1; 6];
    octave(true, false, 2, &[10, 20, 30], &mut state, &mut dst);
    assert_eq!(dst, [-1, -1, 10, 20, 30, -1]);
    assert_eq!(state, [-1, -1, 1, 1, 1, -1, -1, -1, 10, 20, 30, -1]);
    octave(false, false, 2, &[1, 2, 3], &mut state, &mut dst);
    assert_eq!(dst, [-1, -1, 11, 22, 33, -1]);
    assert_eq!(state, [-1, -1, 2, 2, 2, -1, -1, -1, 1, 2, 3, -1]);
    let kept = state.clone();
    octave(false, true, 2, &[100, 100, 100], &mut state, &mut dst);
    assert_eq!(dst, [-1, -1, 11103, 12203, 13303, -1]);
    assert_eq!(state, kept);
}

#[test]
fn the_first_octave_ignores_what_the_buffers_held() {
    let mut state = vec![3; 12];
    let mut other = vec![-8; 12];
    let mut dst = vec![5; 6];
    let mut second = vec![6; 6];
    octave(true, true, 0, &[1, 2, 3, 4, 5, 6], &mut state, &mut dst);
    octave(true, true, 0, &[1, 2, 3, 4, 5, 6], &mut other, &mut second);
    assert_eq!(dst, second);
}

#[test]
fn planes_may_be_absent() {
    let layout = Layout { total_size: 3, state_size: 0 };
    let combiner = Combiner {
        initialize: |v: Vec<i64>| (Vec::new(), v),
        apply: |s: Vec<Vec<i64>>, r: Vec<i64>, v: Vec<i64>| {
            (s, r.iter().zip(&v).map(|(r, v)| r + v).collect())
        },
        finalize: |_: Vec<Vec<i64>>, r: Vec<i64>| r,
    };
    let mut state = Vec::new();
    let mut dst = vec![1, 2, 3];
    let pass = Pass { init: false, last: true };
    fill_block(&combiner, pass, layout, 1, vec![10, 20], &mut state, &mut dst);
    assert_eq!(dst, [1, 12, 23]);
    assert!(state.is_empty());
}
