use ramsey_theory::{
    Coloring, PlayError, Schur, SequenceColoring, SequenceProblem, UpperBound, VanDerWaerden,
    WeakSchur,
};

/// Brute force: whether no colour class solves x + y = z (x <= y, or x < y when `distinct`).
fn sum_free(colors: &[usize], distinct: bool) -> bool {
    let len = colors.len();
    for x in 1..=len {
        for y in x..=len {
            if distinct && x == y {
                continue;
            }
            let z = x + y;
            if z <= len && colors[x - 1] == colors[y - 1] && colors[z - 1] == colors[x - 1] {
                return false;
            }
        }
    }
    true
}

#[test]
fn schur_two_colors_has_capacity_five() {
    let p = Schur::new(2).unwrap();
    assert_eq!(p.n_colors(), 2);
    assert_eq!(p.bound(), 5);
}

#[test]
fn problem_tables() {
    assert_eq!(Schur::new(1).unwrap().bound(), 2);
    assert_eq!(Schur::new(3).unwrap().bound(), 14);
    assert_eq!(Schur::new(4).unwrap().bound(), 45);
    assert_eq!(Schur::new(5).unwrap().bound(), 161);
    assert!(Schur::new(0).is_none());
    assert!(Schur::new(6).is_none());
    assert_eq!(WeakSchur::new(2).unwrap().bound(), 9);
    assert_eq!(WeakSchur::new(5).unwrap().bound(), 201);
    assert!(WeakSchur::new(7).is_none());
    assert_eq!(VanDerWaerden::new(2, 3).unwrap().bound(), 9);
    assert_eq!(VanDerWaerden::new(1, 4).unwrap().bound(), 4);
    assert_eq!(VanDerWaerden::new(3, 2).unwrap().bound(), 4);
    assert_eq!(VanDerWaerden::new(6, 3).unwrap().bound(), 243);
    assert!(VanDerWaerden::new(7, 3).is_none());
}

#[test]
fn new_state_is_empty_and_all_colors_legal() {
    let state = SequenceColoring::new(Schur::new(3).unwrap());
    assert_eq!(state.size(), 0);
    assert_eq!(state.legal_moves(), vec![0, 1, 2]);
    assert!(!state.is_full());
}

#[test]
fn invalid_color_is_refused() {
    let mut state = SequenceColoring::new(Schur::new(2).unwrap());
    assert_eq!(state.play(2), Err(PlayError::InvalidColor));
    assert_eq!(state.size(), 0);
}

#[test]
fn doubling_is_illegal_for_schur() {
    let mut state = SequenceColoring::new(Schur::new(2).unwrap());
    assert_eq!(state.play(0), Ok(()));
    assert_eq!(state.legal_moves(), vec![1]);
    assert_eq!(state.play(0), Err(PlayError::IllegalMove));
    assert_eq!(state.size(), 1);
}

#[test]
fn doubling_is_legal_for_weak_schur() {
    let mut state = SequenceColoring::new(WeakSchur::new(2).unwrap());
    assert_eq!(state.play(0), Ok(()));
    assert_eq!(state.legal_moves(), vec![0, 1]);
    assert_eq!(state.play(0), Ok(()));
    // 3 = 1 + 2, both coloured 0.
    assert_eq!(state.legal_moves(), vec![1]);
    assert_eq!(state.play(0), Err(PlayError::IllegalMove));
}

#[test]
fn all_zero_sequence_is_never_legal_for_schur_two() {
    let mut state = SequenceColoring::new(Schur::new(2).unwrap());
    state.play(0).unwrap();
    assert_eq!(state.play(0), Err(PlayError::IllegalMove));
    assert!(!sum_free(&[0, 0, 0], false));
}

#[test]
fn longest_schur_two_coloring_is_terminal() {
    // {1, 4} and {2, 3}: the longest sum-free 2-colouring.
    let mut state = SequenceColoring::new(Schur::new(2).unwrap());
    for c in [0, 1, 1, 0] {
        assert_eq!(state.play(c), Ok(()));
    }
    assert_eq!(state.size(), 4);
    assert!(state.is_full());
    assert_eq!(state.legal_moves(), Vec::<usize>::new());
    let mut rng = rand::thread_rng();
    assert_eq!(state.random_move(&mut rng), None);
}

#[test]
fn limit_reached_is_not_hit_by_legal_play() {
    // The capacities exceed every legal length, so a refused move at the
    // frontier of a full sequence is an illegal one.
    let mut state = SequenceColoring::new(Schur::new(1).unwrap());
    state.play(0).unwrap();
    assert_eq!(state.play(0), Err(PlayError::IllegalMove));
}

#[test]
fn legal_moves_match_brute_force() {
    let mut state = SequenceColoring::new(Schur::new(3).unwrap());
    let mut played: Vec<usize> = Vec::new();
    for c in [0, 1, 1, 0, 2, 2, 0] {
        state.play(c).unwrap();
        played.push(c);
        let legal = state.legal_moves();
        for d in 0..3 {
            let mut extended = played.clone();
            extended.push(d);
            assert_eq!(legal.contains(&d), sum_free(&extended, false));
        }
        let mut sorted = legal.clone();
        sorted.sort();
        assert_eq!(legal, sorted);
    }
}

#[test]
fn random_move_is_legal() {
    let mut rng = rand::thread_rng();
    for _ in 0..50 {
        let mut state = SequenceColoring::new(WeakSchur::new(3).unwrap());
        while let Some(c) = state.random_move(&mut rng) {
            assert!(state.legal_moves().contains(&c));
            state.play(c).unwrap();
        }
        assert!(state.legal_moves().is_empty());
    }
}

#[test]
fn into_iter_reads_back_the_colours() {
    let mut state = SequenceColoring::new(Schur::new(3).unwrap());
    for c in [2, 0, 0, 2, 1] {
        state.play(c).unwrap();
    }
    let mut iter = state.into_iter();
    assert_eq!(iter.len(), 5);
    let mut out = Vec::new();
    while let Some(c) = iter.next() {
        out.push(c);
    }
    assert_eq!(out, vec![2, 0, 0, 2, 1]);
    assert_eq!(iter.len(), 0);
}

#[test]
fn random_playouts_are_sum_free_and_terminal() {
    let mut rng = rand::thread_rng();
    for _ in 0..100 {
        let c = Coloring::random(Schur::new(3).unwrap(), &mut rng);
        assert!(c.len() <= 13);
        assert!(sum_free(c.colors(), false));
        let mut state = SequenceColoring::new(Schur::new(3).unwrap());
        for &x in c.colors() {
            state.play(x).unwrap();
        }
        assert!(state.legal_moves().is_empty());
    }
}

#[test]
fn random_partial_is_a_proper_prefix() {
    let mut rng = rand::thread_rng();
    let mut lengths = Vec::new();
    for _ in 0..200 {
        let c = Coloring::random_partial(Schur::new(2).unwrap(), &mut rng);
        assert!(c.len() <= 3);
        assert!(sum_free(c.colors(), false));
        lengths.push(c.len());
    }
    // A cut that kept the whole playout would show a length of 4 sometimes;
    // shorter prefixes appear too.
    assert!(lengths.iter().any(|&l| l < 3));
}

#[test]
fn order_colors_renames_by_first_appearance() {
    let mut c = Coloring::from_colors(vec![2, 2, 0, 1, 0], 3).unwrap();
    c.order_colors();
    assert_eq!(c.colors(), &vec![0, 0, 1, 2, 1]);
    let mut d = Coloring::from_colors(vec![], 3).unwrap();
    d.order_colors();
    assert!(d.colors().is_empty());
}

#[test]
fn truncate_and_shrink_keep_a_prefix() {
    let mut c = Coloring::from_colors(vec![1, 0, 1, 1], 2).unwrap();
    c.truncate(2);
    c.shrink_to_fit();
    assert_eq!(c.colors(), &vec![1, 0]);
    c.truncate(5);
    assert_eq!(c.len(), 2);
}

#[test]
fn from_colors_rejects_out_of_range() {
    assert!(Coloring::from_colors(vec![0, 3], 3).is_none());
    assert!(Coloring::from_colors(vec![0], 0).is_none());
    assert!(Coloring::from_colors(vec![0, 2], 3).is_some());
}

#[test]
fn random_coloring_ends_terminal() {
    let mut rng = rand::thread_rng();
    for _ in 0..50 {
        let state = SequenceColoring::random_coloring(WeakSchur::new(2).unwrap(), &mut rng);
        assert!(state.size() <= 8);
        assert!(state.legal_moves().is_empty());
    }
}

#[test]
fn random_partial_coloring_is_renamed_by_first_appearance() {
    let mut rng = rand::thread_rng();
    for _ in 0..100 {
        let colors = Coloring::random_partial_coloring(Schur::new(3).unwrap(), &mut rng);
        assert!(colors.len() <= 12);
        assert!(colors.iter().all(|&c| c < 3));
        let mut next_new = 0;
        for &c in &colors {
            assert!(c <= next_new);
            if c == next_new {
                next_new += 1;
            }
        }
        assert!(sum_free(&colors, false));
    }
}
