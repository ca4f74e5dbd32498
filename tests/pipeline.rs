use ramsey_theory::{
    draw_samples, generate_labels, label_generation, replay, Collector, Coloring,
    CompressedColoring, PlayError, SampleSet, Schur, SequenceColoring, WeakSchur,
};
use std::collections::HashSet;

fn pack(colors: Vec<usize>, n: usize) -> CompressedColoring {
    CompressedColoring::from_coloring(&Coloring::from_colors(colors, n).unwrap())
}

fn sum_free(colors: &[usize], distinct: bool) -> bool {
    let len = colors.len();
    for x in 1..=len {
        for y in x..=len {
            if distinct && x == y {
                continue;
            }
            let z = x + y;
            if z <= len && colors[x - 1] == colors[y - 1] && colors[z - 1] == colors[x - 1] {
                return false;
            }
        }
    }
    true
}

#[test]
fn sample_set_keeps_one_of_each() {
    let mut set = SampleSet::new();
    assert!(set.insert(pack(vec![0, 1], 2)));
    assert!(set.insert(pack(vec![0, 1, 1], 2)));
    assert!(!set.insert(pack(vec![0, 1], 2)));
    assert!(set.insert(pack(vec![], 2)));
    assert!(!set.insert(pack(vec![], 2)));
    assert_eq!(set.len(), 3);
    let items = set.into_vec();
    assert_eq!(items[0].decompress(), vec![0, 1]);
    assert_eq!(items[2].size(), 0);
}

#[test]
fn extend_merges_without_duplicates() {
    let mut a = SampleSet::new();
    a.insert(pack(vec![0], 2));
    a.insert(pack(vec![1], 2));
    let mut b = SampleSet::new();
    b.insert(pack(vec![1], 2));
    b.insert(pack(vec![0, 1], 2));
    a.extend(b);
    assert_eq!(a.len(), 3);
}

#[test]
fn single_sample_of_schur_two() {
    let problem = Schur::new(2).unwrap();
    let mut rng = rand::thread_rng();
    let mut set = SampleSet::new();
    while set.len() < 1 {
        draw_samples(&mut set, problem, 1, 1, &mut rng);
    }
    let items = set.into_vec();
    assert_eq!(items.len(), 1);
    let colors = items[0].decompress();
    assert!(colors.len() <= 4);
    for end in 0..=colors.len() {
        assert!(sum_free(&colors[..end], false));
    }
}

#[test]
fn draws_stop_at_the_target() {
    let problem = Schur::new(3).unwrap();
    let mut rng = rand::thread_rng();
    let mut set = SampleSet::new();
    let drawn = draw_samples(&mut set, problem, 5, 1000, &mut rng);
    assert_eq!(set.len(), 5);
    assert!(5 <= drawn && drawn <= 1000);
    assert_eq!(draw_samples(&mut set, problem, 5, 1000, &mut rng), 0);
    assert_eq!(set.len(), 5);
    let mut empty = SampleSet::new();
    assert_eq!(draw_samples(&mut empty, problem, 3, 1, &mut rng), 1);
    assert_eq!(empty.len(), 1);
    assert!(empty.into_vec()[0].size() < 14);
}

#[test]
fn samples_are_pairwise_distinct() {
    let problem = Schur::new(3).unwrap();
    let mut rng = rand::thread_rng();
    let mut set = SampleSet::new();
    while set.len() < 200 {
        let missing = 200 - set.len();
        draw_samples(&mut set, problem, 200, missing, &mut rng);
    }
    let items = set.into_vec();
    assert!(items.len() >= 200);
    let decoded: HashSet<Vec<usize>> = items.iter().map(|c| c.decompress()).collect();
    assert_eq!(decoded.len(), items.len());
    let mut padded = items.clone();
    CompressedColoring::pad_to_longest(&mut padded);
    let rows: HashSet<Vec<u32>> = padded.iter().map(|c| c.words().clone()).collect();
    let keyed: HashSet<(Vec<u32>, usize)> =
        padded.iter().map(|c| (c.words().clone(), c.size())).collect();
    assert_eq!(keyed.len(), items.len());
    assert!(rows.len() <= items.len());
}

#[test]
fn replayed_labels_agree_with_brute_force() {
    let problem = WeakSchur::new(3).unwrap();
    let mut rng = rand::thread_rng();
    let mut set = SampleSet::new();
    while set.len() < 100 {
        let missing = 100 - set.len();
        draw_samples(&mut set, problem, 100, missing, &mut rng);
    }
    let items = set.into_vec();
    let (sizes, masks) = label_generation(problem, &items).unwrap();
    for (i, item) in items.iter().enumerate() {
        let colors = item.decompress();
        assert_eq!(sizes[i] as usize, colors.len());
        assert!(sum_free(&colors, true));
        for c in 0..3 {
            let mut extended = colors.clone();
            extended.push(c);
            assert_eq!(masks[i][c], colors.len() < 24 && sum_free(&extended, true));
        }
    }
}

#[test]
fn replay_reports_the_refused_move() {
    let problem = Schur::new(2).unwrap();
    assert!(replay(problem, &vec![0, 1, 1, 0]).is_ok());
    assert_eq!(replay(problem, &vec![0, 0, 1]).err(), Some(PlayError::IllegalMove));
    assert_eq!(replay(problem, &vec![0, 0, 0]).err(), Some(PlayError::IllegalMove));
    assert_eq!(replay(problem, &vec![0, 5]).err(), Some(PlayError::InvalidColor));
    let weak = WeakSchur::new(2).unwrap();
    assert!(replay(weak, &vec![0, 0, 1]).is_ok());
}

#[test]
fn labels_of_a_known_batch() {
    let problem = Schur::new(2).unwrap();
    let batch = vec![pack(vec![0, 1, 1, 0], 2), pack(vec![0], 2), pack(vec![], 2)];
    let (rows, sizes, masks) = generate_labels(problem, batch).unwrap();
    assert_eq!(sizes, vec![4, 1, 0]);
    assert_eq!(masks, vec![vec![false, false], vec![false, true], vec![true, true]]);
    assert_eq!(rows.len(), 3);
    for row in &rows {
        assert_eq!(row.compressed_len(), 1);
    }
    assert_eq!(rows[0].decompress(), vec![0, 1, 1, 0]);
}

#[test]
fn labels_refuse_an_illegal_sample() {
    let problem = Schur::new(2).unwrap();
    let batch = vec![pack(vec![0, 1], 2), pack(vec![1, 1], 2)];
    assert_eq!(generate_labels(problem, batch).err(), Some(PlayError::IllegalMove));
}

#[test]
fn collector_signals_stop_once() {
    let mut collector = Collector::new(3);
    let mut first = SampleSet::new();
    first.insert(pack(vec![0], 2));
    first.insert(pack(vec![1], 2));
    assert!(!collector.receive(first));
    assert!(!collector.stop_sent());
    let mut second = SampleSet::new();
    second.insert(pack(vec![1], 2));
    second.insert(pack(vec![0, 1], 2));
    assert!(collector.receive(second));
    assert!(collector.stop_sent());
    let mut third = SampleSet::new();
    third.insert(pack(vec![1, 0], 2));
    assert!(!collector.receive(third));
    assert_eq!(collector.len(), 4);
    assert_eq!(collector.into_samples().len(), 4);
}

#[test]
fn state_from_sequence_round_trip() {
    let mut state = SequenceColoring::new(Schur::new(3).unwrap());
    for c in [1, 0, 0, 1] {
        state.play(c).unwrap();
    }
    let coloring = Coloring::from_sequence(state);
    assert_eq!(coloring.colors(), &vec![1, 0, 0, 1]);
    assert_eq!(coloring.n_colors(), 3);
}
