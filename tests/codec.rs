use ramsey_theory::{Coloring, CompressedColoring};

fn pack(colors: Vec<usize>, n: usize) -> CompressedColoring {
    CompressedColoring::from_coloring(&Coloring::from_colors(colors, n).unwrap())
}

#[test]
fn colors_per_word_values() {
    assert_eq!(CompressedColoring::colors_per_word(1), 32);
    assert_eq!(CompressedColoring::colors_per_word(2), 32);
    assert_eq!(CompressedColoring::colors_per_word(3), 20);
    assert_eq!(CompressedColoring::colors_per_word(4), 16);
    assert_eq!(CompressedColoring::colors_per_word(5), 13);
    assert_eq!(CompressedColoring::colors_per_word(6), 12);
    assert_eq!(CompressedColoring::colors_per_word(8), 10);
    assert_eq!(CompressedColoring::colors_per_word(1 << 32), 1);
}

#[test]
fn first_colour_is_lowest_digit() {
    let c = pack(vec![1, 2, 0, 1], 3);
    assert_eq!(c.words(), &vec![1 + 2 * 3 + 0 * 9 + 27]);
    assert_eq!(c.size(), 4);
    assert_eq!(c.compressed_len(), 1);
}

#[test]
fn binary_packing_uses_all_bits() {
    let colors: Vec<usize> = (0..33).map(|i| if i == 31 || i == 32 { 1 } else { 0 }).collect();
    let c = pack(colors.clone(), 2);
    assert_eq!(c.words(), &vec![1u32 << 31, 1]);
    assert_eq!(c.decompress(), colors);
}

#[test]
fn full_word_of_largest_digits() {
    let colors = vec![4usize; 13];
    let c = pack(colors.clone(), 5);
    assert_eq!(c.words(), &vec![1220703124u32]);
    assert_eq!(c.decompress(), colors);
}

#[test]
fn round_trip_for_many_sequences() {
    for n in 1..=6usize {
        for len in 0..70usize {
            let colors: Vec<usize> = (0..len).map(|i| (i * 7 + i / 3) % n).collect();
            let c = pack(colors.clone(), n);
            let k = CompressedColoring::colors_per_word(n);
            assert_eq!(c.compressed_len(), (len + k - 1) / k);
            assert_eq!(c.decompress(), colors);
        }
    }
}

#[test]
fn empty_sequence_has_no_words() {
    let c = pack(vec![], 4);
    assert_eq!(c.compressed_len(), 0);
    assert_eq!(c.decompress(), Vec::<usize>::new());
}

#[test]
fn pad_to_appends_zero_words_only() {
    let mut c = pack(vec![2, 1, 2], 3);
    let before = c.words().clone();
    c.pad_to(3);
    assert_eq!(c.compressed_len(), 3);
    assert_eq!(&c.words()[..1], &before[..]);
    assert_eq!(&c.words()[1..], &[0, 0]);
    assert_eq!(c.size(), 3);
    assert_eq!(c.decompress(), vec![2, 1, 2]);
    c.pad_to(1);
    assert_eq!(c.compressed_len(), 3);
}

#[test]
fn pad_to_longest_aligns_a_batch() {
    let a: Vec<usize> = (0..40).map(|i| i % 3).collect();
    let b = vec![1usize, 1];
    let c: Vec<usize> = vec![];
    let mut batch = vec![pack(a.clone(), 3), pack(b.clone(), 3), pack(c.clone(), 3)];
    CompressedColoring::pad_to_longest(&mut batch);
    for row in &batch {
        assert_eq!(row.compressed_len(), 2);
    }
    assert_eq!(batch[0].size(), 40);
    assert_eq!(batch[1].size(), 2);
    assert_eq!(batch[2].size(), 0);
    assert_eq!(batch[0].decompress(), a);
    assert_eq!(batch[1].decompress(), b);
    assert_eq!(batch[2].decompress(), c);
    assert_eq!(batch[1].words()[1], 0);
}

#[test]
fn same_as_compares_contents() {
    let a = pack(vec![1, 0, 1], 2);
    let b = pack(vec![1, 0, 1], 2);
    let c = pack(vec![1, 0, 1, 0], 2);
    assert!(a.same_as(&b));
    assert!(!a.same_as(&c));
    assert_eq!(a, b);
}
