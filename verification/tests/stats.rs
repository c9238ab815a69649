use crunch::stats::{byte_frequencies, histogram_cut, histogram_row, sorted_frequencies};

#[test]
fn frequencies_count_each_byte() {
    let f = byte_frequencies(b"banana");
    assert_eq!(f.len(), 3);
    assert_eq!(f[&b'a'], 3);
    assert_eq!(f[&b'n'], 2);
    assert_eq!(f[&b'b'], 1);
    assert!(byte_frequencies(b"").is_empty());
}

#[test]
fn sorted_frequencies_most_frequent_first() {
    assert_eq!(
        sorted_frequencies(b"banana!"),
        vec![(b'a', 3), (b'n', 2), (b'!', 1), (b'b', 1)]
    );
}

#[test]
fn histogram_rows() {
    assert_eq!(histogram_row(b'a', 3, 3), ('a', 40));
    assert_eq!(histogram_row(b'n', 2, 3), ('n', 26));
    assert_eq!(histogram_row(10, 1, 3), ('.', 13));
    assert_eq!(histogram_row(127, 1, 1), ('.', 40));
    assert_eq!(histogram_row(b' ', 0, 7), (' ', 0));
}

#[test]
fn histogram_shows_twenty_rows_and_counts_the_rest() {
    let content: Vec<u8> = (0u8..25).collect();
    let sorted = sorted_frequencies(&content);
    let (shown, more) = histogram_cut(&sorted);
    assert_eq!(shown.len(), 20);
    assert_eq!(shown[..], sorted[..20]);
    assert_eq!(more, 5);
    let (all, none) = histogram_cut(&sorted_frequencies(b"banana"));
    assert_eq!(all, vec![(b'a', 3), (b'n', 2), (b'b', 1)]);
    assert_eq!(none, 0);
}
