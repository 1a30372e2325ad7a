use std::cmp::Ordering;

use front_dict::order::compare_bytes;
use front_dict::varint::write_varint;
use front_dict::{common_prefix_len, Block, Dict};

#[test]
fn prefix_len_1() {
    let values = [b"aaa".to_vec(), b"aaa".to_vec(), b"aaa".to_vec()];

    let expected = 3;
    let got = common_prefix_len(&values);

    assert_eq!(expected, got)
}

#[test]
fn prefix_len_2() {
    let values = [b"aaaaa".to_vec(), b"aaabc".to_vec(), b"aaaf".to_vec()];

    let expected = 3;
    let got = common_prefix_len(&values);

    assert_eq!(expected, got)
}

#[test]
fn prefix_len_3() {
    let values = [b"aaaaa".to_vec(), b"b".to_vec(), b"aaaf".to_vec()];

    let expected = 0;
    let got = common_prefix_len(&values);

    assert_eq!(expected, got)
}

#[test]
fn block_compression() {
    let input = vec![
        b"aal".to_vec(),
        b"aachen".to_vec(),
        b"aachja".to_vec(),
        b"aadfg".to_vec(),
    ];

    let got = Block::<4>::new(&input).to_vec();

    assert_eq!(input, got);
}

#[test]
fn retrieval() {
    let input = "a, aaa, aa, a, a, a ,a, aachen, aanderthen, aalamabama, aaalligator, behemeoth, bet, bed, ber, bar"
        .split(',')
        .map(|s| s.trim().as_bytes().to_vec());

    let mut input: Vec<_> = input.collect();
    input.sort();

    let mut dict = Dict::<(), 4>::new();

    for elem in input {
        dict.push(elem, ());
    }

    let index = dict.index_of(b"bar");
    assert!(index.is_some(), "element can be found in dictionary");
}

fn sorted_words() -> Vec<Vec<u8>> {
    let mut words: Vec<Vec<u8>> = [
        "apple", "apricot", "banana", "blueberry", "cherry", "citron", "date", "elder", "fig",
        "grape", "guava", "kiwi", "lemon", "lime", "mango",
    ]
    .iter()
    .map(|w| w.as_bytes().to_vec())
    .collect();
    words.sort();
    words
}

#[test]
fn prefix_len_empty_value() {
    let values = [b"abc".to_vec(), Vec::new(), b"abd".to_vec()];
    assert_eq!(common_prefix_len(&values), 0);
}

#[test]
fn prefix_len_single_value() {
    let values = [b"hello".to_vec()];
    assert_eq!(common_prefix_len(&values), 5);
}

#[test]
fn prefix_len_bounded_by_shortest() {
    let values = [b"abcdef".to_vec(), b"abc".to_vec(), b"abcdxy".to_vec()];
    assert_eq!(common_prefix_len(&values), 3);
}

#[test]
fn block_round_trip_equal_and_empty() {
    let same = vec![b"zz".to_vec(), b"zz".to_vec(), b"zz".to_vec()];
    assert_eq!(Block::<3>::new(&same).to_vec(), same);

    let with_empty = vec![Vec::new(), b"a".to_vec(), b"ab".to_vec()];
    assert_eq!(Block::<3>::new(&with_empty).to_vec(), with_empty);

    let all_empty = vec![Vec::new(), Vec::new()];
    assert_eq!(Block::<2>::new(&all_empty).to_vec(), all_empty);
}

#[test]
fn block_round_trip_long_suffix() {
    let long: Vec<u8> = (0..300u32).map(|i| (i % 251) as u8).collect();
    let mut other = long.clone();
    other.push(7);
    let input = vec![Vec::new(), long, other];
    assert_eq!(Block::<3>::new(&input).to_vec(), input);
}

#[test]
fn block_range_compare() {
    let input = vec![b"bb".to_vec(), b"bc".to_vec(), b"bd".to_vec()];
    let block = Block::<3>::new(&input);
    assert_eq!(block.cmp(b"a"), Ordering::Greater);
    assert_eq!(block.cmp(b"bb"), Ordering::Equal);
    assert_eq!(block.cmp(b"bbz"), Ordering::Equal);
    assert_eq!(block.cmp(b"bd"), Ordering::Equal);
    assert_eq!(block.cmp(b"bda"), Ordering::Less);
    assert_eq!(block.cmp(b"c"), Ordering::Less);
}

#[test]
fn byte_order() {
    assert_eq!(compare_bytes(b"abc", b"abd"), Ordering::Less);
    assert_eq!(compare_bytes(b"abd", b"abc"), Ordering::Greater);
    assert_eq!(compare_bytes(b"ab", b"abc"), Ordering::Less);
    assert_eq!(compare_bytes(b"abc", b"ab"), Ordering::Greater);
    assert_eq!(compare_bytes(b"", b""), Ordering::Equal);
    assert_eq!(compare_bytes(b"xyz", b"xyz"), Ordering::Equal);
}

#[test]
fn varint_encoding() {
    let mut out = Vec::new();
    write_varint(&mut out, 0);
    assert_eq!(out, vec![0]);
    let mut out = Vec::new();
    write_varint(&mut out, 127);
    assert_eq!(out, vec![127]);
    let mut out = vec![9];
    write_varint(&mut out, 300);
    assert_eq!(out, vec![9, 0xac, 0x02]);
    let mut out = Vec::new();
    write_varint(&mut out, u64::MAX);
    assert_eq!(out, vec![0xff, 0xff, 0xff, 0xff, 0xff, 0xff, 0xff, 0xff, 0xff, 0x01]);
}

#[test]
fn lookup_finds_every_committed_key() {
    let words = sorted_words();
    let mut dict = Dict::<usize, 4>::new();
    for (i, w) in words.iter().enumerate() {
        dict.push(w.clone(), i * 10);
    }
    for (i, w) in words.iter().enumerate().take(12) {
        let index = dict.index_of(w).expect("committed key is found");
        assert_eq!(index, i);
        assert_eq!(dict.values()[index], i * 10);
    }
}

#[test]
fn lookup_absent_keys() {
    let words = sorted_words();
    let mut dict = Dict::<usize, 4>::new();
    for (i, w) in words.iter().enumerate() {
        dict.push(w.clone(), i);
    }
    assert_eq!(dict.index_of(b"aardvark"), None);
    assert_eq!(dict.index_of(b"zebra"), None);
    assert_eq!(dict.index_of(b"apples"), None);
    assert_eq!(dict.index_of(b"coconut"), None);
    assert_eq!(dict.index_of(b""), None);
}

#[test]
fn lookup_on_empty_dictionary() {
    let dict = Dict::<u8, 4>::new();
    assert_eq!(dict.index_of(b"a"), None);
    assert!(dict.values().is_empty());
}

#[test]
fn pending_keys_are_excluded() {
    let words = sorted_words();
    let mut dict = Dict::<usize, 4>::new();
    for (i, w) in words.iter().enumerate() {
        dict.push(w.clone(), i + 100);
    }
    for w in &words[12..] {
        assert_eq!(dict.index_of(w), None);
    }
    assert!(!dict.values().contains(&112));
    assert!(!dict.values().contains(&114));
}

#[test]
fn values_length_counts_full_blocks() {
    let words = sorted_words();
    let mut dict = Dict::<u32, 4>::new();
    assert_eq!(dict.values().len(), 0);
    for (i, w) in words.iter().enumerate() {
        dict.push(w.clone(), i as u32);
        assert_eq!(dict.values().len(), (i + 1) / 4 * 4);
    }
    assert_eq!(dict.values().len(), 12);
    assert_eq!(dict.values(), &[0, 1, 2, 3, 4, 5, 6, 7, 8, 9, 10, 11]);
}

#[test]
fn lookup_with_duplicate_keys() {
    let mut dict = Dict::<u8, 2>::new();
    for (k, v) in [("a", 1u8), ("b", 2), ("b", 3), ("c", 4)] {
        dict.push(k.as_bytes().to_vec(), v);
    }
    let index = dict.index_of(b"b").expect("duplicated key is found");
    assert!(index == 1 || index == 2);
    assert_eq!(dict.index_of(b"a"), Some(0));
    assert_eq!(dict.index_of(b"c"), Some(3));
    assert_eq!(dict.index_of(b"bb"), None);
}
