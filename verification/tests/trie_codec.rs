use datrie::{AlphaChar, AlphaMap, DArray, Tail, Trie, TrieError};

fn key(s: &str) -> Vec<AlphaChar> {
    let mut v: Vec<AlphaChar> = s.chars().map(|c| c as AlphaChar).collect();
    v.push(0);
    v
}

fn lowercase() -> AlphaMap {
    let mut am = AlphaMap::new();
    assert!(am.add_range(0x61..=0x7a).is_ok());
    am
}

#[test]
fn empty_trie_round_trips() {
    let mut trie: Trie<i32> = Trie::new(lowercase());
    assert!(trie.is_dirty());
    let mut buf: Vec<u8> = Vec::new();
    trie.serialize(&mut buf);
    assert!(!trie.is_dirty());
    assert_eq!(
        buf,
        vec![
            0xd9, 0xfc, 0xd9, 0xfc, 0, 0, 0, 1, 0, 0, 0, 0x61, 0, 0, 0, 0x7a, // alphabet
            0xda, 0xfc, 0xda, 0xfc, 0, 0, 0, 3, // header cell
            0xff, 0xff, 0xff, 0xff, 0xff, 0xff, 0xff, 0xff, // free list
            0, 0, 0, 3, 0, 0, 0, 0, // root
            0xdf, 0xfc, 0xdf, 0xfc, 0, 0, 0, 0, 0, 0, 0, 0, // tail
        ]
    );
    assert_eq!(trie.serialized_size(), buf.len());
    let (back, used) = Trie::<i32>::from_reader(&buf).expect("well-formed bytes");
    assert_eq!(used, buf.len());
    assert!(!back.is_dirty());
    assert_eq!(back.retrieve(&key("a")), None);
    assert_eq!(back.retrieve(&key("")), None);
}

#[test]
fn one_key_has_the_described_layout() {
    let mut trie: Trie<i32> = Trie::new(lowercase());
    assert!(trie.store(&key("ab"), 0x01020304));
    let mut buf: Vec<u8> = Vec::new();
    trie.serialize(&mut buf);
    // root has base 3, the edge `a` (symbol 1) leads to cell 4
    let cells = &buf[16..];
    assert_eq!(&cells[0..8], &[0xda, 0xfc, 0xda, 0xfc, 0, 0, 0, 5]);
    assert_eq!(&cells[8..16], &[0xff, 0xff, 0xff, 0xfd, 0xff, 0xff, 0xff, 0xfd]);
    assert_eq!(&cells[16..24], &[0, 0, 0, 3, 0, 0, 0, 0]);
    assert_eq!(&cells[24..32], &[0xff, 0xff, 0xff, 0xff, 0xff, 0xff, 0xff, 0xff]);
    assert_eq!(&cells[32..40], &[0xff, 0xff, 0xff, 0xff, 0, 0, 0, 2]);
    let tail = &cells[40..];
    assert_eq!(
        tail,
        &[
            0xdf, 0xfc, 0xdf, 0xfc, 0, 0, 0, 1, 0, 0, 0, 0, // signature, count, first free
            0, 0, 0, 0, 0, 2, 2, 0, 1, 2, 3, 4, // entry 1: suffix `b` and terminator, payload
        ]
    );
}

#[test]
fn trie_round_trips_byte_for_byte() {
    let mut trie: Trie<i32> = Trie::new(lowercase());
    let words = [
        "abc", "abd", "abce", "a", "ab", "zebra", "zeal", "zoo", "", "queue", "quiet", "q",
    ];
    for (i, w) in words.iter().enumerate() {
        assert!(trie.store(&key(w), i as i32 * 7 - 3));
    }
    assert!(trie.delete(&key("zeal")));
    assert!(trie.delete(&key("ab")));
    let mut buf: Vec<u8> = Vec::new();
    trie.serialize(&mut buf);
    let mut longer = buf.clone();
    longer.extend_from_slice(&[1, 2, 3]);
    let (mut back, used) = Trie::<i32>::from_reader(&longer).expect("well-formed bytes");
    assert_eq!(used, buf.len());
    let mut again: Vec<u8> = Vec::new();
    back.serialize(&mut again);
    assert_eq!(buf, again);
    for (i, w) in words.iter().enumerate() {
        let expect = if *w == "zeal" || *w == "ab" { None } else { Some(i as i32 * 7 - 3) };
        assert_eq!(back.retrieve(&key(w)).copied(), expect);
    }
    assert!(back.store(&key("ab"), 99));
    assert_eq!(back.retrieve(&key("ab")), Some(&99));
}

#[test]
fn malformed_tries_are_refused() {
    let mut trie: Trie<i32> = Trie::new(lowercase());
    assert!(trie.store(&key("ab"), 1));
    assert!(trie.store(&key("ac"), 2));
    let mut buf: Vec<u8> = Vec::new();
    trie.serialize(&mut buf);
    for cut in 0..buf.len() {
        assert_eq!(Trie::<i32>::from_reader(&buf[..cut]).err(), Some(TrieError::Truncated));
    }
    let mut bad = buf.clone();
    bad[16] = 0;
    assert_eq!(Trie::<i32>::from_reader(&bad).err(), Some(TrieError::InvalidSignature));
    let mut bad = buf.clone();
    bad[0] = 0;
    assert_eq!(Trie::<i32>::from_reader(&bad).err(), Some(TrieError::InvalidSignature));
    // a cell count below the three header cells
    let mut bad = buf.clone();
    bad[23] = 2;
    assert_eq!(Trie::<i32>::from_reader(&bad).err(), Some(TrieError::InvalidCount));
    // the root claims a parent
    let mut bad = buf.clone();
    bad[16 + 2 * 8 + 7] = 3;
    assert_eq!(Trie::<i32>::from_reader(&bad).err(), Some(TrieError::InvalidStructure));
}

#[test]
fn cells_alone_round_trip() {
    let da = DArray::new();
    let mut buf: Vec<u8> = Vec::new();
    da.serialize(&mut buf);
    assert_eq!(da.get_serialized_size(), 24);
    let (back, used) = DArray::read(&buf).expect("well-formed bytes");
    assert_eq!(used, 24);
    assert!(back.check_wf());
    assert_eq!(back.get_base(2), Some(3));
}

#[test]
fn tail_reuses_the_lowest_free_entry() {
    let mut tail: Tail<i32> = Tail::new();
    assert_eq!(tail.add_suffix(&[5, 6, 0]), 1);
    assert_eq!(tail.add_suffix(&[7]), 2);
    assert_eq!(tail.add_suffix(&[0]), 3);
    assert_eq!(tail.get_suffix(2), Some(&[7u8, 0][..]));
    assert!(tail.set_data(1, 11));
    assert!(tail.set_data(2, 22));
    assert!(tail.set_data(3, 33));
    tail.delete(3);
    tail.delete(1);
    assert_eq!(tail.get_suffix(1), None);
    assert_eq!(tail.get_data(1), None);
    assert_eq!(tail.get_data(2), Some(&22));
    assert!(tail.check_wf());
    let mut buf: Vec<u8> = Vec::new();
    tail.serialize(&mut buf);
    assert_eq!(
        buf,
        vec![
            0xdf, 0xfc, 0xdf, 0xfc, 0, 0, 0, 3, 0, 0, 0, 1, // header: first free is 1
            0, 0, 0, 3, 0, 0, // entry 1: free, next free 3
            0, 0, 0, 0, 0, 2, 7, 0, 0, 0, 0, 22, // entry 2
            0, 0, 0, 0, 0, 0, // entry 3: free, last
        ]
    );
    let (back, used) = Tail::<i32>::read(&buf).expect("well-formed bytes");
    assert_eq!(used, buf.len());
    assert_eq!(back.get_data(2), Some(&22));
    assert_eq!(tail.add_suffix(&[9, 9, 0, 4]), 1);
    assert_eq!(tail.get_suffix(1), Some(&[9u8, 9, 0][..]));
    assert_eq!(tail.add_suffix(&[1, 0]), 3);
    assert_eq!(tail.add_suffix(&[2, 0]), 4);
    assert_eq!(tail.walk_char(1, 0, 9), Some(1));
    assert_eq!(tail.walk_char(1, 1, 8), None);
    assert_eq!(tail.walk_char(1, 2, 0), Some(3));
    assert_eq!(tail.walk_char(1, 3, 0), None);
    assert!(tail.is_walkable_char(4, 0, 2));
}

#[test]
fn tail_keeps_suffixes_up_to_their_terminator() {
    let mut tail: Tail<i32> = Tail::new();
    assert_eq!(tail.num_entries(), 1);
    assert!(tail.has_room_for(&[1, 2, 3]));
    assert_eq!(tail.add_suffix(&[1, 2, 3]), 1);
    assert_eq!(tail.num_entries(), 2);
    assert_eq!(tail.get_suffix(1), Some(&[1u8, 2, 3, 0][..]));
    assert_eq!(tail.get_data(1), None);
    assert!(!tail.check_full());
    assert!(tail.set_data(1, -5));
    assert_eq!(tail.get_data(1), Some(&-5));
    assert!(tail.check_full());
    // the entry 0 and entries beyond the end are not in use
    assert_eq!(tail.get_suffix(0), None);
    assert_eq!(tail.get_suffix(2), None);
    assert_eq!(tail.get_suffix(-1), None);
    assert!(!tail.set_data(0, 1));
    assert!(!tail.set_data(2, 1));
    assert!(!tail.set_suffix(2, &[1]));
    // a new suffix keeps the payload
    assert!(tail.set_suffix(1, &[4, 0, 9]));
    assert_eq!(tail.get_suffix(1), Some(&[4u8, 0][..]));
    assert_eq!(tail.get_data(1), Some(&-5));
    assert!(tail.check_wf());
}

#[test]
fn tail_refuses_a_suffix_that_is_too_long() {
    let mut tail: Tail<i32> = Tail::new();
    let long: Vec<u8> = vec![7; 32767];
    assert!(!tail.has_room_for(&long));
    assert_eq!(tail.add_suffix(&long), 0);
    assert_eq!(tail.num_entries(), 1);
    let fits: Vec<u8> = vec![7; 32766];
    assert!(tail.has_room_for(&fits));
    assert_eq!(tail.add_suffix(&fits), 1);
    assert_eq!(tail.get_suffix(1).map(|w| w.len()), Some(32767));
    assert!(!tail.set_suffix(1, &long));
    assert_eq!(tail.get_suffix(1).map(|w| w.len()), Some(32767));
    assert_eq!(tail.walk_char(1, 32765, 7), Some(32766));
    assert_eq!(tail.walk_char(1, 32766, 0), Some(32767));
    assert_eq!(tail.walk_char(1, 32767, 0), None);
    assert_eq!(tail.walk_char(1, -1, 7), None);
    let mut buf: Vec<u8> = Vec::new();
    assert!(tail.set_data(1, 3));
    tail.serialize(&mut buf);
    assert_eq!(buf.len(), 12 + 6 + 32767 + 4);
    assert_eq!(&buf[16..18], &[0x7f, 0xff]);
    let (back, used) = Tail::<i32>::read(&buf).expect("well-formed bytes");
    assert_eq!(used, buf.len());
    assert_eq!(back.get_suffix(1).map(|w| w.len()), Some(32767));
}

fn take_part(
    stream: &[u8],
    at: &mut usize,
    buf: &mut Vec<u8>,
    wanted: fn(&[u8]) -> Option<usize>,
) {
    let start = buf.len();
    while let Some(n) = wanted(&buf[start..]) {
        assert!(n >= 1);
        buf.extend_from_slice(&stream[*at..*at + n]);
        *at += n;
    }
}

#[test]
fn stream_is_read_up_to_the_end_of_the_trie() {
    let mut trie: Trie<i32> = Trie::new(lowercase());
    assert!(trie.store(&key("abc"), 1));
    assert!(trie.store(&key("abd"), 2));
    assert!(trie.store(&key("x"), 3));
    assert!(trie.delete(&key("abd")));
    let mut stream: Vec<u8> = Vec::new();
    trie.serialize(&mut stream);
    let len = stream.len();
    stream.extend_from_slice(&[0xAA; 40]);

    let mut at: usize = 0;
    let mut buf: Vec<u8> = Vec::new();
    take_part(&stream, &mut at, &mut buf, AlphaMap::bytes_wanted);
    assert_eq!(at, 16);
    take_part(&stream, &mut at, &mut buf, DArray::bytes_wanted);
    let header = at;
    buf.extend_from_slice(&stream[at..at + 12]);
    at += 12;
    let entries = Tail::<i32>::entries_wanted(&buf[header..]).expect("a header");
    assert_eq!(entries, 3);
    for _ in 0..entries {
        take_part(&stream, &mut at, &mut buf, Tail::<i32>::entry_bytes_wanted);
    }
    assert_eq!(at, len);
    let (back, used) = Trie::<i32>::from_reader(&buf).expect("a trie");
    assert_eq!(used, len);
    assert_eq!(back.retrieve(&key("abc")), Some(&1));
    assert_eq!(back.retrieve(&key("abd")), None);
    assert_eq!(back.retrieve(&key("x")), Some(&3));
}

#[test]
fn wanted_bytes_follow_the_headers() {
    // the alphabet: signature, number of ranges, ranges
    assert_eq!(AlphaMap::bytes_wanted(&[]), Some(8));
    assert_eq!(AlphaMap::bytes_wanted(&[0xd9, 0xfc, 0xd9]), Some(5));
    assert_eq!(AlphaMap::bytes_wanted(&[0xd9, 0xfc, 0xd9, 0xfc, 0, 0, 0, 2]), Some(16));
    assert_eq!(AlphaMap::bytes_wanted(&[0xd9, 0xfc, 0xd9, 0xfc, 0, 0, 0, 0]), None);
    // a refused alphabet wants nothing more
    assert_eq!(AlphaMap::bytes_wanted(&[1, 2, 3, 4, 0, 0, 0, 2]), None);
    // the double array: signature, number of cells, cells
    assert_eq!(DArray::bytes_wanted(&[0xda, 0xfc]), Some(2));
    assert_eq!(DArray::bytes_wanted(&[0xda, 0xfc, 0xda, 0xfc]), Some(4));
    assert_eq!(DArray::bytes_wanted(&[0xda, 0xfc, 0xda, 0xfc, 0, 0, 0, 3]), Some(16));
    assert_eq!(DArray::bytes_wanted(&[0xda, 0xfc, 0xda, 0xfc, 0, 0, 0, 2]), None);
    assert_eq!(DArray::bytes_wanted(&[0, 0, 0, 0]), None);
    // the tail pool: its header, then entry by entry
    assert_eq!(Tail::<i32>::entries_wanted(&[0xdf, 0xfc, 0xdf]), Err(TrieError::Truncated));
    assert_eq!(
        Tail::<i32>::entries_wanted(&[0xdf, 0xfc, 0xdf, 0xfc, 0, 0, 0, 5, 0, 0, 0, 0]),
        Ok(5)
    );
    assert_eq!(
        Tail::<i32>::entries_wanted(&[0xdf, 0xfc, 0xdf, 0xfc, 0xff, 0, 0, 5, 0, 0, 0, 0]),
        Err(TrieError::InvalidCount)
    );
    assert_eq!(
        Tail::<i32>::entries_wanted(&[0xdf, 0xfc, 0xdf, 0xfd, 0, 0, 0, 5, 0, 0, 0, 0]),
        Err(TrieError::InvalidSignature)
    );
    assert_eq!(Tail::<i32>::entry_bytes_wanted(&[0, 0]), Some(4));
    assert_eq!(Tail::<i32>::entry_bytes_wanted(&[0, 0, 0, 3, 0, 0]), None);
    assert_eq!(Tail::<i32>::entry_bytes_wanted(&[0, 0, 0, 0, 0, 2]), Some(2));
    assert_eq!(Tail::<i32>::entry_bytes_wanted(&[0, 0, 0, 0, 0, 2, 7, 0]), Some(1));
    assert_eq!(Tail::<i32>::entry_bytes_wanted(&[0, 0, 0, 0, 0, 2, 7, 0, 0, 0, 0]), Some(1));
    assert_eq!(Tail::<i32>::entry_bytes_wanted(&[0, 0, 0, 0, 0, 2, 7, 0, 0, 0, 0, 9]), None);
}
