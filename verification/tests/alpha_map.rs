use datrie::{
    AlphaChar, AlphaCharToString, AlphaMap, AsAlphaChar, TrieError, ALPHA_CHAR_ERROR,
    TRIE_INDEX_MAX,
};

#[test]
fn symbols_follow_the_order_of_the_characters() {
    let mut am = AlphaMap::new();
    assert_eq!(am.add_range(0x61..=0x63), Ok(()));
    assert_eq!(am.char_to_trie(0), Some(0));
    assert_eq!(am.char_to_trie(0x61), Some(1));
    assert_eq!(am.char_to_trie(0x62), Some(2));
    assert_eq!(am.char_to_trie(0x63), Some(3));
    assert_eq!(am.char_to_trie(0x64), None);
    assert_eq!(am.char_to_trie(0x60), None);
    assert_eq!(am.trie_to_char(0), 0);
    assert_eq!(am.trie_to_char(1), 0x61);
    assert_eq!(am.trie_to_char(3), 0x63);
    assert_eq!(am.trie_to_char(4), ALPHA_CHAR_ERROR);
}

#[test]
fn tables_are_inverse_of_each_other() {
    let mut am = AlphaMap::new();
    assert!(am.add_range(0x30..=0x39).is_ok());
    assert!(am.add_range(0x61..=0x7a).is_ok());
    assert!(am.add_range(0x41..=0x5a).is_ok());
    for ac in (0x30..=0x39u32).chain(0x41..=0x5a).chain(0x61..=0x7a) {
        let t = am.char_to_trie(ac).expect("character of the alphabet");
        assert!(t != 0 && t != TRIE_INDEX_MAX);
        assert_eq!(am.trie_to_char(t as u8), ac);
    }
    assert_eq!(am.trie_to_char(0), 0);
    // a character between two ranges has no symbol
    assert_eq!(am.char_to_trie(0x3a), None);
    assert_eq!(am.char_to_trie(0x5b), None);
}

#[test]
fn ranges_coalesce() {
    let mut am = AlphaMap::new();
    assert!(am.add_range(0x61..=0x63).is_ok());
    assert!(am.add_range(0x64..=0x66).is_ok());
    assert!(am.add_range(0x62..=0x65).is_ok());
    let mut buf: Vec<u8> = Vec::new();
    am.serialize(&mut buf);
    assert_eq!(
        buf,
        vec![0xd9, 0xfc, 0xd9, 0xfc, 0, 0, 0, 1, 0, 0, 0, 0x61, 0, 0, 0, 0x66]
    );
    assert_eq!(am.serialized_size(), 16);
    assert_eq!(am.char_to_trie(0x66), Some(6));
}

#[test]
fn range_of_300_characters_is_rejected() {
    let mut am = AlphaMap::new();
    assert_eq!(am.add_range(1..=300), Err(TrieError::RangeTooLarge));
    assert_eq!(am.char_to_trie(1), None);
    assert_eq!(am.add_range(1..=254), Ok(()));
    assert_eq!(am.add_range(255..=255), Err(TrieError::RangeTooLarge));
    assert_eq!(am.char_to_trie(254), Some(254));
    assert_eq!(am.char_to_trie(255), None);
}

#[test]
fn range_with_the_error_character_is_rejected() {
    let mut am = AlphaMap::new();
    assert_eq!(
        am.add_range((ALPHA_CHAR_ERROR - 10)..=ALPHA_CHAR_ERROR),
        Err(TrieError::RangeIncludesError)
    );
    assert_eq!(am.add_range(0x10FFFE..=0x10FFFF), Ok(()));
    assert_eq!(am.add_range(5..=4), Err(TrieError::InvalidRange));
    assert_eq!(am.char_to_trie(0x10FFFF), Some(2));
}

#[test]
fn alphabet_is_read_back() {
    let mut am = AlphaMap::new();
    assert!(am.add_range(0x61..=0x7a).is_ok());
    assert!(am.add_range(0x30..=0x39).is_ok());
    let mut buf: Vec<u8> = Vec::new();
    am.serialize(&mut buf);
    buf.push(0xff);
    let (back, used) = AlphaMap::read(&buf).expect("well-formed bytes");
    assert_eq!(used, buf.len() - 1);
    let mut again: Vec<u8> = Vec::new();
    back.serialize(&mut again);
    assert_eq!(&buf[..used], &again[..]);
    assert_eq!(back.char_to_trie(0x30), Some(1));
    assert_eq!(back.char_to_trie(0x61), Some(11));
}

#[test]
fn malformed_alphabets_are_refused() {
    assert_eq!(AlphaMap::read(&[0xd9, 0xfc]).err(), Some(TrieError::Truncated));
    assert_eq!(
        AlphaMap::read(&[0xda, 0xfc, 0xda, 0xfc, 0, 0, 0, 0]).err(),
        Some(TrieError::InvalidSignature)
    );
    assert_eq!(
        AlphaMap::read(&[0xd9, 0xfc, 0xd9, 0xfc, 0, 0, 0, 1, 0, 0, 0, 5]).err(),
        Some(TrieError::Truncated)
    );
    assert_eq!(
        AlphaMap::read(&[0xd9, 0xfc, 0xd9, 0xfc, 0, 0, 0, 1, 0, 0, 0, 5, 0, 0, 0, 4]).err(),
        Some(TrieError::InvalidRange)
    );
    assert_eq!(
        AlphaMap::read(&[0xd9, 0xfc, 0xd9, 0xfc, 0, 0, 0, 1, 0, 0, 0, 1, 0, 0, 2, 0]).err(),
        Some(TrieError::RangeTooLarge)
    );
    assert_eq!(
        AlphaMap::read(&[
            0xd9, 0xfc, 0xd9, 0xfc, 0, 0, 0, 1, 0xff, 0xff, 0xff, 0xf0, 0xff, 0xff, 0xff, 0xff
        ])
        .err(),
        Some(TrieError::RangeIncludesError)
    );
}

#[test]
fn packs_a_string() {
    let mut am = AlphaMap::new();
    assert!(am.add_range(0x61..=0x7a).is_ok());
    assert_eq!(am.char_to_trie_str(&[0x61, 0x63]), Some(vec![1, 3, 0]));
    assert_eq!(am.char_to_trie_str(&[]), Some(vec![0]));
    assert_eq!(am.char_to_trie_str(&[0x61, 0x41]), None);
}

#[test]
fn strings_become_keys_and_back() {
    let k: Vec<AlphaChar> = "abc".as_alphachar();
    assert_eq!(k, vec![0x61, 0x62, 0x63, 0]);
    let e: Vec<AlphaChar> = "".as_alphachar();
    assert_eq!(e, vec![0]);
    let u: Vec<AlphaChar> = "é€".as_alphachar();
    assert_eq!(u, vec![0xe9, 0x20ac, 0]);
    assert_eq!(k.as_slice().ac_to_string(), Some(String::from("abc")));
    assert_eq!(u.as_slice().ac_to_string(), Some(String::from("é€")));
    let cut: Vec<AlphaChar> = vec![0x61, 0, 0x62];
    assert_eq!(cut.as_slice().ac_to_string(), Some(String::from("a")));
    let bad: Vec<AlphaChar> = vec![0x61, ALPHA_CHAR_ERROR, 0];
    assert_eq!(bad.as_slice().ac_to_string(), None);
    let surrogate: Vec<AlphaChar> = vec![0xd800, 0];
    assert_eq!(surrogate.as_slice().ac_to_string(), None);
}

#[test]
fn copy_of_an_alphabet_is_its_own() {
    let mut am = AlphaMap::new();
    assert!(am.add_range(0x61..=0x63).is_ok());
    let mut copy = am.clone();
    assert_eq!(copy.num_chars(), 3);
    assert_eq!(copy.char_to_trie(0x62), Some(2));
    assert_eq!(copy.trie_to_char(3), 0x63);
    let mut a: Vec<u8> = Vec::new();
    let mut b: Vec<u8> = Vec::new();
    am.serialize(&mut a);
    copy.serialize(&mut b);
    assert_eq!(a, b);
    // a range added to the copy is not added to the first
    assert!(copy.add_range(0x30..=0x39).is_ok());
    assert_eq!(copy.num_chars(), 13);
    assert_eq!(copy.char_to_trie(0x61), Some(11));
    assert_eq!(am.num_chars(), 3);
    assert_eq!(am.char_to_trie(0x61), Some(1));
    assert_eq!(am.char_to_trie(0x30), None);
}

#[test]
fn default_alphabet_is_empty() {
    let am = AlphaMap::default();
    assert_eq!(am.num_chars(), 0);
    assert_eq!(am.low_symbol(), 1);
    assert_eq!(am.char_to_trie(0), Some(0));
    assert_eq!(am.char_to_trie(0x61), None);
    assert_eq!(am.trie_to_char(1), ALPHA_CHAR_ERROR);
    let mut buf: Vec<u8> = Vec::new();
    am.serialize(&mut buf);
    assert_eq!(buf, vec![0xd9, 0xfc, 0xd9, 0xfc, 0, 0, 0, 0]);
}
