use datrie::{AlphaChar, AlphaMap, Trie};

fn key(s: &str) -> Vec<AlphaChar> {
    let mut v: Vec<AlphaChar> = s.chars().map(|c| c as AlphaChar).collect();
    v.push(0);
    v
}

fn lowercase() -> AlphaMap {
    let mut am = AlphaMap::new();
    assert!(am.add_range(0x61..=0x7a).is_ok());
    am
}

#[test]
fn store_and_retrieve_three_keys() {
    let mut trie: Trie<i32> = Trie::new(lowercase());
    assert!(trie.store(&key("abc"), 1));
    assert!(trie.store(&key("abd"), 2));
    assert!(trie.store(&key("abce"), 3));
    assert_eq!(trie.retrieve(&key("abc")), Some(&1));
    assert_eq!(trie.retrieve(&key("abd")), Some(&2));
    assert_eq!(trie.retrieve(&key("abce")), Some(&3));
    assert_eq!(trie.retrieve(&key("abcd")), None);
    assert_eq!(trie.retrieve(&key("ab")), None);
    assert_eq!(trie.retrieve(&key("")), None);
}

#[test]
fn shorter_key_after_longer() {
    let mut trie: Trie<i32> = Trie::new(lowercase());
    assert!(trie.store(&key("ab"), 10));
    assert!(trie.store(&key("a"), 20));
    assert_eq!(trie.retrieve(&key("ab")), Some(&10));
    assert_eq!(trie.retrieve(&key("a")), Some(&20));
}

#[test]
fn store_overwrites_and_store_if_absent_does_not() {
    let mut trie: Trie<i32> = Trie::new(lowercase());
    assert!(trie.store(&key("key"), 1));
    assert!(trie.store(&key("key"), 2));
    assert_eq!(trie.retrieve(&key("key")), Some(&2));
    assert!(!trie.store_if_absent(&key("key"), 3));
    assert_eq!(trie.retrieve(&key("key")), Some(&2));
    assert!(trie.store_if_absent(&key("other"), 4));
    assert_eq!(trie.retrieve(&key("other")), Some(&4));
}

#[test]
fn delete_removes_only_the_key() {
    let mut trie: Trie<i32> = Trie::new(lowercase());
    assert!(trie.store(&key("abc"), 1));
    assert!(trie.store(&key("abd"), 2));
    assert!(trie.delete(&key("abc")));
    assert_eq!(trie.retrieve(&key("abc")), None);
    assert_eq!(trie.retrieve(&key("abd")), Some(&2));
    assert!(!trie.delete(&key("abc")));
    assert!(trie.delete(&key("abd")));
    assert_eq!(trie.retrieve(&key("abd")), None);
    assert!(trie.store(&key("abc"), 5));
    assert_eq!(trie.retrieve(&key("abc")), Some(&5));
}

#[test]
fn key_outside_alphabet_is_refused() {
    let mut trie: Trie<i32> = Trie::new(lowercase());
    assert!(!trie.store(&key("aBc"), 1));
    assert_eq!(trie.retrieve(&key("aBc")), None);
    assert!(!trie.delete(&key("aBc")));
    assert!(trie.store(&key("a"), 1));
    assert!(!trie.store(&key("aB"), 2));
    assert_eq!(trie.retrieve(&key("a")), Some(&1));
}

#[test]
fn empty_key_can_be_stored() {
    let mut trie: Trie<i32> = Trie::new(lowercase());
    assert!(trie.store(&key(""), 7));
    assert_eq!(trie.retrieve(&key("")), Some(&7));
    assert!(trie.store(&key("a"), 8));
    assert_eq!(trie.retrieve(&key("")), Some(&7));
    assert_eq!(trie.retrieve(&key("a")), Some(&8));
}

#[test]
fn key_ends_at_first_zero() {
    let mut trie: Trie<i32> = Trie::new(lowercase());
    let with_rest: Vec<AlphaChar> = vec![0x61, 0x62, 0, 0x63];
    assert!(trie.store(&with_rest, 1));
    assert_eq!(trie.retrieve(&key("ab")), Some(&1));
    let unterminated: Vec<AlphaChar> = vec![0x61, 0x62];
    assert_eq!(trie.retrieve(&unterminated), Some(&1));
}

fn shared_prefix_keys() -> Vec<String> {
    let mut keys: Vec<String> = Vec::new();
    for i in 0..26u8 {
        let c = (0x61 + i) as char;
        keys.push(format!("{}", c));
        keys.push(format!("{}{}", c, c));
        keys.push(format!("{}a{}", c, c));
        keys.push(format!("ab{}", c));
        keys.push(format!("abcdefgh{}xyz", c));
        keys.push(format!("z{}z{}z", c, c));
    }
    keys
}

#[test]
fn many_keys_with_shared_prefixes() {
    let mut trie: Trie<i32> = Trie::new(lowercase());
    let keys = shared_prefix_keys();
    for (n, k) in keys.iter().enumerate() {
        assert!(trie.store(&key(k), n as i32));
        // every key stored so far has the payload of its last store
        for k2 in keys.iter().take(n + 1) {
            let last = keys.iter().take(n + 1).rposition(|x| x == k2).unwrap();
            assert_eq!(trie.retrieve(&key(k2)), Some(&(last as i32)));
        }
    }
    // delete the keys at the even places
    for (m, k2) in keys.iter().enumerate() {
        if m % 2 == 0 {
            trie.delete(&key(k2));
        }
    }
    for k2 in keys.iter() {
        let deleted = keys.iter().enumerate().any(|(j, x)| x == k2 && j % 2 == 0);
        let last = keys.iter().rposition(|x| x == k2).unwrap();
        if deleted {
            assert_eq!(trie.retrieve(&key(k2)), None);
        } else {
            assert_eq!(trie.retrieve(&key(k2)), Some(&(last as i32)));
        }
    }
}

#[test]
fn structure_stays_sound_through_stores_and_deletes() {
    let mut trie: Trie<i32> = Trie::new(lowercase());
    let keys = shared_prefix_keys();
    let sound = |trie: &mut Trie<i32>| {
        let mut bytes: Vec<u8> = Vec::new();
        trie.serialize(&mut bytes);
        assert_eq!(bytes.len(), trie.serialized_size());
        // reading validates the free lists, the parents and the leaves
        let (back, used) = Trie::<i32>::from_reader(&bytes).expect("sound structure");
        assert_eq!(used, bytes.len());
        let mut again: Vec<u8> = Vec::new();
        let mut back = back;
        back.serialize(&mut again);
        assert_eq!(again, bytes);
    };
    for (n, k) in keys.iter().enumerate() {
        assert!(trie.store(&key(k), n as i32));
        sound(&mut trie);
    }
    for k in keys.iter().rev() {
        trie.delete(&key(k));
        sound(&mut trie);
        assert_eq!(trie.retrieve(&key(k)), None);
    }
    // nothing is left but the root
    assert!(trie.iter().next().is_none());
}

#[test]
fn refused_store_and_absent_delete_change_nothing() {
    let mut trie: Trie<i32> = Trie::new(lowercase());
    assert!(trie.store(&key("ab"), 7));
    let mut before: Vec<u8> = Vec::new();
    trie.serialize(&mut before);
    assert!(!trie.is_dirty());
    // a character outside the alphabet
    assert!(!trie.store(&key("aB"), 1));
    // a key that is held, without leave to overwrite
    assert!(!trie.store_if_absent(&key("ab"), 2));
    // a key that is not held
    assert!(!trie.delete(&key("abc")));
    assert!(!trie.is_dirty());
    let mut after: Vec<u8> = Vec::new();
    trie.serialize(&mut after);
    assert_eq!(after, before);
    assert_eq!(trie.retrieve(&key("ab")), Some(&7));
}
