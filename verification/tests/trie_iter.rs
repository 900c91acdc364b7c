use datrie::{AlphaChar, AlphaMap, Trie, TrieIterator};

fn key(s: &str) -> Vec<AlphaChar> {
    let mut v: Vec<AlphaChar> = s.chars().map(|c| c as AlphaChar).collect();
    v.push(0);
    v
}

fn lowercase() -> AlphaMap {
    let mut am = AlphaMap::new();
    assert!(am.add_range(0x61..=0x7a).is_ok());
    am
}

fn collect(trie: &Trie<i32>) -> Vec<(Vec<AlphaChar>, Option<i32>)> {
    let mut out = Vec::new();
    let mut it = trie.iter();
    while let Some((k, d)) = it.next() {
        out.push((k, d.copied()));
    }
    out
}

#[test]
fn iteration_is_lexicographic() {
    let mut trie: Trie<i32> = Trie::new(lowercase());
    assert!(trie.store(&key("abc"), 1));
    assert!(trie.store(&key("abd"), 2));
    assert!(trie.store(&key("abce"), 3));
    assert_eq!(
        collect(&trie),
        vec![(key("abc"), Some(1)), (key("abce"), Some(3)), (key("abd"), Some(2))]
    );
}

#[test]
fn prefix_comes_before_its_extension() {
    let mut trie: Trie<i32> = Trie::new(lowercase());
    assert!(trie.store(&key("ab"), 10));
    assert!(trie.store(&key("a"), 20));
    assert_eq!(collect(&trie), vec![(key("a"), Some(20)), (key("ab"), Some(10))]);
}

#[test]
fn empty_trie_yields_nothing() {
    let trie: Trie<i32> = Trie::new(lowercase());
    assert_eq!(collect(&trie), vec![]);
    let mut it = trie.iter();
    assert!(it.next().is_none());
    assert!(it.next().is_none());
    assert_eq!(it.key(), None);
}

#[test]
fn emptied_trie_yields_nothing() {
    let mut trie: Trie<i32> = Trie::new(lowercase());
    assert!(trie.store(&key("abc"), 1));
    assert!(trie.store(&key("abd"), 2));
    assert!(trie.delete(&key("abc")));
    assert!(trie.delete(&key("abd")));
    assert_eq!(collect(&trie), vec![]);
}

#[test]
fn every_key_is_yielded_once_in_order() {
    let mut trie: Trie<i32> = Trie::new(lowercase());
    let mut words: Vec<String> = Vec::new();
    let mut x: u32 = 12345;
    for _ in 0..400 {
        let mut w = String::new();
        x = x.wrapping_mul(1103515245).wrapping_add(12345);
        let len = (x >> 16) % 7;
        for _ in 0..len {
            x = x.wrapping_mul(1103515245).wrapping_add(12345);
            w.push((0x61 + ((x >> 16) % 5) as u8) as char);
        }
        words.push(w);
    }
    for (i, w) in words.iter().enumerate() {
        trie.store(&key(w), i as i32);
    }
    let mut expect: Vec<(Vec<AlphaChar>, Option<i32>)> = Vec::new();
    let mut sorted: Vec<&String> = words.iter().collect();
    sorted.sort();
    sorted.dedup();
    for w in sorted {
        let last = words.iter().rposition(|x| x == w).unwrap();
        expect.push((key(w), Some(last as i32)));
    }
    assert_eq!(collect(&trie), expect);
    // delete a third of the keys
    let mut gone: Vec<&String> = Vec::new();
    for (i, w) in words.iter().enumerate() {
        if i % 3 == 0 {
            trie.delete(&key(w));
            gone.push(w);
        }
    }
    let left: Vec<(Vec<AlphaChar>, Option<i32>)> =
        expect.into_iter().filter(|(k, _)| !gone.iter().any(|g| key(g) == *k)).collect();
    assert_eq!(collect(&trie), left);
}

#[test]
fn cursor_walks_a_key() {
    let mut trie: Trie<i32> = Trie::new(lowercase());
    assert!(trie.store(&key("abc"), 1));
    assert!(trie.store(&key("abd"), 2));
    assert!(trie.store(&key("x"), 3));
    let mut st = trie.root();
    assert!(!st.is_single());
    assert!(!st.is_terminal());
    assert_eq!(st.walkable_chars(), vec![0x61, 0x78]);
    assert!(st.is_walkable(0x61));
    assert!(!st.is_walkable(0x62));
    assert!(!st.walk(0x62));
    assert!(st.walk(0x61));
    assert!(st.walk(0x62));
    assert_eq!(st.walkable_chars(), vec![0x63, 0x64]);
    assert_eq!(st.get_data(), None);
    let fork = st.clone();
    assert!(st.walk(0x63));
    assert!(st.is_single());
    assert!(st.is_terminal());
    assert!(st.is_leaf());
    assert_eq!(st.get_data(), Some(&1));
    assert_eq!(st.walkable_chars(), vec![0]);
    assert!(st.walk(0));
    assert!(!st.walk(0));
    // the keys under the fork
    let mut it = TrieIterator::new(&fork);
    assert_eq!(it.next().map(|(k, d)| (k, d.copied())), Some((vec![0x63, 0], Some(1))));
    assert_eq!(it.next().map(|(k, d)| (k, d.copied())), Some((vec![0x64, 0], Some(2))));
    assert!(it.next().is_none());
    st.rewind();
    assert!(st.walk(0x78));
    assert!(st.is_leaf());
    assert_eq!(st.get_data(), Some(&3));
}

#[test]
fn node_with_a_terminator_edge_reports_no_characters() {
    let mut trie: Trie<i32> = Trie::new(lowercase());
    assert!(trie.store(&key("a"), 1));
    assert!(trie.store(&key("ab"), 2));
    let mut st = trie.root();
    assert!(st.walk(0x61));
    assert!(st.is_terminal());
    assert!(!st.is_leaf());
    assert_eq!(st.get_data(), Some(&1));
    assert_eq!(st.walkable_chars(), Vec::<AlphaChar>::new());
}

#[test]
fn ten_thousand_keys_survive_a_round_trip() {
    let mut trie: Trie<i32> = Trie::new(lowercase());
    let mut x: u64 = 0x2545F4914F6CDD1D;
    for i in 0..10_000 {
        let mut w = String::new();
        x ^= x << 13;
        x ^= x >> 7;
        x ^= x << 17;
        let len = 1 + (x % 12);
        for _ in 0..len {
            x ^= x << 13;
            x ^= x >> 7;
            x ^= x << 17;
            w.push((0x61 + (x % 26) as u8) as char);
        }
        let ok = trie.store(&key(&w), i);
        assert!(ok, "store {} of {:?} failed", i, w);
        assert_eq!(trie.retrieve(&key(&w)), Some(&i), "key {} {:?}", i, w);
    }
    let mut buf: Vec<u8> = Vec::new();
    trie.serialize(&mut buf);
    let (back, used) = Trie::<i32>::from_reader(&buf).expect("well-formed bytes");
    assert_eq!(used, buf.len());
    let before = collect(&trie);
    let after = collect(&back);
    assert!(before.len() > 8_000, "only {} keys", before.len());
    assert_eq!(before, after);
    for w in before.windows(2) {
        assert!(w[0].0 < w[1].0);
    }
}

#[test]
fn alphabet_with_the_character_zero() {
    let mut am = AlphaMap::new();
    assert!(am.add_range(0..=3).is_ok());
    assert_eq!(am.char_to_trie(0), Some(0));
    assert_eq!(am.char_to_trie(1), Some(2));
    let mut trie: Trie<i32> = Trie::new(am);
    assert!(trie.store(&[1, 2, 0], 5));
    assert!(trie.store(&[1, 0], 6));
    assert!(trie.store(&[3, 3, 1, 0], 7));
    assert_eq!(
        collect(&trie),
        vec![(vec![1, 0], Some(6)), (vec![1, 2, 0], Some(5)), (vec![3, 3, 1, 0], Some(7))]
    );
    let mut buf: Vec<u8> = Vec::new();
    trie.serialize(&mut buf);
    let (back, _) = Trie::<i32>::from_reader(&buf).expect("well-formed bytes");
    assert_eq!(collect(&back), collect(&trie));
}
