use datrie::{AlphaMap, DArray, ROTrie, Symbols, Trie, TRIE_INDEX_MAX};

fn symbols_of(items: &[u8]) -> Symbols {
    let mut s = Symbols::new();
    for &c in items {
        s.add(c);
    }
    s
}

#[test]
fn symbols_stay_sorted_and_distinct() {
    let s = symbols_of(&[9, 3, 7, 3, 1, 9]);
    assert_eq!(s.num(), 4);
    assert_eq!(s.to_vec(), vec![1, 3, 7, 9]);
    assert_eq!(s.get(0), Some(1));
    assert_eq!(s.get(3), Some(9));
    assert_eq!(s.get(4), None);
}

#[test]
fn pool_grows_to_the_cell_asked_for() {
    let mut da = DArray::new();
    assert!(!da.extend_pool(0));
    assert!(!da.extend_pool(-4));
    assert!(!da.extend_pool(TRIE_INDEX_MAX));
    assert_eq!(da.num_cells(), 3);
    assert!(da.extend_pool(10));
    assert_eq!(da.num_cells(), 11);
    assert_eq!(da.get_check(0), Some(11));
    // the free list runs 1 -> 3 -> 4 .. -> 10 -> 1
    assert_eq!(da.get_check(1), Some(-3));
    assert_eq!(da.get_base(1), Some(-10));
    assert_eq!(da.get_base(3), Some(-1));
    for i in 3..10 {
        assert_eq!(da.get_check(i), Some(-(i + 1)));
        assert_eq!(da.get_base(i + 1), Some(-i));
    }
    assert_eq!(da.get_check(10), Some(-1));
    assert!(da.extend_pool(5));
    assert_eq!(da.num_cells(), 11);
    assert!(da.check_wf());
}

#[test]
fn cells_leave_and_rejoin_the_free_list_in_order() {
    let mut da = DArray::new();
    assert!(da.extend_pool(10));
    da.alloc_cell(5);
    assert_eq!(da.get_check(4), Some(-6));
    assert_eq!(da.get_base(6), Some(-4));
    // cell 5 becomes the child of the root with the label 2
    assert_eq!(da.set_check(5, 2), Some(()));
    assert_eq!(da.set_base(5, 0), Some(()));
    assert_eq!(da.set_check(11, 2), None);
    assert_eq!(da.set_base(-1, 2), None);
    assert!(da.check_wf());
    assert_eq!(da.walk(2, 2), Some(5));
    assert!(da.is_walkable(2, 2));
    assert!(!da.is_walkable(2, 3));
    assert!(da.has_children(2));
    assert!(!da.has_children(5));
    assert!(!da.check_free_cell(5));
    assert!(da.check_free_cell(6));

    da.free_cell(5);
    assert_eq!(da.get_base(5), Some(-4));
    assert_eq!(da.get_check(5), Some(-6));
    assert_eq!(da.get_check(4), Some(-5));
    assert_eq!(da.get_base(6), Some(-5));
    assert!(da.check_wf());
    assert!(da.check_free_cell(5));
    assert!(!da.has_children(2));
}

#[test]
fn header_cells_are_never_free() {
    let mut da = DArray::new();
    assert!(!da.check_free_cell(0));
    assert!(!da.check_free_cell(1));
    assert!(!da.check_free_cell(2));
    assert!(!da.check_free_cell(-3));
    assert!(!da.check_free_cell(TRIE_INDEX_MAX));
    assert_eq!(da.num_cells(), 3);
    // a cell beyond the end is free once the pool has grown to it
    assert!(da.check_free_cell(20));
    assert_eq!(da.num_cells(), 21);
    assert_eq!(da.get_check(0), Some(21));
    assert!(da.check_wf());
}

#[test]
fn least_base_with_room_is_found() {
    let mut da = DArray::new();
    assert!(da.extend_pool(10));
    da.alloc_cell(6);
    da.set_check(6, 2);
    da.set_base(6, 0);
    let syms = symbols_of(&[1, 3]);
    assert!(!da.fit_symbols(3, &syms));
    assert!(da.fit_symbols(4, &syms));
    assert!(!da.fit_symbols(5, &syms));
    assert!(da.fit_symbols(6, &syms));
    assert_eq!(da.find_free_base(&syms), 4);
    // room beyond the end counts
    assert!(da.fit_symbols(100, &syms));
    assert_eq!(da.num_cells(), 104);
    assert!(da.check_wf());
}

#[test]
fn branch_takes_the_cell_at_base_plus_label() {
    let mut da = DArray::new();
    assert_eq!(da.walk(2, 5), None);
    assert_eq!(da.insert_branch(2, 5), Some(8));
    assert_eq!(da.num_cells(), 9);
    assert_eq!(da.get_check(0), Some(9));
    assert_eq!(da.get_check(8), Some(2));
    assert_eq!(da.get_base(8), Some(0));
    assert_eq!(da.get_base(2), Some(3));
    assert_eq!(da.walk(2, 5), Some(8));
    assert_eq!(da.output_symbols(2).to_vec(), vec![5]);
    assert_eq!(da.get_check(1), Some(-3));
    assert_eq!(da.get_base(1), Some(-7));
    assert!(da.check_wf());
    // an edge that exists is handed back
    let before = da.num_cells();
    assert_eq!(da.insert_branch(2, 5), Some(8));
    assert_eq!(da.num_cells(), before);
}

#[test]
fn branch_moves_the_children_when_the_cell_is_taken() {
    let mut da = DArray::new();
    assert_eq!(da.insert_branch(2, 5), Some(8));
    // node 8 has no base yet: its child takes the least base with room
    assert_eq!(da.insert_branch(8, 1), Some(4));
    assert_eq!(da.get_base(8), Some(3));
    assert_eq!(da.get_check(4), Some(8));
    assert!(da.check_wf());
    // the root's cell for the label 1 is taken: its children move
    assert_eq!(da.insert_branch(2, 1), Some(5));
    assert_eq!(da.get_base(2), Some(4));
    assert_eq!(da.walk(2, 1), Some(5));
    assert_eq!(da.walk(2, 5), Some(9));
    assert_eq!(da.get_check(9), Some(2));
    assert_eq!(da.get_base(9), Some(3));
    assert_eq!(da.walk(9, 1), Some(4));
    assert_eq!(da.get_check(4), Some(9));
    assert_eq!(da.get_check(5), Some(2));
    assert_eq!(da.get_base(5), Some(0));
    assert!(da.get_check(8).unwrap() < 0);
    assert!(da.check_free_cell(8));
    assert_eq!(da.output_symbols(2).to_vec(), vec![1, 5]);
    assert_eq!(da.output_symbols(9).to_vec(), vec![1]);
    assert!(da.output_symbols(5).to_vec().is_empty());
    assert!(da.check_wf());
}

fn small_tree() -> DArray {
    let mut da = DArray::new();
    assert_eq!(da.insert_branch(2, 5), Some(8));
    assert_eq!(da.insert_branch(8, 1), Some(4));
    assert_eq!(da.insert_branch(2, 1), Some(5));
    da
}

#[test]
fn prune_frees_the_path_up_to_a_node_with_an_edge() {
    let mut da = small_tree();
    da.prune(4);
    assert_eq!(da.walk(2, 5), None);
    assert_eq!(da.walk(2, 1), Some(5));
    assert!(da.check_free_cell(4));
    assert!(da.check_free_cell(9));
    assert_eq!(da.output_symbols(2).to_vec(), vec![1]);
    assert!(da.check_wf());
    // a node with an edge stays
    da.prune(2);
    assert_eq!(da.walk(2, 1), Some(5));
    da.prune(5);
    assert!(!da.has_children(2));
    assert_eq!(da.get_check(2), Some(0));
    assert!(da.check_wf());
}

#[test]
fn prune_stops_below_the_node_named() {
    let mut da = small_tree();
    da.prune_upto(9, 4);
    assert_eq!(da.walk(2, 5), Some(9));
    assert_eq!(da.walk(9, 1), None);
    assert!(da.check_free_cell(4));
    assert!(da.check_wf());
    // a cell that is no node is left alone
    let cells = da.num_cells();
    da.prune_upto(2, 4);
    da.prune_upto(2, 1000);
    da.prune_upto(2, -5);
    assert_eq!(da.num_cells(), cells);
    assert_eq!(da.walk(2, 5), Some(9));
    assert!(da.check_wf());
}

#[test]
fn separate_nodes_are_visited_in_the_order_of_their_labels() {
    let mut da = small_tree();
    assert_eq!(da.set_tail_index(5, 7), Some(()));
    assert_eq!(da.set_tail_index(4, 9), Some(()));
    assert!(da.is_separate(5));
    assert!(da.is_separate(4));
    assert!(!da.is_separate(9));
    assert_eq!(da.get_tail_index(5), 7);
    assert_eq!(da.get_tail_index(4), 9);
    assert!(da.check_wf());

    let mut key: Vec<u8> = Vec::new();
    assert_eq!(da.first_separate(2, &mut key), Some(5));
    assert_eq!(key, vec![1]);
    assert_eq!(da.next_separate(2, 5, &mut key), Some(4));
    assert_eq!(key, vec![5, 1]);
    assert_eq!(da.next_separate(2, 4, &mut key), None);

    // under the node 9 there is one separate node
    let mut key: Vec<u8> = Vec::new();
    assert_eq!(da.first_separate(9, &mut key), Some(4));
    assert_eq!(key, vec![1]);
    assert_eq!(da.next_separate(9, 4, &mut key), None);
}

#[test]
fn first_separate_finds_nothing_below_a_bare_node() {
    let da = small_tree();
    let mut key: Vec<u8> = Vec::new();
    assert_eq!(da.first_separate(5, &mut key), None);
}

#[test]
fn trie_goes_to_read_only_and_back() {
    let mut am = AlphaMap::new();
    assert!(am.add_range(0x61..=0x7a).is_ok());
    let mut trie: Trie<i32> = Trie::new(am);
    let key: Vec<u32> = "apple".chars().map(|c| c as u32).collect();
    assert!(trie.store(&key, 7));
    let ro: ROTrie<i32> = trie.into_ro();
    assert_eq!(ro.retrieve(&key), Some(&7));
    let mut back = Trie::from_ro(ro);
    assert!(back.is_dirty());
    assert_eq!(back.retrieve(&key), Some(&7));
    assert!(back.delete(&key));
    assert_eq!(back.retrieve(&key), None);
}

#[test]
fn default_array_is_the_new_array() {
    let d = DArray::default();
    assert_eq!(d.num_cells(), 3);
    assert_eq!(d.get_check(0), Some(3));
    assert_eq!(d.get_base(0), Some(0xdafcdafc_u32 as i32));
    assert_eq!(d.get_base(1), Some(-1));
    assert_eq!(d.get_check(1), Some(-1));
    assert_eq!(d.get_base(2), Some(3));
    assert_eq!(d.get_check(2), Some(0));
    assert_eq!(d.get_base(3), None);
}

#[test]
fn unlinked_cell_goes_back_to_its_place() {
    let mut d = DArray::default();
    assert!(d.extend_pool(5));
    d.alloc_cell(4);
    assert_eq!(d.get_check(3), Some(-5));
    assert_eq!(d.get_base(5), Some(-3));
    d.free_cell(4);
    assert_eq!(d.get_base(4), Some(-3));
    assert_eq!(d.get_check(4), Some(-5));
    assert_eq!(d.get_check(3), Some(-4));
    assert_eq!(d.get_base(5), Some(-4));
    assert_eq!(d.get_check(1), Some(-3));
    assert_eq!(d.get_base(1), Some(-5));
    assert!(d.check_wf());
}

#[test]
fn first_branch_of_a_new_array() {
    let mut d = DArray::default();
    assert_eq!(d.insert_branch(2, 1), Some(4));
    assert_eq!(d.get_check(0), Some(5));
    assert_eq!(d.get_check(1), Some(-3));
    assert_eq!(d.get_base(1), Some(-3));
    assert_eq!(d.get_check(3), Some(-1));
    assert_eq!(d.get_base(3), Some(-1));
    assert_eq!(d.get_check(4), Some(2));
    // the least base for the label 1 is 4: cell 4 is taken
    let syms = symbols_of(&[1]);
    assert_eq!(d.find_free_base(&syms), 4);
    assert_eq!(d.get_check(0), Some(6));
    assert_eq!(d.get_check(5), Some(-1));
    assert_eq!(d.get_check(3), Some(-5));
    assert_eq!(d.get_check(4), Some(2));
    assert!(d.check_wf());
}

#[test]
fn pruned_branch_leaves_its_cell_free() {
    let mut d = DArray::default();
    assert_eq!(d.insert_branch(2, 1), Some(4));
    d.prune(4);
    assert_eq!(d.walk(2, 1), None);
    assert_eq!(d.get_check(4), Some(-1));
    assert_eq!(d.get_base(4), Some(-3));
    assert_eq!(d.get_check(3), Some(-4));
    assert_eq!(d.get_base(1), Some(-4));
    assert_eq!(d.get_check(1), Some(-3));
    assert_eq!(d.get_base(2), Some(3));
    assert_eq!(d.get_check(0), Some(5));
}

#[test]
fn relocation_leaves_the_cells_as_worked_out() {
    let mut d = DArray::default();
    assert_eq!(d.insert_branch(2, 5), Some(8));
    assert_eq!(d.insert_branch(8, 1), Some(4));
    assert_eq!(d.insert_branch(2, 1), Some(5));
    // the pool has grown to the place of the moved child, cell 9
    assert_eq!(d.num_cells(), 10);
    assert_eq!(d.get_check(0), Some(10));
    // free cells: 3, 6, 7, 8
    assert_eq!(d.get_check(1), Some(-3));
    assert_eq!(d.get_check(3), Some(-6));
    assert_eq!(d.get_check(6), Some(-7));
    assert_eq!(d.get_check(7), Some(-8));
    assert_eq!(d.get_check(8), Some(-1));
    assert_eq!(d.get_base(1), Some(-8));
    assert_eq!(d.get_base(8), Some(-7));
    assert_eq!(d.get_base(6), Some(-3));
}

#[test]
fn defaults_are_empty() {
    let s = Symbols::default();
    assert_eq!(s.num(), 0);
    let t: datrie::Tail<i32> = datrie::Tail::default();
    assert_eq!(t.num_entries(), 1);
    assert_eq!(t.get_suffix(1), None);
    let c = datrie::DACell::default();
    assert_eq!(c.base, 0);
    assert_eq!(c.check, 0);
}
