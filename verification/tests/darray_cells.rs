use datrie::{DArray, TRIE_INDEX_ERROR};

#[test]
fn new_array_holds_header_and_root() {
    let da = DArray::new();
    assert_eq!(da.num_cells(), 3);
    assert_eq!(da.get_root(), 2);
    assert_eq!(da.get_free_list(), 1);
    assert_eq!(da.get_check(0), Some(3));
    assert_eq!(da.get_base(1), Some(-1));
    assert_eq!(da.get_check(1), Some(-1));
    assert_eq!(da.get_base(2), Some(3));
    assert_eq!(da.get_check(2), Some(0));
    assert_eq!(da.get_base(3), None);
    assert_eq!(da.get_tail_index(7), TRIE_INDEX_ERROR);
}
