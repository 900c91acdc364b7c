//! A small ascending set of packed symbols: the labels of the edges that
//! leave one node.

use crate::types::TrieChar;
use vstd::prelude::*;

verus! {

/// Packed symbols in strictly ascending order.
pub struct Symbols {
    symbols: Vec<TrieChar>,
}

impl View for Symbols {
    type V = Seq<TrieChar>;

    closed spec fn view(&self) -> Seq<TrieChar> {
        self.symbols@
    }
}

/// Whether the symbols ascend strictly.
pub open spec fn strictly_ascending(s: Seq<TrieChar>) -> bool {
    forall|i: int, j: int| 0 <= i < j < s.len() ==> s[i] < s[j]
}

impl Symbols {
    /// The invariant of the set: strictly ascending symbols.
    pub open spec fn wf(&self) -> bool {
        strictly_ascending(self@)
    }

    /// The empty set.
    pub fn new() -> (r: Self)
        ensures
            r.wf(),
            r@ == Seq::<TrieChar>::empty(),
    {
        Symbols { symbols: Vec::new() }
    }

    /// Appends a symbol that is larger than all in the set.
    pub fn add_fast(&mut self, c: TrieChar)
        requires
            old(self).wf(),
            old(self)@.len() == 0 || old(self)@.last() < c,
        ensures
            final(self).wf(),
            final(self)@ == old(self)@.push(c),
    {
        self.symbols.push(c);
        proof {
            let s = self@;
            let o = old(self)@;
            assert forall|i: int, j: int| 0 <= i < j < s.len() implies s[i] < s[j] by {
                if j < o.len() {
                    assert(s[i] == o[i] && s[j] == o[j]);
                } else if i < o.len() - 1 {
                    assert(s[i] == o[i]);
                    assert(o[i] < o[o.len() - 1]);
                }
            }
        }
    }

    /// Adds a symbol at its place, unless the set holds it already.
    pub fn add(&mut self, c: TrieChar)
        requires
            old(self).wf(),
        ensures
            final(self).wf(),
            forall|x: TrieChar| final(self)@.contains(x) <==> (old(self)@.contains(x) || x == c),
            old(self)@.contains(c) ==> final(self)@ == old(self)@,
            !old(self)@.contains(c) ==> final(self)@.len() == old(self)@.len() + 1,
    {
        let ghost o = self@;
        let mut i: usize = 0;
        while i < self.symbols.len() && self.symbols[i] < c
            invariant
                self@ == o,
                0 <= i <= o.len(),
                forall|k: int| 0 <= k < i ==> o[k] < c,
            decreases o.len() - i,
        {
            i = i + 1;
        }
        if i < self.symbols.len() && self.symbols[i] == c {
            proof {
                assert(o.contains(c));
            }
            return ;
        }
        self.symbols.insert(i, c);
        proof {
            let s = self@;
            assert(s == o.insert(i as int, c));
            assert forall|a: int, b: int| 0 <= a < b < s.len() implies s[a] < s[b] by {
                let oa = if a < i { a } else { a - 1 };
                let ob = if b < i { b } else { b - 1 };
                if a != i && b != i {
                    assert(s[a] == o[oa] && s[b] == o[ob]);
                } else if a == i {
                    assert(s[b] == o[ob]);
                    if ob > i {
                        assert(o[i as int] < o[ob]);
                    }
                } else {
                    assert(s[a] == o[oa]);
                }
            }
            assert forall|x: TrieChar| s.contains(x) <==> (o.contains(x) || x == c) by {
                if s.contains(x) {
                    let k = choose|k: int| 0 <= k < s.len() && s[k] == x;
                    if k < i {
                        assert(o[k] == x);
                    } else if k > i {
                        assert(o[k - 1] == x);
                    }
                }
                if o.contains(x) {
                    let k = choose|k: int| 0 <= k < o.len() && o[k] == x;
                    if k < i {
                        assert(s[k] == x);
                    } else {
                        assert(s[k + 1] == x);
                    }
                }
                if x == c {
                    assert(s[i as int] == c);
                }
            }
            if o.contains(c) {
                let k = choose|k: int| 0 <= k < o.len() && o[k] == c;
                if k > i {
                    assert(o[i as int] < o[k]);
                }
            }
        }
    }

    /// The number of symbols.
    pub fn num(&self) -> (n: usize)
        ensures
            n == self@.len(),
    {
        self.symbols.len()
    }

    /// The symbol at position `index`, if there is one.
    pub fn get(&self, index: usize) -> (r: Option<TrieChar>)
        ensures
            r == (if index < self@.len() {
                Some(self@[index as int])
            } else {
                None
            }),
    {
        if index < self.symbols.len() {
            Some(self.symbols[index])
        } else {
            None
        }
    }

    /// The symbols, ascending.
    pub fn to_vec(&self) -> (v: Vec<TrieChar>)
        ensures
            v@ == self@,
    {
        self.symbols.clone()
    }
}

impl Default for Symbols {
    /// The empty set.
    fn default() -> (r: Self)
        ensures
            r.wf(),
            r@ == Seq::<TrieChar>::empty(),
    {
        Symbols::new()
    }
}

} // verus!
