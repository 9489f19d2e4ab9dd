use vstd::prelude::*;

verus! {

/// Remembers which pairs of handles a deep comparison has already visited,
/// so that a walk over two graphs with cycles visits each pair once.
///
/// The pairs are kept in a `Vec`: vstd gives `HashSet` a specification only
/// for key types with a hash model, and a tuple of handles has none.
pub struct EqualityTester {
    checked: Vec<(usize, usize)>,
}

impl EqualityTester {
    /// The pairs visited so far.
    pub closed spec fn visited(&self) -> Set<(usize, usize)> {
        self.checked@.to_set()
    }

    pub fn new() -> (r: Self)
        ensures
            r.visited() == Set::<(usize, usize)>::empty(),
    {
        let r = EqualityTester { checked: Vec::new() };
        assert(r.checked@.to_set() =~= Set::<(usize, usize)>::empty());
        r
    }

    /// Marks a pair as visited; true when it had not been visited before.
    pub fn insert(&mut self, a: usize, b: usize) -> (r: bool)
        ensures
            r == !old(self).visited().contains((a, b)),
            final(self).visited() == old(self).visited().insert((a, b)),
    {
        let ghost s = self.checked@;
        let mut i: usize = 0;
        while i < self.checked.len()
            invariant
                i <= self.checked@.len(),
                self.checked@ == s,
                *self == *old(self),
                forall|j: int| 0 <= j < i ==> self.checked@[j] != (a, b),
            decreases self.checked@.len() - i,
        {
            let (x, y) = self.checked[i];
            if x == a && y == b {
                assert(s.contains((a, b)));
                assert(old(self).visited().insert((a, b)) =~= old(self).visited());
                return false;
            }
            i = i + 1;
        }
        assert(!s.contains((a, b)));
        self.checked.push((a, b));
        assert(self.checked@.to_set() =~= s.to_set().insert((a, b))) by {
            assert forall|p: (usize, usize)| self.checked@.to_set().contains(p) <==> s.to_set().insert((a, b)).contains(p) by {
                if self.checked@.contains(p) {
                    let j = choose|j: int| 0 <= j < self.checked@.len() && self.checked@[j] == p;
                    if j < s.len() {
                        assert(s[j] == p);
                    }
                }
                if s.contains(p) {
                    let j = choose|j: int| 0 <= j < s.len() && s[j] == p;
                    assert(self.checked@[j] == p);
                }
                if p == (a, b) {
                    assert(self.checked@[s.len() as int] == p);
                }
            }
        }
        true
    }
}

} // verus!
