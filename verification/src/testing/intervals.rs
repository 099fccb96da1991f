//! A set of disjoint intervals, for the overlap check.
use vstd::prelude::*;

verus! {

/// `[a, b)` and `[c, d)` have an address in common.
pub open spec fn overlap(a: int, b: int, c: int, d: int) -> bool {
    a < d && c < b
}

/// Disjoint non-empty intervals, in the order of their starts.
pub struct Intervals {
    items: Vec<(usize, usize)>,
}

impl Intervals {
    /// The intervals, from start to end.
    pub closed spec fn view(&self) -> Map<int, int> {
        Map::new(
            |s: int| exists|i: int| 0 <= i < self.items@.len() && (#[trigger] self.items@[i]).0 == s,
            |s: int|
                self.items@[choose|i: int|
                    0 <= i < self.items@.len() && (#[trigger] self.items@[i]).0 == s].1 as int,
        )
    }

    /// The intervals are in order and do not overlap.
    pub closed spec fn wf(&self) -> bool {
        &&& forall|i: int| 0 <= i < self.items@.len() ==> (#[trigger] self.items@[i]).0
            < self.items@[i].1
        &&& forall|i: int, j: int|
            0 <= i < j < self.items@.len() ==> (#[trigger] self.items@[i]).1 <= (
            #[trigger] self.items@[j]).0
    }

    /// An item is in the view, and the view holds nothing else.
    proof fn lemma_item(&self, i: int)
        requires
            self.wf(),
            0 <= i < self.items@.len(),
        ensures
            self@.dom().contains(self.items@[i].0 as int),
            self@[self.items@[i].0 as int] == self.items@[i].1,
    {
        let s: int = self.items@[i].0 as int;
        let j: int = choose|j: int| 0 <= j < self.items@.len() && (#[trigger] self.items@[j]).0 == s;
        assert(self.items@[i].0 == s);
        if i < j {
            assert(self.items@[i].1 <= self.items@[j].0);
        } else if j < i {
            assert(self.items@[j].1 <= self.items@[i].0);
        }
    }

    /// Intervals are not empty, end within the address space and overlap no other.
    pub proof fn lemma_disjoint(&self, s: int, t: int)
        requires
            self.wf(),
            self@.dom().contains(s),
            self@.dom().contains(t),
        ensures
            0 <= s < self@[s] <= usize::MAX,
            s != t ==> !overlap(s, self@[s], t, self@[t]),
    {
    }

    /// No intervals.
    pub fn new() -> (r: Self)
        ensures
            r.wf(),
            r@ == Map::<int, int>::empty(),
    {
        let r = Intervals { items: Vec::new() };
        proof {
            assert(r@ =~= Map::<int, int>::empty());
        }
        r
    }

    /// How many intervals start below `x`.
    fn below(&self, x: usize) -> (r: usize)
        requires
            self.wf(),
        ensures
            r <= self.items@.len(),
            forall|i: int| 0 <= i < r ==> (#[trigger] self.items@[i]).0 < x,
            forall|i: int| r <= i < self.items@.len() ==> (#[trigger] self.items@[i]).0 >= x,
    {
        let mut lo: usize = 0;
        let mut hi: usize = self.items.len();
        while lo < hi
            invariant
                self.wf(),
                lo <= hi <= self.items@.len(),
                forall|i: int| 0 <= i < lo ==> (#[trigger] self.items@[i]).0 < x,
                forall|i: int| hi <= i < self.items@.len() ==> (#[trigger] self.items@[i]).0 >= x,
            decreases hi - lo,
        {
            let mid: usize = lo + (hi - lo) / 2;
            if self.items[mid].0 < x {
                proof {
                    assert forall|i: int| 0 <= i < mid + 1 implies (#[trigger] self.items@[i]).0
                        < x by {
                        if i < mid {
                            assert(self.items@[i].1 <= self.items@[mid as int].0);
                        }
                    }
                }
                lo = mid + 1;
            } else {
                proof {
                    assert forall|i: int| mid <= i < self.items@.len() implies (
                    #[trigger] self.items@[i]).0 >= x by {
                        if i > mid {
                            assert(self.items@[mid as int].1 <= self.items@[i].0);
                        }
                    }
                }
                hi = mid;
            }
        }
        lo
    }

    /// The last interval that overlaps `[start, end)`: they are disjoint, so the only one that can reach
    /// into it is the last one starting below `end`.
    pub fn clash(&self, start: usize, end: usize) -> (r: Option<(usize, usize)>)
        requires
            self.wf(),
            start < end,
        ensures
            r matches Some(t) ==> {
                &&& self@.dom().contains(t.0 as int)
                &&& self@[t.0 as int] == t.1
                &&& overlap(start as int, end as int, t.0 as int, t.1 as int)
                &&& forall|s: int| #[trigger]
                    self@.dom().contains(s) && overlap(start as int, end as int, s, self@[s])
                        ==> s <= t.0
            },
            r is None ==> forall|s: int| #[trigger]
                self@.dom().contains(s) ==> !overlap(start as int, end as int, s, self@[s]),
    {
        let n: usize = self.below(end);
        if n > 0 {
            let t = self.items[n - 1];
            if t.1 > start {
                proof {
                    self.lemma_item(n - 1);
                    assert forall|s: int| #[trigger] self@.dom().contains(s) && overlap(
                        start as int,
                        end as int,
                        s,
                        self@[s],
                    ) implies s <= t.0 by {
                        let i: int = choose|i: int|
                            0 <= i < self.items@.len() && (#[trigger] self.items@[i]).0 == s;
                        self.lemma_item(i);
                        if i < n - 1 {
                            assert(self.items@[i].1 <= self.items@[n - 1].0);
                        }
                    }
                }
                return Some(t);
            }
        }
        proof {
            assert forall|s: int| #[trigger] self@.dom().contains(s) implies !overlap(
                start as int,
                end as int,
                s,
                self@[s],
            ) by {
                let i: int = choose|i: int|
                    0 <= i < self.items@.len() && (#[trigger] self.items@[i]).0 == s;
                self.lemma_item(i);
                if i < n - 1 {
                    assert(self.items@[i].1 <= self.items@[n - 1].0);
                }
            }
        }
        None
    }

    /// Add an interval that overlaps none.
    pub fn insert(&mut self, start: usize, end: usize)
        requires
            old(self).wf(),
            start < end,
            forall|s: int| #[trigger]
                old(self)@.dom().contains(s) ==> !overlap(
                    start as int,
                    end as int,
                    s,
                    old(self)@[s],
                ),
        ensures
            final(self).wf(),
            final(self)@ == old(self)@.insert(start as int, end as int),
    {
        let n: usize = self.below(start);
        let ghost before = self.items@;
        proof {
            assert forall|i: int| 0 <= i < before.len() implies !overlap(
                start as int,
                end as int,
                (#[trigger] before[i]).0 as int,
                before[i].1 as int,
            ) by {
                self.lemma_item(i);
            }
        }
        self.items.insert(n, (start, end));
        proof {
            let after = self.items@;
            assert forall|i: int| 0 <= i < after.len() implies (#[trigger] after[i]).0
                < after[i].1 by {
                if i < n {
                    assert(after[i] == before[i]);
                } else if i > n {
                    assert(after[i] == before[i - 1]);
                }
            }
            assert forall|i: int, j: int| 0 <= i < j < after.len() implies (#[trigger] after[i]).1
                <= (#[trigger] after[j]).0 by {
                if i < n {
                    assert(after[i] == before[i]);
                } else if i > n {
                    assert(after[i] == before[i - 1]);
                }
                if j < n {
                    assert(after[j] == before[j]);
                } else if j > n {
                    assert(after[j] == before[j - 1]);
                }
            }
            assert(self@ =~= old(self)@.insert(start as int, end as int)) by {
                assert forall|s: int| #[trigger] self@.dom().contains(s) implies old(
                    self,
                )@.insert(start as int, end as int).dom().contains(s) && self@[s] == old(
                    self,
                )@.insert(start as int, end as int)[s] by {
                    let i: int = choose|i: int|
                        0 <= i < after.len() && (#[trigger] after[i]).0 == s;
                    self.lemma_item(i);
                    if i < n {
                        assert(after[i] == before[i]);
                        old(self).lemma_item(i);
                    } else if i > n {
                        assert(after[i] == before[i - 1]);
                        old(self).lemma_item(i - 1);
                    }
                }
                assert forall|s: int|
                    #[trigger] old(self)@.insert(start as int, end as int).dom().contains(
                        s,
                    ) implies self@.dom().contains(s) by {
                    if s == start {
                        assert(after[n as int].0 == s);
                        self.lemma_item(n as int);
                    } else {
                        let i: int = choose|i: int|
                            0 <= i < before.len() && (#[trigger] before[i]).0 == s;
                        if i < n {
                            assert(after[i] == before[i]);
                            self.lemma_item(i);
                        } else {
                            assert(after[i + 1] == before[i]);
                            self.lemma_item(i + 1);
                        }
                    }
                }
            }
        }
    }

    /// Remove the interval that starts at `start`.
    pub fn remove(&mut self, start: usize)
        requires
            old(self).wf(),
            old(self)@.dom().contains(start as int),
        ensures
            final(self).wf(),
            final(self)@ == old(self)@.remove(start as int),
    {
        let n: usize = self.below(start);
        let ghost before = self.items@;
        proof {
            let i: int = choose|i: int| 0 <= i < before.len() && (#[trigger] before[i]).0 == start;
            assert(i >= n);
            if i > n {
                assert(before[n as int].1 <= before[i].0);
            }
        }
        let _ = self.items.remove(n);
        proof {
            let after = self.items@;
            assert forall|i: int| 0 <= i < after.len() implies (#[trigger] after[i]).0
                < after[i].1 by {
                assert(after[i] == if i < n {
                    before[i]
                } else {
                    before[i + 1]
                });
            }
            assert forall|i: int, j: int| 0 <= i < j < after.len() implies (#[trigger] after[i]).1
                <= (#[trigger] after[j]).0 by {
                assert(after[i] == if i < n {
                    before[i]
                } else {
                    before[i + 1]
                });
                assert(after[j] == if j < n {
                    before[j]
                } else {
                    before[j + 1]
                });
            }
            assert(self@ =~= old(self)@.remove(start as int)) by {
                assert forall|s: int| #[trigger] self@.dom().contains(s) implies old(
                    self,
                )@.remove(start as int).dom().contains(s) && self@[s] == old(self)@[s] by {
                    let i: int = choose|i: int|
                        0 <= i < after.len() && (#[trigger] after[i]).0 == s;
                    self.lemma_item(i);
                    let k: int = if i < n {
                        i
                    } else {
                        i + 1
                    };
                    assert(after[i] == before[k]);
                    old(self).lemma_item(k);
                    if k < n {
                        assert(before[k].1 <= before[n as int].0);
                    } else {
                        assert(before[n as int].1 <= before[k].0);
                    }
                }
                assert forall|s: int|
                    #[trigger] old(self)@.remove(start as int).dom().contains(s) implies self@.dom().contains(
                    s,
                ) by {
                    let i: int = choose|i: int|
                        0 <= i < before.len() && (#[trigger] before[i]).0 == s;
                    let k: int = if i < n {
                        i
                    } else {
                        i - 1
                    };
                    assert(after[k] == before[i]);
                    self.lemma_item(k);
                }
            }
        }
    }
}

/// Two intervals that are not empty overlap if and only if an address lies in both.
pub proof fn law_overlapping_intervals_share_an_address(a: int, b: int, c: int, d: int, x: int) -> (y:
    int)
    requires
        a < b,
        c < d,
    ensures
        a <= x < b && c <= x < d ==> overlap(a, b, c, d),
        overlap(a, b, c, d) ==> a <= y < b && c <= y < d,
{
    if a < c {
        c
    } else {
        a
    }
}

} // verus!
