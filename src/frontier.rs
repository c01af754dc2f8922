use vstd::multiset::Multiset;
use vstd::prelude::*;

verus! {

broadcast use {vstd::seq_lib::group_to_multiset_ensures, vstd::multiset::group_multiset_axioms};

/// Frontier entries are ordered by cost, then by node index.
pub open spec fn entry_le(a: (u32, usize), b: (u32, usize)) -> bool {
    a.0 < b.0 || (a.0 == b.0 && a.1 <= b.1)
}

/// Exec form of `entry_le`.
fn entry_le_exec(a: (u32, usize), b: (u32, usize)) -> (r: bool)
    ensures
        r == entry_le(a, b),
{
    a.0 < b.0 || (a.0 == b.0 && a.1 <= b.1)
}

/// The position of the parent of position `i > 0` in an implicit binary tree.
pub open spec fn parent(i: int) -> int {
    (i - 1) / 2
}

/// Every entry is no less than its parent's entry.
pub open spec fn heap_ordered(s: Seq<(u32, usize)>) -> bool {
    forall|i: int| 0 < i < s.len() ==> entry_le(s[parent(i)], #[trigger] s[i])
}

/// In a heap-ordered sequence the first entry is a least one.
proof fn lemma_root_least(s: Seq<(u32, usize)>, i: int)
    requires
        heap_ordered(s),
        0 <= i < s.len(),
    ensures
        entry_le(s[0], s[i]),
    decreases i,
{
    if i > 0 {
        lemma_root_least(s, parent(i));
        assert(entry_le(s[parent(i)], s[i]));
    }
}

/// Exchanging two entries keeps the multiset of entries.
proof fn lemma_swap_multiset(s: Seq<(u32, usize)>, i: int, j: int)
    requires
        0 <= i < s.len(),
        0 <= j < s.len(),
    ensures
        s.update(i, s[j]).update(j, s[i]).to_multiset() == s.to_multiset(),
{
    let t = s.update(i, s[j]);
    assert(t[j] == if i == j { s[i] } else { s[j] });
    assert(s.update(i, s[j]).update(j, s[i]).to_multiset() =~= s.to_multiset());
}

/// A reusable min-priority structure over `(cost, node)` entries, kept as a
/// binary heap in one vector.
pub struct Frontier {
    items: Vec<(u32, usize)>,
}

impl View for Frontier {
    type V = Multiset<(u32, usize)>;

    closed spec fn view(&self) -> Multiset<(u32, usize)> {
        self.items@.to_multiset()
    }
}

impl Frontier {
    /// The entries are heap-ordered.
    pub closed spec fn wf(&self) -> bool {
        heap_ordered(self.items@)
    }

    /// An empty frontier.
    pub fn new() -> (r: Frontier)
        ensures
            r.wf(),
            r@ == Multiset::<(u32, usize)>::empty(),
    {
        let r = Frontier { items: Vec::new() };
        proof {
            assert(r@.len() == 0);
            assert(r@ =~= Multiset::<(u32, usize)>::empty());
        }
        r
    }

    /// An empty frontier with room for `capacity` entries before it grows.
    pub fn with_capacity(capacity: usize) -> (r: Frontier)
        ensures
            r.wf(),
            r@ == Multiset::<(u32, usize)>::empty(),
    {
        let r = Frontier { items: Vec::with_capacity(capacity) };
        proof {
            assert(r@.len() == 0);
            assert(r@ =~= Multiset::<(u32, usize)>::empty());
        }
        r
    }

    /// The number of entries held.
    pub fn len(&self) -> (r: usize)
        ensures
            r == self@.len(),
    {
        self.items.len()
    }

    /// Whether no entry is held.
    pub fn is_empty(&self) -> (r: bool)
        ensures
            r <==> self@.len() == 0,
    {
        self.items.len() == 0
    }

    /// Drops every entry, keeping the storage.
    pub fn clear(&mut self)
        ensures
            final(self).wf(),
            final(self)@ == Multiset::<(u32, usize)>::empty(),
    {
        self.items.clear();
        proof {
            assert(self@.len() == 0);
            assert(self@ =~= Multiset::<(u32, usize)>::empty());
        }
    }

    /// Adds the entry `(cost, node)`.
    pub fn push(&mut self, cost: u32, node: usize)
        requires
            old(self).wf(),
        ensures
            final(self).wf(),
            final(self)@ == old(self)@.insert((cost, node)),
    {
        let ghost target = self@.insert((cost, node));
        self.items.push((cost, node));
        let mut k: usize = self.items.len() - 1;
        let mut done = false;
        while k > 0 && !done
            invariant
                k < self.items@.len(),
                self@ == target,
                forall|i: int|
                    0 < i < self.items@.len() && i != k ==> entry_le(
                        self.items@[parent(i)],
                        #[trigger] self.items@[i],
                    ),
                k > 0 ==> forall|c: int|
                    0 < c < self.items@.len() && parent(c) == k ==> entry_le(
                        self.items@[parent(k as int)],
                        #[trigger] self.items@[c],
                    ),
                done ==> k > 0 && entry_le(self.items@[parent(k as int)], self.items@[k as int]),
            decreases k + if done { 0int } else { 1int },
        {
            let p = (k - 1) / 2;
            let x = self.items[k];
            let y = self.items[p];
            if entry_le_exec(y, x) {
                done = true;
            } else {
                let ghost s = self.items@;
                self.items.set(p, x);
                self.items.set(k, y);
                proof {
                    lemma_swap_multiset(s, p as int, k as int);
                    assert(self.items@ == s.update(p as int, s[k as int]).update(k as int, s[p as int]));
                    let t = self.items@;
                    assert forall|i: int| 0 < i < t.len() && i != p implies entry_le(
                        t[parent(i)],
                        #[trigger] t[i],
                    ) by {
                        if i == k {
                        } else if parent(i) == k {
                            assert(entry_le(s[parent(k as int)], s[i]));
                        } else if parent(i) == p {
                            assert(entry_le(s[p as int], s[i]));
                        } else {
                            assert(t[i] == s[i]);
                        }
                    }
                    if p > 0 {
                        assert(entry_le(s[parent(p as int)], s[p as int]));
                        assert forall|c: int| 0 < c < t.len() && parent(c) == p implies entry_le(
                            t[parent(p as int)],
                            #[trigger] t[c],
                        ) by {
                            if c != k {
                                assert(entry_le(s[p as int], s[c]));
                            }
                        }
                    }
                }
                k = p;
            }
        }
    }

    /// Removes and returns a least entry by cost, then node; `None` when empty.
    pub fn pop(&mut self) -> (r: Option<(u32, usize)>)
        requires
            old(self).wf(),
        ensures
            final(self).wf(),
            r is None <==> old(self)@.len() == 0,
            r matches Some(x) ==> {
                &&& old(self)@.contains(x)
                &&& final(self)@ == old(self)@.remove(x)
                &&& forall|y: (u32, usize)| old(self)@.contains(y) ==> entry_le(x, y)
            },
    {
        let n = self.items.len();
        if n == 0 {
            return None;
        }
        let ghost s0 = self.items@;
        proof {
            assert forall|y: (u32, usize)| s0.to_multiset().contains(y) implies entry_le(s0[0], y) by {
                assert(s0.contains(y));
                let t = choose|t: int| 0 <= t < s0.len() && s0[t] == y;
                lemma_root_least(s0, t);
            }
            assert(s0.contains(s0[0]));
        }
        let last = self.items.pop().unwrap();
        proof {
            assert(s0 =~= self.items@.push(last));
        }
        if n == 1 {
            return Some(last);
        }
        let top = self.items[0];
        self.items.set(0, last);
        let len = n - 1;
        let ghost target = s0.to_multiset().remove(s0[0]);
        proof {
            assert(self.items@ == s0.drop_last().update(0, last));
            assert(self@ =~= target);
        }
        let mut k: usize = 0;
        let mut done = false;
        while !done
            invariant
                len == self.items@.len(),
                k < len,
                self@ == target,
                forall|i: int|
                    0 < i < len && parent(i) != k ==> entry_le(
                        self.items@[parent(i)],
                        #[trigger] self.items@[i],
                    ),
                k > 0 ==> forall|c: int|
                    0 < c < len && parent(c) == k ==> entry_le(
                        self.items@[parent(k as int)],
                        #[trigger] self.items@[c],
                    ),
                done ==> forall|c: int|
                    0 < c < len && parent(c) == k ==> entry_le(
                        self.items@[k as int],
                        #[trigger] self.items@[c],
                    ),
            decreases len - k + if done { 0int } else { 1int },
        {
            if k >= len / 2 {
                done = true;
            } else {
                let l = 2 * k + 1;
                let mut m = l;
                if l + 1 < len && !entry_le_exec(self.items[l], self.items[l + 1]) {
                    m = l + 1;
                }
                let x = self.items[k];
                let y = self.items[m];
                if entry_le_exec(x, y) {
                    done = true;
                } else {
                    let ghost s = self.items@;
                    self.items.set(k, y);
                    self.items.set(m, x);
                    proof {
                        lemma_swap_multiset(s, k as int, m as int);
                        assert(self.items@ == s.update(k as int, s[m as int]).update(m as int, s[k as int]));
                        let t = self.items@;
                        assert forall|i: int| 0 < i < len && parent(i) != m implies entry_le(
                            t[parent(i)],
                            #[trigger] t[i],
                        ) by {
                            if i == m {
                            } else if i == k {
                                assert(entry_le(s[parent(k as int)], s[m as int]));
                            } else if parent(i) == k {
                                assert(i == l || i == l + 1);
                            } else {
                                assert(t[i] == s[i]);
                            }
                        }
                        assert forall|c: int| 0 < c < len && parent(c) == m implies entry_le(
                            t[parent(m as int)],
                            #[trigger] t[c],
                        ) by {
                            assert(entry_le(s[m as int], s[c]));
                        }
                    }
                    k = m;
                }
            }
        }
        Some(top)
    }
}

} // verus!
