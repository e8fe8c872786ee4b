//! A binary heap of `(priority, item)` pairs that hands out the lowest priority first.
//!
//! Sifting follows the classic array layout (children of `i` at `2i + 1` and `2i + 2`): a new
//! entry climbs while its priority is strictly lower than its parent's; on removal the last
//! entry takes the root, sinks to the bottom along the child of lower priority (the right one on
//! a tie), then climbs back.
use vstd::prelude::*;

verus! {

/// An entry of the frontier: a priority and the item it belongs to.
pub type Entry = (u64, usize);

proof fn lemma_swap_multiset(s: Seq<Entry>, i: int, j: int)
    requires
        0 <= i < s.len(),
        0 <= j < s.len(),
    ensures
        s.update(i, s[j]).update(j, s[i]).to_multiset() =~= s.to_multiset(),
        s.update(i, s[j]).update(j, s[i]).len() == s.len(),
{
    broadcast use vstd::seq_lib::group_to_multiset_ensures;
    let s1 = s.update(i, s[j]);
    vstd::seq_lib::to_multiset_update(s, i, s[j]);
    vstd::seq_lib::to_multiset_update(s1, j, s[i]);
    if i == j {
        assert(s.update(i, s[j]).update(j, s[i]) =~= s);
    }
}

/// Index of the parent of the entry at `i`.
pub open spec fn parent(i: int) -> int {
    (i - 1) / 2
}

/// No entry has a lower priority than its parent.
pub open spec fn heap_ok(s: Seq<Entry>) -> bool {
    forall|i: int| 0 < i < s.len() ==> s[parent(i)].0 <= #[trigger] s[i].0
}

/// The heap order holds but on the link into `pos`, and the parent of `pos` is no higher
/// than the children of `pos`.
#[verifier::opaque]
spec fn rising(s: Seq<Entry>, pos: int) -> bool {
    &&& forall|i: int| 0 < i < s.len() && i != pos ==> s[parent(i)].0 <= #[trigger] s[i].0
    &&& pos > 0 ==> forall|c: int| 0 < c < s.len() && parent(c) == pos ==> s[parent(pos)].0 <= #[trigger] s[c].0
}

/// The heap order holds but on the links into and out of `pos`, and the parent of `pos` is
/// no higher than the children of `pos`.
#[verifier::opaque]
spec fn sinking(s: Seq<Entry>, pos: int) -> bool {
    &&& forall|i: int| 0 < i < s.len() && i != pos && parent(i) != pos ==> s[parent(i)].0 <= #[trigger] s[i].0
    &&& pos > 0 ==> forall|c: int| 0 < c < s.len() && parent(c) == pos ==> s[parent(pos)].0 <= #[trigger] s[c].0
}

/// The root of a heap has the lowest priority.
pub proof fn lemma_root_min(s: Seq<Entry>, i: int)
    requires
        heap_ok(s),
        0 <= i < s.len(),
    ensures
        s[0].0 <= s[i].0,
    decreases i,
{
    if i > 0 {
        lemma_root_min(s, parent(i));
    }
}

proof fn lemma_rise_step(s: Seq<Entry>, pos: int)
    requires
        0 < pos < s.len(),
        rising(s, pos),
        s[pos].0 < s[parent(pos)].0,
    ensures
        rising(s.update(pos, s[parent(pos)]).update(parent(pos), s[pos]), parent(pos)),
{
    reveal(rising);
    let p = parent(pos);
    let t = s.update(pos, s[p]).update(p, s[pos]);
    assert forall|i: int| 0 < i < t.len() && i != p implies t[parent(i)].0 <= #[trigger] t[i].0 by {
        if i == pos {
        } else if parent(i) == pos {
            assert(s[p].0 <= s[i].0);
        } else if parent(i) == p {
            assert(s[p].0 <= s[i].0);
        }
    }
    if p > 0 {
        assert forall|c: int| 0 < c < t.len() && parent(c) == p implies t[parent(p)].0 <= #[trigger] t[c].0 by {
            assert(s[parent(p)].0 <= s[p].0);
            if c != pos {
                assert(s[p].0 <= s[c].0);
            }
        }
    }
}

proof fn lemma_sink_step(s: Seq<Entry>, pos: int, c: int)
    requires
        0 <= pos < c < s.len(),
        parent(c) == pos,
        sinking(s, pos),
        forall|d: int| 0 < d < s.len() && parent(d) == pos ==> s[c].0 <= #[trigger] s[d].0,
    ensures
        sinking(s.update(pos, s[c]).update(c, s[pos]), c),
{
    reveal(sinking);
    let t = s.update(pos, s[c]).update(c, s[pos]);
    assert forall|i: int| 0 < i < t.len() && i != c && parent(i) != c implies t[parent(i)].0 <= #[trigger] t[i].0 by {
        if i == pos {
            assert(s[parent(pos)].0 <= s[c].0);
        } else if parent(i) == pos {
            assert(s[c].0 <= s[i].0);
        }
    }
    assert forall|d: int| 0 < d < t.len() && parent(d) == c implies t[parent(c)].0 <= #[trigger] t[d].0 by {
        assert(s[c].0 <= s[d].0);
    }
}

proof fn lemma_rise_done(s: Seq<Entry>, pos: int)
    requires
        0 <= pos < s.len(),
        rising(s, pos),
        pos == 0 || s[parent(pos)].0 <= s[pos].0,
    ensures
        heap_ok(s),
{
    reveal(rising);
}

proof fn lemma_rise_start(s: Seq<Entry>, e: Entry)
    requires
        heap_ok(s),
    ensures
        rising(s.push(e), s.len() as int),
{
    reveal(rising);
    let t = s.push(e);
    assert forall|i: int| 0 < i < t.len() && i != s.len() implies t[parent(i)].0 <= #[trigger] t[i].0 by {
        assert(s[parent(i)].0 <= s[i].0);
    }
}

proof fn lemma_sink_done(s: Seq<Entry>, pos: int)
    requires
        0 <= pos < s.len(),
        2 * pos + 1 >= s.len(),
        sinking(s, pos),
    ensures
        rising(s, pos),
{
    reveal(sinking);
    reveal(rising);
}

proof fn lemma_sink_start(s: Seq<Entry>, e: Entry)
    requires
        heap_ok(s),
        s.len() > 0,
    ensures
        sinking(s.update(0, e), 0),
{
    reveal(sinking);
    let t = s.update(0, e);
    assert forall|i: int| 0 < i < t.len() && i != 0 && parent(i) != 0 implies t[parent(i)].0 <= #[trigger] t[i].0 by {
        assert(s[parent(i)].0 <= s[i].0);
    }
}

pub struct MinHeap {
    data: Vec<Entry>,
}

impl MinHeap {
    /// The entries, in the heap's array layout.
    pub closed spec fn view(&self) -> Seq<Entry> {
        self.data@
    }

    pub open spec fn wf(&self) -> bool {
        heap_ok(self@)
    }

    /// An empty heap with room for `capacity` entries.
    pub fn with_capacity(capacity: usize) -> (r: MinHeap)
        ensures
            r.wf(),
            r@ == Seq::<Entry>::empty(),
    {
        MinHeap { data: Vec::with_capacity(capacity) }
    }

    fn swap(&mut self, i: usize, j: usize)
        requires
            i < old(self)@.len(),
            j < old(self)@.len(),
        ensures
            final(self)@ == old(self)@.update(i as int, old(self)@[j as int]).update(
                j as int,
                old(self)@[i as int],
            ),
            final(self)@.to_multiset() =~= old(self)@.to_multiset(),
            final(self)@.len() == old(self)@.len(),
    {
        proof {
            lemma_swap_multiset(self.data@, i as int, j as int);
        }
        let a = self.data[i];
        let b = self.data[j];
        self.data.set(i, b);
        self.data.set(j, a);
    }

    /// Moves the entry at `pos` up while its priority is lower than its parent's.
    fn sift_up(&mut self, pos: usize)
        requires
            pos < old(self)@.len(),
            rising(old(self)@, pos as int),
        ensures
            final(self).wf(),
            final(self)@.to_multiset() =~= old(self)@.to_multiset(),
            final(self)@.len() == old(self)@.len(),
    {
        let mut pos = pos;
        loop
            invariant
                pos < self@.len(),
                rising(self@, pos as int),
                self@.to_multiset() =~= old(self)@.to_multiset(),
                self@.len() == old(self)@.len(),
            ensures
                heap_ok(self@),
                self@.to_multiset() =~= old(self)@.to_multiset(),
                self@.len() == old(self)@.len(),
            decreases pos,
        {
            if pos == 0 {
                proof {
                    lemma_rise_done(self@, 0);
                }
                break;
            }
            let parent = (pos - 1) / 2;
            if self.data[pos].0 >= self.data[parent].0 {
                proof {
                    lemma_rise_done(self@, pos as int);
                }
                break;
            }
            proof {
                lemma_rise_step(self@, pos as int);
            }
            self.swap(pos, parent);
            pos = parent;
        }
    }

    /// Moves the root entry down to a leaf along the lower child, then back up.
    fn sift_down_to_bottom(&mut self)
        requires
            0 < old(self)@.len(),
            sinking(old(self)@, 0),
        ensures
            final(self).wf(),
            final(self)@.to_multiset() =~= old(self)@.to_multiset(),
            final(self)@.len() == old(self)@.len(),
    {
        let end = self.data.len();
        let mut pos: usize = 0;
        while end >= 3 && pos <= (end - 3) / 2
            invariant
                end == self@.len(),
                pos < end,
                sinking(self@, pos as int),
                self@.to_multiset() =~= old(self)@.to_multiset(),
                self@.len() == old(self)@.len(),
            decreases end - pos,
        {
            let mut child = 2 * pos + 1;
            if self.data[child].0 >= self.data[child + 1].0 {
                child = child + 1;
            }
            proof {
                lemma_sink_step(self@, pos as int, child as int);
            }
            self.swap(pos, child);
            pos = child;
        }
        if end >= 2 && (end - 2) % 2 == 0 && pos == (end - 2) / 2 {
            let child = 2 * pos + 1;
            proof {
                lemma_sink_step(self@, pos as int, child as int);
            }
            self.swap(pos, child);
            pos = child;
        }
        proof {
            lemma_sink_done(self@, pos as int);
        }
        self.sift_up(pos);
    }

    /// Adds an entry.
    pub fn push(&mut self, e: Entry)
        requires
            old(self).wf(),
        ensures
            final(self).wf(),
            final(self)@.to_multiset() =~= old(self)@.to_multiset().insert(e),
            final(self)@.len() == old(self)@.len() + 1,
    {
        broadcast use vstd::seq_lib::group_to_multiset_ensures;
        let old_len = self.data.len();
        proof {
            lemma_rise_start(self@, e);
        }
        self.data.push(e);
        self.sift_up(old_len);
    }

    /// Removes and returns an entry of lowest priority, or `None` when the heap is empty.
    pub fn pop(&mut self) -> (r: Option<Entry>)
        requires
            old(self).wf(),
        ensures
            final(self).wf(),
            old(self)@.len() == 0 ==> r is None && final(self)@ == old(self)@,
            r is Some ==> forall|i: int| 0 <= i < old(self)@.len() ==> (r->0).0 <= #[trigger] old(self)@[i].0,
            old(self)@.len() > 0 ==> r is Some && old(self)@.to_multiset() =~= final(self)@.to_multiset().insert(r->0)
                && final(self)@.len() == old(self)@.len() - 1,
    {
        broadcast use vstd::seq_lib::group_to_multiset_ensures;
        let ghost all = self.data@;
        proof {
            assert forall|i: int| 0 <= i < all.len() implies all[0].0 <= #[trigger] all[i].0 by {
                lemma_root_min(all, i);
            }
        }
        match self.data.pop() {
            None => None,
            Some(item) => {
                proof {
                    assert(all =~= self.data@.push(item));
                }
                if self.data.len() > 0 {
                    let top = self.data[0];
                    let ghost rest = self.data@;
                    self.data.set(0, item);
                    proof {
                        vstd::seq_lib::to_multiset_update(rest, 0, item);
                        assert(rest.to_multiset().remove(top).insert(top) =~= rest.to_multiset());
                        assert(top == all[0]);
                        assert(heap_ok(rest));
                        lemma_sink_start(rest, item);
                    }
                    self.sift_down_to_bottom();
                    Some(top)
                } else {
                    Some(item)
                }
            },
        }
    }
}

} // verus!
