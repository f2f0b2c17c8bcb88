use vstd::prelude::*;
use vstd::multiset::Multiset;

verus! {

broadcast use vstd::seq_lib::group_to_multiset_ensures;

/// An entry of the frontier: a priority `f` and the index of the node it stands for.
pub type Entry = (usize, usize);

/// `a` must stand nearer to the root than `b`: a smaller priority, then a smaller index.
pub open spec fn before(a: Entry, b: Entry) -> bool {
    a.0 < b.0 || (a.0 == b.0 && a.1 < b.1)
}

/// The order in which entries leave the frontier.
pub fn precedes(a: &Entry, b: &Entry) -> (r: bool)
    ensures
        r == before(*a, *b),
{
    a.0 < b.0 || (a.0 == b.0 && a.1 < b.1)
}

/// No entry stands before its parent in the binary tree laid out over `s`.
pub open spec fn is_heap(s: Seq<Entry>) -> bool {
    forall|n: int| 0 < n < s.len() ==> !before(#[trigger] s[n], s[(n - 1) / 2])
}

/// The root of a heap stands before or equal to every entry.
pub proof fn lemma_root_first(s: Seq<Entry>, n: int)
    requires
        is_heap(s),
        0 <= n < s.len(),
    ensures
        !before(s[n], s[0]),
    decreases n,
{
    if n > 0 {
        lemma_root_first(s, (n - 1) / 2);
    }
}

/// Relies on heap::push with arity 2 and `precedes`: it only swaps entries of the
/// slice, and moves the last entry up until the slice is a heap again.
#[verifier::external_body]
fn sift_up(items: &mut Vec<Entry>)
    requires
        old(items).len() > 0,
    ensures
        final(items)@.len() == old(items)@.len(),
        final(items)@.to_multiset() == old(items)@.to_multiset(),
        is_heap(old(items)@.drop_last()) ==> is_heap(final(items)@),
{
    heap::push(2, |a: &Entry, b: &Entry| precedes(a, b), items.as_mut_slice());
}

/// Relies on heap::pop with arity 2 and `precedes`: it only swaps entries of the
/// slice, moves the root to the end, and makes the rest a heap again.
#[verifier::external_body]
fn sift_root_to_end(items: &mut Vec<Entry>)
    requires
        old(items).len() > 0,
    ensures
        final(items)@.len() == old(items)@.len(),
        final(items)@.to_multiset() == old(items)@.to_multiset(),
        final(items)@.last() == old(items)@[0],
        is_heap(old(items)@) ==> is_heap(final(items)@.drop_last()),
{
    heap::pop(2, |a: &Entry, b: &Entry| precedes(a, b), items.as_mut_slice());
}

/// A min-heap of entries, first by priority.
pub struct Frontier {
    items: Vec<Entry>,
}

impl Frontier {
    /// The entries held, without order.
    pub closed spec fn view(&self) -> Multiset<Entry> {
        self.items@.to_multiset()
    }

    /// The entries are laid out as a heap.
    pub closed spec fn wf(&self) -> bool {
        is_heap(self.items@)
    }

    /// An empty frontier.
    pub fn new() -> (r: Self)
        ensures
            r.wf(),
            r@ == Multiset::<Entry>::empty(),
    {
        let r = Frontier { items: Vec::new() };
        assert(r.items@ =~= Seq::<Entry>::empty());
        r
    }

    /// Whether no entry is left.
    pub fn is_empty(&self) -> (r: bool)
        ensures
            r == (self@.len() == 0),
    {
        self.items.len() == 0
    }

    /// Adds an entry.
    pub fn push(&mut self, e: Entry)
        requires
            old(self).wf(),
        ensures
            final(self).wf(),
            final(self)@ == old(self)@.insert(e),
    {
        let ghost before_items = self.items@;
        self.items.push(e);
        assert(self.items@.drop_last() =~= before_items);
        sift_up(&mut self.items);
    }

    /// Removes and returns an entry that no other entry stands before.
    pub fn pop(&mut self) -> (r: Option<Entry>)
        requires
            old(self).wf(),
        ensures
            final(self).wf(),
            old(self)@.len() == 0 ==> r.is_none() && final(self)@ == old(self)@,
            old(self)@.len() > 0 ==> {
                &&& r matches Some(e)
                &&& old(self)@.contains(e)
                &&& final(self)@ == old(self)@.remove(e)
                &&& forall|x: Entry| #[trigger] old(self)@.contains(x) ==> !before(x, e)
            },
    {
        if self.items.len() == 0 {
            return None;
        }
        let ghost s = self.items@;
        proof {
            assert forall|x: Entry| #[trigger] s.to_multiset().contains(x) implies !before(x, s[0]) by {
                assert(s.contains(x));
                let n = choose|n: int| 0 <= n < s.len() && s[n] == x;
                lemma_root_first(s, n);
            }
        }
        sift_root_to_end(&mut self.items);
        let ghost t = self.items@;
        let e = self.items.pop().unwrap();
        proof {
            assert(t.drop_last().push(t.last()) =~= t);
            assert(self.items@ =~= t.drop_last());
        }
        Some(e)
    }
}

} // verus!
