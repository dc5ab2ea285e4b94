use vstd::prelude::*;

verus! {

/// Position of the first occurrence of `el` in `s`, or `s.len()` if there is none.
pub open spec fn first_index(s: Seq<usize>, el: usize) -> int
    decreases s.len(),
{
    if s.len() == 0 {
        0
    } else if s[0] == el {
        0
    } else {
        1 + first_index(s.drop_first(), el)
    }
}

pub proof fn lemma_first_index(s: Seq<usize>, el: usize)
    ensures
        0 <= first_index(s, el) <= s.len(),
        first_index(s, el) < s.len() <==> s.contains(el),
        first_index(s, el) < s.len() ==> s[first_index(s, el)] == el,
        forall|j: int| 0 <= j < first_index(s, el) ==> s[j] != el,
    decreases s.len(),
{
    if s.len() > 0 && s[0] != el {
        lemma_first_index(s.drop_first(), el);
        if s.contains(el) {
            let k = choose|k: int| 0 <= k < s.len() && s[k] == el;
            assert(s.drop_first()[k - 1] == el);
        }
        if s.drop_first().contains(el) {
            let k = choose|k: int| 0 <= k < s.drop_first().len() && s.drop_first()[k] == el;
            assert(s[k + 1] == el);
        }
        assert forall|j: int| 0 <= j < first_index(s, el) implies s[j] != el by {
            if j > 0 {
                assert(s[j] == s.drop_first()[j - 1]);
            }
        }
    } else if s.len() > 0 {
        assert(s[0] == el);
    }
}

/// An ordered queue of handles (pages of a bin, or segments with spare pages).
///
/// The first handle is the one the allocator looks at first.
pub struct LinkedList {
    items: Vec<usize>,
}

impl View for LinkedList {
    type V = Seq<usize>;

    closed spec fn view(&self) -> Seq<usize> {
        self.items@
    }
}

impl LinkedList {
    pub fn new() -> (r: Self)
        ensures
            r@ == Seq::<usize>::empty(),
    {
        LinkedList { items: Vec::new() }
    }

    /// The first handle, if any.
    pub fn first(&self) -> (r: Option<usize>)
        ensures
            r == (if self@.len() == 0 {
                None
            } else {
                Some(self@[0])
            }),
    {
        if self.items.len() == 0 {
            None
        } else {
            Some(self.items[0])
        }
    }

    pub fn len(&self) -> (r: usize)
        ensures
            r == self@.len(),
    {
        self.items.len()
    }

    /// The handle at position `i`.
    pub fn get(&self, i: usize) -> (r: usize)
        requires
            i < self@.len(),
        ensures
            r == self@[i as int],
    {
        self.items[i]
    }

    /// Pushes a handle at the front of the queue.
    pub fn push_front(&mut self, el: usize)
        ensures
            final(self)@ == seq![el] + old(self)@,
    {
        self.items.insert(0, el);
        assert(self@ =~= seq![el] + old(self)@);
    }

    /// Pushes a handle at the back of the queue; returns whether it became the first.
    pub fn push_back(&mut self, el: usize) -> (r: bool)
        ensures
            final(self)@ == old(self)@.push(el),
            r == (old(self)@.len() == 0),
    {
        let r = self.items.len() == 0;
        self.items.push(el);
        r
    }

    /// Position of the first occurrence of `el`, or the length if it is absent.
    pub fn position(&self, el: usize) -> (r: usize)
        ensures
            r == first_index(self@, el),
    {
        proof {
            lemma_first_index(self@, el);
        }
        let mut i: usize = 0;
        while i < self.items.len()
            invariant
                i <= self@.len(),
                forall|j: int| 0 <= j < i ==> self@[j] != el,
                0 <= first_index(self@, el) <= self@.len(),
                first_index(self@, el) < self@.len() ==> self@[first_index(self@, el)] == el,
                forall|j: int| 0 <= j < first_index(self@, el) ==> self@[j] != el,
            decreases self@.len() - i,
        {
            if self.items[i] == el {
                return i;
            }
            i = i + 1;
        }
        i
    }

    /// Removes the first occurrence of `el`, if any; returns whether the first handle
    /// changed.
    pub fn remove(&mut self, el: usize) -> (r: bool)
        ensures
            final(self)@ == (if old(self)@.contains(el) {
                old(self)@.remove(first_index(old(self)@, el))
            } else {
                old(self)@
            }),
            r == (old(self)@.len() > 0 && old(self)@[0] == el),
    {
        proof {
            lemma_first_index(self@, el);
        }
        let i = self.position(el);
        if i < self.items.len() {
            self.items.remove(i);
            i == 0
        } else {
            false
        }
    }

    /// The handles in queue order.
    pub fn to_vec(&self) -> (r: Vec<usize>)
        ensures
            r@ == self@,
    {
        let mut r: Vec<usize> = Vec::new();
        let mut i: usize = 0;
        while i < self.items.len()
            invariant
                i <= self@.len(),
                r@ == self@.take(i as int),
            decreases self@.len() - i,
        {
            r.push(self.items[i]);
            i = i + 1;
            assert(r@ =~= self@.take(i as int));
        }
        assert(r@ =~= self@);
        r
    }

    /// Whether `el` is in the queue.
    pub fn contains(&self, el: usize) -> (r: bool)
        ensures
            r == self@.contains(el),
    {
        proof {
            lemma_first_index(self@, el);
        }
        self.position(el) < self.items.len()
    }
}

} // verus!
