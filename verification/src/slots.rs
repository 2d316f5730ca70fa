//! A table of things that are known by their place in it. A place that was given up is empty until
//! it is taken again.
use vstd::prelude::*;

verus! {

/// What stands at the place of a handle.
pub open spec fn slot<T>(all: Seq<Option<T>>, handle: i32) -> Option<T> {
    if 0 <= handle < all.len() {
        all[handle as int]
    } else {
        None
    }
}

/// The first empty place, or the length where there is none.
pub open spec fn first_free<T>(all: Seq<Option<T>>) -> int
    decreases all.len(),
{
    if all.len() == 0 || all[0] is None {
        0
    } else {
        1 + first_free(all.skip(1))
    }
}

/// The table with one more thing in it: at the first empty place, or behind all others.
pub open spec fn placed<T>(all: Seq<Option<T>>, item: T) -> Seq<Option<T>> {
    let i = first_free(all);
    if i < all.len() {
        all.update(i, Some(item))
    } else {
        all.push(Some(item))
    }
}

/// What `first_free` means.
pub proof fn lemma_first_free<T>(all: Seq<Option<T>>)
    ensures
        0 <= first_free(all) <= all.len(),
        first_free(all) < all.len() ==> all[first_free(all)] is None,
        forall|j: int| 0 <= j < first_free(all) ==> #[trigger] all[j] is Some,
    decreases all.len(),
{
    if all.len() > 0 && all[0] is Some {
        lemma_first_free(all.skip(1));
        assert forall|j: int| 0 <= j < first_free(all) implies #[trigger] all[j] is Some by {
            if j > 0 {
                assert(all[j] == all.skip(1)[j - 1]);
            }
        }
    }
}

/// A place with the properties of the first empty one is the one that `first_free` gives.
proof fn lemma_first_free_unique<T>(all: Seq<Option<T>>, i: int)
    requires
        0 <= i <= all.len(),
        i < all.len() ==> all[i] is None,
        forall|j: int| 0 <= j < i ==> #[trigger] all[j] is Some,
    ensures
        first_free(all) == i,
{
    lemma_first_free(all);
    if first_free(all) < i {
        assert(all[first_free(all)] is Some);
    } else if i < first_free(all) {
        assert(all[i] is Some);
    }
}

/// The table.
pub struct Slots<T> {
    items: Vec<Option<T>>,
}

impl<T> View for Slots<T> {
    type V = Seq<Option<T>>;

    closed spec fn view(&self) -> Seq<Option<T>> {
        self.items@
    }
}

impl<T> Slots<T> {
    /// An empty table.
    pub fn new() -> (r: Self)
        ensures
            r@ == Seq::<Option<T>>::empty(),
    {
        Slots { items: Vec::new() }
    }

    /// How many places there are, empty ones among them.
    pub fn len(&self) -> (r: usize)
        ensures
            r == self@.len(),
    {
        self.items.len()
    }

    /// Whether the place of a handle is taken.
    pub fn active(&self, handle: i32) -> (r: bool)
        ensures
            r == slot(self@, handle) is Some,
    {
        handle >= 0 && (handle as usize) < self.items.len() && self.items[handle as usize].is_some()
    }

    /// Puts a thing behind all others. Returns its place.
    pub fn append(&mut self, item: T) -> (r: usize)
        ensures
            r == old(self)@.len(),
            final(self)@ == old(self)@.push(Some(item)),
    {
        let i: usize = self.items.len();
        self.items.push(Some(item));
        i
    }

    /// Puts a thing at the first empty place. Returns its place.
    pub fn place(&mut self, item: T) -> (r: usize)
        ensures
            r == first_free(old(self)@),
            final(self)@ == placed(old(self)@, item),
    {
        let n: usize = self.items.len();
        let mut i: usize = 0;
        while i < n && self.items[i].is_some()
            invariant
                i <= n == self.items@.len(),
                *self == *old(self),
                forall|j: int| 0 <= j < i ==> #[trigger] self.items@[j] is Some,
            decreases n - i,
        {
            i += 1;
        }
        proof {
            lemma_first_free_unique(self.items@, i as int);
        }
        if i < n {
            self.items.set(i, Some(item));
        } else {
            self.items.push(Some(item));
        }
        i
    }

    /// What stands at the place of a handle.
    pub fn get(&self, handle: i32) -> (r: Option<&T>)
        ensures
            match r {
                Some(t) => slot(self@, handle) == Some(*t),
                None => slot(self@, handle) is None,
            },
    {
        if handle < 0 || (handle as usize) >= self.items.len() {
            return None;
        }
        match &self.items[handle as usize] {
            Some(t) => Some(t),
            None => None,
        }
    }

    /// What stands at the place of a handle, to be changed.
    pub fn get_mut(&mut self, handle: i32) -> (r: Option<&mut T>)
        ensures
            match r {
                Some(t) => slot(old(self)@, handle) == Some(*t) && final(self)@ == old(
                    self,
                )@.update(handle as int, Some(*final(t))),
                None => slot(old(self)@, handle) is None && final(self)@ == old(self)@,
            },
    {
        if handle < 0 || (handle as usize) >= self.items.len() {
            return None;
        }
        match &mut self.items[handle as usize] {
            Some(t) => Some(t),
            None => None,
        }
    }

    /// Empties the place of a handle. Returns what stood there.
    pub fn release(&mut self, handle: i32) -> (r: Option<T>)
        ensures
            r == slot(old(self)@, handle),
            final(self)@ == (if slot(old(self)@, handle) is Some {
                old(self)@.update(handle as int, None)
            } else {
                old(self)@
            }),
    {
        if handle < 0 || (handle as usize) >= self.items.len() {
            return None;
        }
        let mut taken: Option<T> = None;
        std::mem::swap(&mut taken, &mut self.items[handle as usize]);
        assert(slot(old(self)@, handle) is None ==> self@ =~= old(self)@);
        taken
    }
}

// ---------------------------------------------------------------------------
// Laws

/// Placing a thing disturbs nothing else: it stands at a place that was empty or new, and every
/// other place is as it was.
pub proof fn placing_disturbs_nothing<T>(all: Seq<Option<T>>, item: T, i: int)
    requires
        0 <= i < placed(all, item).len(),
    ensures
        placed(all, item)[i] == if i == first_free(all) {
            Some(item)
        } else {
            all[i]
        },
        i == first_free(all) && i < all.len() ==> all[i] is None,
{
    lemma_first_free(all);
}

/// The table grows only when every place is taken: otherwise the first place that was given up is
/// taken again.
pub proof fn places_are_reused<T>(all: Seq<Option<T>>, item: T, i: int)
    requires
        0 <= i < all.len(),
        all[i] is None,
    ensures
        placed(all, item).len() == all.len(),
        first_free(all) <= i,
{
    lemma_first_free(all);
    if first_free(all) > i {
        assert(all[i] is Some);
    }
}

/// A handle is a place of the table, and there is nothing at any other.
pub proof fn handles_are_places<T>(all: Seq<Option<T>>, handle: i32)
    ensures
        0 <= handle < all.len() ==> slot(all, handle) == all[handle as int],
        handle < 0 || handle >= all.len() ==> slot(all, handle) is None,
{
}

/// Where every place is taken, a thing is put behind all others, and otherwise no place is added.
pub proof fn tables_grow_by_one_at_most<T>(all: Seq<Option<T>>, item: T)
    ensures
        (forall|i: int| 0 <= i < all.len() ==> #[trigger] all[i] is Some) ==> placed(all, item)
            == all.push(Some(item)) && first_free(all) == all.len(),
        all.len() <= placed(all, item).len() <= all.len() + 1,
{
    lemma_first_free(all);
    if forall|i: int| 0 <= i < all.len() ==> #[trigger] all[i] is Some {
        if first_free(all) < all.len() {
            assert(all[first_free(all)] is Some);
        }
    }
}

} // verus!
